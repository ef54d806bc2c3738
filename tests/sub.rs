use proxrs::base64::base64encode;
use proxrs::protocol::Proxy;
use proxrs::protocol::ProxyType;
use proxrs::sub::include_names;
use proxrs::sub::SubConverter;
use proxrs::sub::SubManager;

#[test]
fn test_rename_dup_proxies_name() {
    let content = String::from(
        "ss://cmM0LW1kNToydnpobzU=@120.241.144.101:2410#name\n\
    ss://cmM0LW1kNToydnpobzU=@120.241.144.101:2410#name1\n\
    ss://cmM0LW1kNToydnpobzU=@120.241.144.101:2410#name1\n\
    ss://cmM0LW1kNToydnpobzU=@120.241.144.101:2410#name\n\
    ss://cmM0LW1kNToydnpobzU=@120.241.144.101:2410#xixi",
    );

    let mut proxies = SubManager::parse_content(content, None);
    assert_eq!(proxies.len(), 5);
    assert_eq!(proxies.get(0).unwrap().get_name(), "name");
    assert_eq!(proxies.get(1).unwrap().get_name(), "name1");
    assert_eq!(proxies.get(2).unwrap().get_name(), "name1");
    assert_eq!(proxies.get(3).unwrap().get_name(), "name");
    assert_eq!(proxies.get(4).unwrap().get_name(), "xixi");
    SubManager::rename_dup_proxies_name(&mut proxies);
    assert_eq!(proxies.len(), 5);
    assert_eq!(proxies.get(0).unwrap().get_name(), "name1");
    assert_eq!(proxies.get(1).unwrap().get_name(), "name2");
    assert_eq!(proxies.get(2).unwrap().get_name(), "name3");
    assert_eq!(proxies.get(3).unwrap().get_name(), "name4");
    assert_eq!(proxies.get(4).unwrap().get_name(), "xixi");
}

fn ss(name: &str, server: &str) -> Proxy {
    Proxy::from_link(format!("ss://YWVzLTEyOC1nY206cHc=@{}:443#{}", server, name)).unwrap()
}

#[test]
fn rename_keeps_unique_names() {
    let mut proxies = vec![ss("b", "h1"), ss("a", "h2"), ss("c", "h3")];
    SubManager::rename_dup_proxies_name(&mut proxies);
    let names: Vec<&str> = proxies.iter().map(|p| p.get_name()).collect();
    assert_eq!(names, vec!["a", "b", "c"]);
}

#[test]
fn rename_skips_taken_suffixes() {
    let mut proxies = vec![ss("hk", "h1"), ss("hk", "h2"), ss("hk1x", "h3"), ss("hk", "h4")];
    SubManager::rename_dup_proxies_name(&mut proxies);
    let names: Vec<&str> = proxies.iter().map(|p| p.get_name()).collect();
    assert_eq!(names, vec!["hk1", "hk1x", "hk2", "hk3"]);
}

#[test]
fn rename_strips_digits_of_unique_names() {
    let mut proxies = vec![ss("node7", "h1"), ss("", "h2")];
    SubManager::rename_dup_proxies_name(&mut proxies);
    let names: Vec<&str> = proxies.iter().map(|p| p.get_name()).collect();
    assert_eq!(names, vec!["h", "node"]);
}

#[test]
fn dedup_keeps_one_of_two_same_nodes() {
    let a = ss("first", "example.org");
    let b = ss("second", "example.org");
    let out = SubManager::exclude_dup_proxies(vec![a, b]);
    assert_eq!(out.len(), 1);
    assert!(out[0].get_name() == "first" || out[0].get_name() == "second");
}

#[test]
fn dedup_orders_by_kind() {
    let trojan = Proxy::from_link("trojan://pw@example.org:443#t".to_string()).unwrap();
    let hy = Proxy::from_link("hysteria2://pw@example.org:443#h".to_string()).unwrap();
    let out = SubManager::exclude_dup_proxies(vec![hy, trojan.clone(), ss("s", "x"), trojan]);
    let kinds: Vec<ProxyType> = out.iter().map(|p| p.proxy_type()).collect();
    assert_eq!(kinds, vec![ProxyType::SS, ProxyType::Trojan, ProxyType::Hysteria2]);
    assert!(SubManager::exclude_dup_proxies(Vec::new()).is_empty());
}

#[test]
fn whole_blob_base64_is_read_first() {
    let links = "ss://YWVzLTEyOC1nY206cHc=@a.example:443#one\nss://YWVzLTEyOC1nY206cHc=@b.example:443#two\n";
    let blob = base64encode(links.to_string());
    let proxies = SubManager::parse_content(format!("  {}\n", blob), None);
    let names: Vec<&str> = proxies.iter().map(|p| p.get_name()).collect();
    assert_eq!(names, vec!["one", "two"]);
}

#[test]
fn raw_lines_skip_what_is_not_a_link() {
    let content = "\n  ss://YWVzLTEyOC1nY206cHc=@a.example:443#one  \r\nnot a link\n\nvless://id@b.example:443#two\n".to_string();
    let proxies = SubManager::parse_content(content, None);
    let names: Vec<&str> = proxies.iter().map(|p| p.get_name()).collect();
    assert_eq!(names, vec!["one", "two"]);
}

#[test]
fn document_proxies_win() {
    let doc = vec![ss("d", "x")];
    let proxies = SubManager::parse_content("ss://YWVzLTEyOC1nY206cHc=@a.example:443#one".to_string(), Some(doc));
    assert_eq!(proxies.len(), 1);
    assert_eq!(proxies[0].get_name(), "d");
    assert!(SubManager::parse_content(String::new(), None).is_empty());
}

#[test]
fn converter_numbers_repeated_names() {
    let mut proxies = vec![ss("a", "h1"), ss("a", "h2"), ss("b", "h3"), ss("a", "h4")];
    SubConverter::rename_dup_proxies_name(&mut proxies);
    let names: Vec<&str> = proxies.iter().map(|p| p.get_name()).collect();
    assert_eq!(names, vec!["a", "a1", "b", "a2"]);
}

#[test]
fn include_names_keeps_listed_proxies() {
    let proxies = vec![ss("a", "h1"), ss("b", "h2"), ss("c", "h3")];
    let kept = include_names(proxies, vec!["c".to_string(), "a".to_string()]);
    let names: Vec<&str> = kept.iter().map(|p| p.get_name()).collect();
    assert_eq!(names, vec!["a", "c"]);
}
