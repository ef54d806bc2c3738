use proxrs::protocol::Proxy;
use proxrs::protocol::ProxyType;

#[test]
fn mod_test_proxy_type() {
    let ss_link = "ss://YWVzLTEyOC1nY206ZDljNTc3MzI4ZmIzNDlmZQ==@120.232.73.68:40676#%F0%9F%87%AD%F0%9F%87%B0HK".to_string();
    assert_eq!(Proxy::from_link(ss_link).unwrap().proxy_type(), ProxyType::SS);

    let ssr_link = "ssr://dmlwLmJhc2ljbm9kZS5ob3N0OjExODQ1OmF1dGhfYWVzMTI4X3NoYTE6Y2hhY2hhMjAtaWV0Zjp0bHMxLjJfdGlja2V0X2F1dGg6Um1oaVpUQjYvP3JlbWFya3M9VUhKdkxlbW1tZWE0cnlCSVMwZmt1S2psaGFqb3A2UHBsSUhrdUtoQk1nPT0mb2Jmc3BhcmFtPU5tWTBNV0l5TkM1dGFXTnliM052Wm5RdVkyOXQmcHJvdG9wYXJhbT1NalE2VTNCWlZYUlFaVXBaYUZKck5FWlhRdz09".to_string();
    assert_eq!(
        Proxy::from_link(ssr_link).unwrap().proxy_type(),
        ProxyType::SSR
    );

    let hysteria2_link = "hysteria2://bfbe4deb-07c8-450b-945e-e3c7676ba5ed@163.123.192.167:50000/?insecure=1&sni=www.microsoft.com&mport=50000-50080#%E5%89%A9%E4%BD%99%E6%B5%81%E9%87%8F%EF%BC%9A163.97%20GB".to_string();
    assert_eq!(
        Proxy::from_link(hysteria2_link).unwrap().proxy_type(),
        ProxyType::Hysteria2
    );

    let trojan_link = "trojan://4fee57cc-ee15-4800-888f-3493f7b261f2@hk1.ee2c9087-71b0-70af-7924-09d714b25b96.6df03129.the-best-airport.com:443?type=tcp&sni=new.download.the-best-airport.com&allowInsecure=1#%F0%9F%87%AD%F0%9F%87%B0%E9%A6%99%E6%B8%AF%2001%20%7C%20%E4%B8%93%E7%BA%BF%0D".to_string();
    assert_eq!(
        Proxy::from_link(trojan_link).unwrap().proxy_type(),
        ProxyType::Trojan
    );

    let vmess_link = "vmess://eyJ2IjoiMiIsInBzIjoiQHZwbnBvb2wiLCJhZGQiOiJrci5haWt1bmFwcC5jb20iLCJwb3J0IjoyMDAwNiwiaWQiOiIyMTM2ZGM2Yy01ZmQ0LTRiZmQtODhhMS0yYWVlYTk4ODhmOGIiLCJhaWQiOjAsInNjeSI6ImF1dG8iLCJuZXQiOiIiLCJ0bHMiOiIifQ==".to_string();
    assert_eq!(
        Proxy::from_link(vmess_link).unwrap().proxy_type(),
        ProxyType::Vmess
    );

    let vless_link = "vless://2cd6ed0f-636e-4e6c-9449-5a263d7a0fa5@192.9.165.253:20001?encryption=none&security=tls&sni=cfed.tgzdyz2.top&fp=random&type=ws&host=cfed.tgzdyz2.top&path=%2FTG%40ZDYZ2%3Fed%3D2560#TG%40ZDYZ2%20-%E6%BE%B3%E5%A4%A7%E5%88%A9%E4%BA%9A%F0%9F%87%A6%F0%9F%87%BA".to_string();
    assert_eq!(
        Proxy::from_link(vless_link).unwrap().proxy_type(),
        ProxyType::Vless
    );
}

#[test]
fn mod_test_proxy() {
    let link = "ss://YWVzLTEyOC1nY206ZDljNTc3MzI4ZmIzNDlmZQ==@120.232.73.68:40676#%F0%9F%87%AD%F0%9F%87%B0HK".to_string();
    let proxy1 = Proxy::from_link(link.clone()).unwrap();
    let proxy2 = Proxy::from_link(link.clone()).unwrap();
    println!("{:?}", proxy1);
    println!("{:?}", proxy2);
    assert_eq!(proxy1, proxy2);
}

#[test]
fn unknown_scheme_is_refused() {
    let err = Proxy::from_link("socks5://user@host:1080".to_string()).unwrap_err();
    assert!(err.to_string().starts_with("Unsupported link format: "));
}

#[test]
fn names_and_servers() {
    let link = "trojan://pw@example.org:443#a%20b".to_string();
    let mut proxy = Proxy::from_link(link).unwrap();
    assert_eq!(proxy.get_name(), "a b");
    assert_eq!(proxy.get_server(), "example.org");
    proxy.set_name("renamed");
    assert_eq!(proxy.get_name(), "renamed");
    assert_eq!(proxy.get_server(), "example.org");
}

#[test]
fn links_only_for_ss_and_hysteria2() {
    let ss = "ss://YWVzLTEyOC1nY206ZDljNTc3MzI4ZmIzNDlmZQ==@120.232.73.68:40676#HK".to_string();
    assert_eq!(Proxy::from_link(ss.clone()).unwrap().to_link().unwrap(), ss);
    let trojan = Proxy::from_link("trojan://pw@example.org:443#t".to_string()).unwrap();
    assert!(trojan.to_link().is_err());
}

#[test]
fn kinds_never_equal_across_variants() {
    let ss = Proxy::from_link("ss://YWVzLTEyOC1nY206cHc=@example.org:443#a".to_string()).unwrap();
    let trojan = Proxy::from_link("trojan://pw@example.org:443#a".to_string()).unwrap();
    assert_ne!(ss, trojan);
    let ss_other_name = Proxy::from_link("ss://YWVzLTEyOC1nY206cHc=@example.org:443#b".to_string()).unwrap();
    assert_eq!(ss, ss_other_name);
    let ss_other_port = Proxy::from_link("ss://YWVzLTEyOC1nY206cHc=@example.org:444#a".to_string()).unwrap();
    assert_ne!(ss, ss_other_port);
}

#[test]
fn tags_and_ranks() {
    assert_eq!(ProxyType::Hysteria2.tag(), "hysteria2");
    assert_eq!(ProxyType::SS.rank(), 0);
    assert_eq!(ProxyType::Unknown.rank(), 8);
    assert!(ProxyType::SS < ProxyType::SSR);
}
