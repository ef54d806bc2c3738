use proxrs::base64::base64encode;
use proxrs::protocol::hysteria2::Hysteria2;
use proxrs::protocol::ss::SS;
use proxrs::protocol::ssr::Ssr;
use proxrs::protocol::trojan::Trojan;
use proxrs::protocol::vless::Vless;
use proxrs::protocol::vmess::Vmess;
use proxrs::protocol::GrpcOptions;
use proxrs::protocol::WSOptions;

#[test]
fn ss_test_parse_ss() {
    let link = String::from("ss://YWVzLTEyOC1nY206ZDljNTc3MzI4ZmIzNDlmZQ==@120.232.73.68:40676#%F0%9F%87%AD%F0%9F%87%B0HK");
    let result = SS::from_link(link.clone());
    assert!(result.is_ok());
    let proxy = result.unwrap();
    assert_eq!(proxy.name, "🇭🇰HK");
    assert_eq!(proxy.server, "120.232.73.68");
    assert_eq!(proxy.port, 40676);
    assert_eq!(proxy.password, "d9c577328fb349fe");
    assert_eq!(proxy.cipher, "aes-128-gcm");
    assert_eq!(proxy.to_link(), link)
}

#[test]
fn test_parse_base64_ss() {
    let link = String::from(
        "ss://YWVzLTI1Ni1nY206UTFHVVo3VkRQWk9BU0M5SEAxMjAuMjQxLjQ1LjUwOjE3MDAxI1VTLTAx",
    );
    let result = SS::from_link(link.clone()).unwrap();
    assert_eq!("Q1GUZ7VDPZOASC9H", result.password);
    assert_eq!("aes-256-gcm", result.cipher);
}

#[test]
fn test_parse_base64_ss1() {
    let link = String::from(
        "ss://MjAyMi1ibGFrZTMtYWVzLTI1Ni1nY206emtWV2lPU1o4OEVnZi9LSlE1azFlWFRZUFNMNXhZWEZ6OTFPanBFRWE1UT06dzZLQTFFYkNrM2hpdWJQZWlMMktkUUJjcG9kbUl3c1VlcDJBLzFVd3hLbz1AYXdzMS5pb2xvZnQubWU6NDg1Njc#%F0%9F%87%AF%F0%9F%87%B5%20AWS",
    );
    let result = SS::from_link(link.clone()).unwrap();
    assert_eq!("zkVWiOSZ88Egf/KJQ5k1eXTYPSL5xYXFz91OjpEEa5Q=:w6KA1EbCk3hiubPeiL2KdQBcpodmIwsUep2A/1UwxKo=", result.password);
    assert_eq!("2022-blake3-aes-256-gcm", result.cipher);
}

#[test]
fn ss_test_ss2() {
    let link = String::from("ss://Y2hhY2hhMjAtaWV0ZjpIdVRhb0Nsb3Vk@cm1-hk.hutaonode3.top:12452?plugin=obfs-local;mode%3Dwebsocket#%E9%A6%99%E6%B8%AF%40vpnhat");
    let result = SS::from_link(link.clone()).unwrap();
    assert!(result.plugin.is_some());
    assert_eq!(result.to_link(), link);
}

#[test]
fn ss_test_ss3() {
    let link = String::from("ss://cmM0LW1kNToydnpobzU=@120.241.144.101:2410?plugin=obfs-local;obfs%3Dhttp;obfs-host%3D89c19109670.microsoft.com#%E9%A6%99%E6%B8%AFAkari-P");
    let ss1 = SS::from_link(link.clone()).unwrap();
    assert_eq!(ss1.cipher, "rc4-md5");
    assert_eq!(ss1.password, "2vzho5");
    assert_eq!(ss1.server, "120.241.144.101");
    assert_eq!(ss1.port, 2410);
    assert_eq!(ss1.plugin, Some("obfs-local".to_string()));
    let map = vec![
        ("obfs".to_string(), "http".to_string()),
        ("obfs-host".to_string(), "89c19109670.microsoft.com".to_string()),
    ];
    assert_eq!(ss1.plugin_opts, Some(map));

    let b_link = ss1.to_link();
    let ss2 = SS::from_link(b_link.clone()).unwrap();
    assert_eq!(ss2.cipher, "rc4-md5");
    assert_eq!(ss2.password, "2vzho5");
    assert_eq!(ss2.server, "120.241.144.101");
    assert_eq!(ss2.port, 2410);
    assert_eq!(ss2.plugin, Some("obfs-local".to_string()));
    let map = vec![
        ("obfs".to_string(), "http".to_string()),
        ("obfs-host".to_string(), "89c19109670.microsoft.com".to_string()),
    ];
    assert_eq!(ss2.plugin_opts, Some(map));
}

#[test]
fn ss_without_name_is_named_after_address() {
    let link = "ss://YWVzLTEyOC1nY206ZDljNTc3MzI4ZmIzNDlmZQ==@120.232.73.68:40676".to_string();
    assert_eq!(SS::from_link(link).unwrap().name, "120.232.73.6840676");
}

#[test]
fn ss_errors() {
    assert!(SS::from_link("ss://YWVzLTEyOC1nY206ZDljNTc3MzI4ZmIzNDlmZQ==@120.232.73.68#x".to_string()).is_err());
    assert!(SS::from_link("ss://YWVzLTEyOC1nY206ZDljNTc3MzI4ZmIzNDlmZQ==@120.232.73.68:99999#x".to_string()).is_err());
    assert!(SS::from_link("vmess://abc".to_string()).is_err());
    assert!(SS::from_link("ss://".to_string()).is_err());
    assert!(SS::from_link("ss".to_string()).is_err());
}

#[test]
fn ss_round_trip_with_options_and_ipv6() {
    let ss = SS {
        name: "节点 #1".to_string(),
        server: "2001:db8::1".to_string(),
        port: 8388,
        password: "p@ss:word".to_string(),
        cipher: "aes-256-gcm".to_string(),
        plugin: Some("v2ray-plugin".to_string()),
        plugin_opts: Some(vec![("mode".to_string(), "websocket".to_string()), ("host".to_string(), "a=b;c".to_string())]),
    };
    let link = ss.to_link();
    assert!(link.contains("@[2001:db8::1]:8388?plugin=v2ray-plugin;"));
    let back = SS::from_link(link).unwrap();
    assert_eq!(back.name, ss.name);
    assert_eq!(back.server, ss.server);
    assert_eq!(back.port, ss.port);
    assert_eq!(back.password, ss.password);
    assert_eq!(back.cipher, ss.cipher);
    assert_eq!(back.plugin, ss.plugin);
    assert_eq!(back.plugin_opts, ss.plugin_opts);
}

#[test]
fn test_parse_ssr() {
    let link = String::from("ssr://dmlwLmJhc2ljbm9kZS5ob3N0OjExODQ1OmF1dGhfYWVzMTI4X3NoYTE6Y2hhY2hhMjAtaWV0Zjp0bHMxLjJfdGlja2V0X2F1dGg6Um1oaVpUQjYvP3JlbWFya3M9VUhKdkxlbW1tZWE0cnlCSVMwZmt1S2psaGFqb3A2UHBsSUhrdUtoQk1nPT0mb2Jmc3BhcmFtPU5tWTBNV0l5TkM1dGFXTnliM052Wm5RdVkyOXQmcHJvdG9wYXJhbT1NalE2VTNCWlZYUlFaVXBaYUZKck5FWlhRdz09");
    let ssr = Ssr::from_link(link).unwrap();
    assert_eq!(ssr.server, "vip.basicnode.host");
    assert_eq!(ssr.port, 11845);
    assert_eq!(ssr.password, "Fhbe0z");
    assert_eq!(ssr.cipher, "chacha20-ietf");
    assert_eq!(ssr.obfs, "tls1.2_ticket_auth");
    assert_eq!(ssr.obfs_param, Some("6f41b24.microsoft.com".to_string()));
    assert_eq!(ssr.protocol, "auth_aes128_sha1");
    assert_eq!(ssr.protocol_param, Some("24:SpYUtPeJYhRk4FWC".to_string()));
}

#[test]
fn ssr_with_missing_fields_is_refused() {
    let link = format!("ssr://{}", base64encode("host:80:origin".to_string()));
    assert!(Ssr::from_link(link).is_err());
}

#[test]
fn test_parse_trojan() {
    let link = String::from("trojan://4fee57cc-ee15-4800-888f-3493f7b261f2@hk1.ee2c9087-71b0-70af-7924-09d714b25b96.6df03129.the-best-airport.com:443?type=tcp&sni=new.download.the-best-airport.com&allowInsecure=1#%F0%9F%87%AD%F0%9F%87%B0%E9%A6%99%E6%B8%AF%2001%20%7C%20%E4%B8%93%E7%BA%BF%0D");
    let trojan = Trojan::from_link(link).unwrap();
    assert_eq!(
        trojan.server,
        "hk1.ee2c9087-71b0-70af-7924-09d714b25b96.6df03129.the-best-airport.com"
    );
    assert_eq!(trojan.port, 443);
    assert_eq!(trojan.password, "4fee57cc-ee15-4800-888f-3493f7b261f2");
    assert_eq!(
        trojan.sni,
        Some("new.download.the-best-airport.com".to_string())
    );
    assert_eq!(trojan.skip_cert_verify, Some(true));
    assert_eq!(trojan.network, Some("tcp".to_string()));
}

#[test]
fn test_parse_trojan1() {
    let link = String::from("trojan://ed4f18fc-fdc9-4296-a69a-a2c908f9b09e@211.99.98.83:32039?security=tls&type=tcp&headerType=none#%F0%9F%87%A8%F0%9F%87%A6%20%E5%8A%A0%E6%8B%BF%E5%A4%A7-BGP");
    println!("{:?}", Trojan::from_link(link).unwrap());
}

#[test]
fn trojan_name_after_last_hash() {
    let trojan = Trojan::from_link("trojan://pa#ss@example.com:443#name".to_string()).unwrap();
    assert_eq!(trojan.password, "pa#ss");
    assert_eq!(trojan.name, "name");
    assert_eq!(trojan.skip_cert_verify, None);
}

#[test]
fn vless_test_parse_vless() {
    let link = String::from("vless://2cd6ed0f-636e-4e6c-9449-5a263d7a0fa5@192.9.165.253:20001?encryption=none&security=tls&sni=cfed.tgzdyz2.top&fp=random&type=ws&host=cfed.tgzdyz2.top&path=%2FTG%40ZDYZ2%3Fed%3D2560#TG%40ZDYZ2%20-%E6%BE%B3%E5%A4%A7%E5%88%A9%E4%BA%9A%F0%9F%87%A6%F0%9F%87%BA");
    let vless = Vless::from_link(link).unwrap();
    assert_eq!(vless.server, "192.9.165.253");
    assert_eq!(vless.port, 20001);
    assert_eq!(vless.tls, Some(true));
    assert_eq!(vless.uuid, "2cd6ed0f-636e-4e6c-9449-5a263d7a0fa5");
    assert_eq!(vless.servername, Some("cfed.tgzdyz2.top".to_string()));
    assert_eq!(vless.skip_cert_verify, Some(true));
    assert_eq!(vless.network, Some("ws".to_string()));
    let headers = vec![("host".to_string(), "cfed.tgzdyz2.top".to_string())];
    assert_eq!(
        vless.ws_opts,
        Some(WSOptions {
            path: Some("/TG@ZDYZ2?ed=2560".to_string()),
            headers: Some(headers),
        })
    );
    assert_eq!(vless.fingerprint, Some("random".to_string()));

    let new = Vless {
        name: "xixixi".to_string(),
        server: "192.9.165.253".to_string(),
        port: 20001,
        uuid: "2cd6ed0f-636e-4e6c-9449-5a263d7a0fa5".to_string(),
        tls: None,
        flow: None,
        udp: None,
        skip_cert_verify: None,
        fingerprint: None,
        servername: None,
        network: None,
        ws_opts: None,
        reality_opts: None,
        grpc_opts: None,
    };
    assert_eq!(new, vless);
}

#[test]
fn test_parse_vless1() {
    let link = String::from("vless://bfbe4deb-07c8-450b-945e-e3c7676ba5ed@146.56.43.3:443?type=tcp&encryption=none&host=&path=&headerType=none&quicSecurity=none&serviceName=&mode=gun&security=tls&flow=xtls-rprx-vision&fp=safari&sni=djdownloadkr1.xn--4gq62f52gopi49k.com&pbk=&sid=#%F0%9F%87%B0%F0%9F%87%B7%E9%9F%A9%E5%9B%BD%E9%A6%96%E5%B0%942");
    let vless = Vless::from_link(link).unwrap();
    assert_eq!(vless.server, "146.56.43.3");
    assert_eq!(vless.port, 443);
    assert_eq!(vless.tls, Some(true));
    assert_eq!(vless.flow, Some("xtls-rprx-vision".to_string()));
    assert_eq!(vless.network, Some("tcp".to_string()));
    assert_eq!(vless.uuid, "bfbe4deb-07c8-450b-945e-e3c7676ba5ed");
    assert_eq!(
        vless.servername,
        Some("djdownloadkr1.xn--4gq62f52gopi49k.com".to_string())
    );
    assert_eq!(vless.fingerprint, Some("safari".to_string()));
}

#[test]
fn test_parse_vless2() {
    let link = String::from("vless://eb3b564b-4b6e-4733-8d03-c6130b858562@[2001:bc8:1d90:d4e::]:9999?encryption=none&security=reality&sni=swdist.apple.com&fp=chrome&pbk=UK7qxWWGfRQcQfwaGpHnqmmqqJBut4jxve8AeDDJ2UI&sid=aaa666&type=grpc&authority=&serviceName=applestore&mode=gun#%E6%B3%A2%E5%85%B0v6");
    let vless = Vless::from_link(link).unwrap();
    assert_eq!("2001:bc8:1d90:d4e::", vless.server);
}

#[test]
fn test_parse_vless3() {
    let link = "vless://fa3129d0-5d5c-4bdf-99d7-708b25e92241@[2603:c022:8013:f300:2859:298e:1387:7c28]:35803?encryption=none&security=reality&sni=sega.com&fp=firefox&pbk=euJOlEl0IAbuX8rsStBPM_DVHBtWF0e5uinEhHCzYxw&sid=32ae7737&spx=%2F&type=tcp&headerType=none#yx9mzoya".to_string();
    let vless = Vless::from_link(link).unwrap();
    assert_eq!(vless.server, "2603:c022:8013:f300:2859:298e:1387:7c28");
}

#[test]
fn vless_ipv6_port() {
    let link = "vless://id@[2001:bc8:1d90:d4e::]:9999?security=none#n".to_string();
    let vless = Vless::from_link(link).unwrap();
    assert_eq!(vless.server, "2001:bc8:1d90:d4e::");
    assert_eq!(vless.port, 9999);
    assert_eq!(vless.tls, Some(false));
}

#[test]
fn vless_without_port_is_refused() {
    assert!(Vless::from_link("vless://id@host?type=tcp#n".to_string()).is_err());
}

#[test]
fn vmess_test_parse_vmess() {
    let link = String::from("vmess://eyJ2IjoiMiIsInBzIjoiXHU1MmEwXHU2MmZmXHU1OTI3IDAzIFx1OWFkOFx1OTAxZlx1ZmYwODAuMVx1NTAwZFx1NmQ0MVx1OTFjZlx1NmQ4OFx1ODAxN1x1ZmYwOSIsImFkZCI6ImNkbmNkbmNkbmNkbi43ODQ2NTQueHl6IiwicG9ydCI6IjIwNTIiLCJpZCI6IjNlYTU3OGM2LTFlYWEtNGUxNS1iZmUxLTlmNzU3YjU4ZThmMiIsImFpZCI6IjAiLCJuZXQiOiJ3cyIsInR5cGUiOiJub25lIiwiaG9zdCI6ImNhLWNmY2RuLmFpa3VuYXBwLmNvbSIsInBhdGgiOiJcL2luZGV4P2VkPTIwNDgiLCJ0bHMiOiIifQ==");
    let vmess = Vmess::from_link(link).unwrap();
    assert_eq!(vmess.server, "cdncdncdncdn.784654.xyz");
    assert_eq!(vmess.port, 2052);
    assert_eq!(vmess.uuid, "3ea578c6-1eaa-4e15-bfe1-9f757b58e8f2");
    assert_eq!(vmess.alter_id, 0);
    assert_eq!(vmess.network, Some("ws".to_string()));
    assert!(vmess.ws_opts.is_some());

    let link = String::from("vmess://eyJ2IjoiMiIsInBzIjoiQHZwbnBvb2wiLCJhZGQiOiJrci5haWt1bmFwcC5jb20iLCJwb3J0IjoyMDAwNiwiaWQiOiIyMTM2ZGM2Yy01ZmQ0LTRiZmQtODhhMS0yYWVlYTk4ODhmOGIiLCJhaWQiOjAsInNjeSI6ImF1dG8iLCJuZXQiOiIiLCJ0bHMiOiIifQ==");
    let vmess = Vmess::from_link(link).unwrap();
    assert_eq!(vmess.server, "kr.aikunapp.com");
    assert_eq!(vmess.port, 20006);
    assert_eq!(vmess.uuid, "2136dc6c-5fd4-4bfd-88a1-2aeea9888f8b");
    assert_eq!(vmess.alter_id, 0);
    assert_eq!(vmess.network, None);
    assert!(vmess.ws_opts.is_none());
}

#[test]
fn test_parse_ss_vmess() {
    let link = String::from("vmess://YXV0bzoyMTc5ZjE3OS01MzYwLTRiYzAtOWJjYS1mZmQ1NDAzNjNlNGFAMjAzLjY2LjE0LjQ4OjQ1MTE2?remarks=%F0%9F%87%B9%F0%9F%87%BC%20%E6%B8%AF%E4%BB%94&obfs=none&alterId=0");
    let vmess = Vmess::from_link(link).unwrap();
    assert_eq!(vmess.server, "203.66.14.48");
    assert_eq!(vmess.port, 45116);
    assert_eq!(vmess.uuid, "2179f179-5360-4bc0-9bca-ffd540363e4a");
    assert_eq!(vmess.cipher, "auto");
    assert_eq!(vmess.alter_id, 0);
    assert_eq!(vmess.network, None);
    assert!(vmess.ws_opts.is_none());
}

#[test]
fn test_parse_ws_vmess() {
    let link = String::from("vmess://eyJ2IjoiMiIsInBzIjoiXHU1MmEwXHU2MmZmXHU1OTI3IDAzIFx1OWFkOFx1OTAxZlx1ZmYwODAuMVx1NTAwZFx1NmQ0MVx1OTFjZlx1NmQ4OFx1ODAxN1x1ZmYwOSIsImFkZCI6ImNkbmNkbmNkbmNkbi43ODQ2NTQueHl6IiwicG9ydCI6IjIwNTIiLCJpZCI6IjNlYTU3OGM2LTFlYWEtNGUxNS1iZmUxLTlmNzU3YjU4ZThmMiIsImFpZCI6IjAiLCJuZXQiOiJ3cyIsInR5cGUiOiJub25lIiwiaG9zdCI6ImNhLWNmY2RuLmFpa3VuYXBwLmNvbSIsInBhdGgiOiJcL2luZGV4P2VkPTIwNDgiLCJ0bHMiOiIifQ==");
    let vmess = Vmess::from_link(link).unwrap();
    assert_eq!(vmess.server, "cdncdncdncdn.784654.xyz");
    assert_eq!(vmess.port, 2052);
    assert_eq!(vmess.uuid, "3ea578c6-1eaa-4e15-bfe1-9f757b58e8f2");
    assert_eq!(vmess.alter_id, 0);
    assert_eq!(vmess.network, Some("ws".to_string()));
    assert!(vmess.ws_opts.is_some());
}

#[test]
fn test_parse_grpc_vmess() {
    let link = String::from("vmess://eyJ2IjoiMiIsInBzIjoiXHU5MDgwXHU4YmY3XHU2NWIwXHU3NTI4XHU2MjM3NjAlXHU4ZmQ0XHU1MjI5IiwiYWRkIjoiZGVmYXVsdC42NTNlYmVlYi01ZjYwLTRiZTUtOTU4ZC03YmY0ODM5Y2RjY2QuZWY2NjE2ZmQtNWIwNi00ODJmLTlkNjQtMTgzNzQ1NjU5Y2JmLmJ5dGVwcml2YXRlbGluay5jb20iLCJwb3J0IjoiNDQzIiwiaWQiOiJhNDQzMDZkNS0zMzQzLTQ0MDUtYTA4Yy0yZDU0NmE1N2QzYjgiLCJhaWQiOiIwIiwibmV0IjoiZ3JwYyIsInR5cGUiOiJub25lIiwiaG9zdCI6IiIsInBhdGgiOiIxMjMwNiIsInRscyI6InRscyIsInNuaSI6ImNkbjEuMTAzOTIub25saW5lIn0=");
    let vmess = Vmess::from_link(link).unwrap();
    assert_eq!(Some("grpc".to_string()), vmess.network);
    assert_eq!(
        Some(GrpcOptions {
            grpc_service_name: Some("cdn1.10392.online".to_string())
        }),
        vmess.grpc_opts
    );
}

#[test]
fn vmess_quic_is_refused() {
    let json = r#"{"v":"2","ps":"q","add":"example.com","port":"443","id":"8a2c","aid":"0","net":"quic"}"#;
    let link = format!("vmess://{}", base64encode(json.to_string()));
    assert!(Vmess::from_link(link).is_err());
    let json = r#"{"v":"2","ps":"h","add":"example.com","port":443,"id":"8a2c","aid":0,"net":"http"}"#;
    let link = format!("vmess://{}", base64encode(json.to_string()));
    assert!(Vmess::from_link(link).is_err());
}

#[test]
fn vmess_numeric_fields() {
    let json = r#"{"ps":"","add":"example.com","port":70000,"id":"8a2c","aid":0}"#;
    let link = format!("vmess://{}", base64encode(json.to_string()));
    assert!(Vmess::from_link(link).is_err());
    let json = r#"{"add":"example.com","port":8080,"id":"8a2c","aid":"2","udp":"false","tls":"true","alpn":"h2,http/1.1"}"#;
    let link = format!("vmess://{}", base64encode(json.to_string()));
    let vmess = Vmess::from_link(link).unwrap();
    assert_eq!(vmess.name, "example.com8080");
    assert_eq!(vmess.alter_id, 2);
    assert_eq!(vmess.udp, Some(false));
    assert_eq!(vmess.tls, Some(true));
    assert_eq!(vmess.alpn, Some(vec!["h2".to_string(), "http/1.1".to_string()]));
}

#[test]
fn test_parse_hysteria2() {
    let link = String::from("hysteria2://bfbe4deb-07c8-450b-945e-e3c7676ba5ed@163.123.192.167:50000/?insecure=1&sni=www.microsoft.com&mport=50000-50080#%E5%89%A9%E4%BD%99%E6%B5%81%E9%87%8F%EF%BC%9A163.97%20GB");
    let hysteria2 = Hysteria2::from_link(link.clone()).unwrap();
    assert_eq!(hysteria2.server, "163.123.192.167");
    assert_eq!(hysteria2.port, 50000);
    assert_eq!(hysteria2.ports, Some("50000-50080".to_string()));
    assert_eq!(hysteria2.password, "bfbe4deb-07c8-450b-945e-e3c7676ba5ed");
    assert_eq!(hysteria2.sni, Some("www.microsoft.com".to_string()));
    assert_eq!(hysteria2.skip_cert_verify, Some(true));
    assert_eq!(hysteria2.client_fingerprint, Some("chrome".to_string()));
    assert_eq!(hysteria2.to_link(), link);
}

#[test]
fn hysteria2_port_range_in_authority() {
    let link = "hysteria2://pw@example.com:443,5000-6000?obfs=salamander&alpn=h3,h2".to_string();
    let h = Hysteria2::from_link(link).unwrap();
    assert_eq!(h.port, 443);
    assert_eq!(h.ports, Some("5000-6000".to_string()));
    assert_eq!(h.name, "example.com443");
    assert_eq!(h.skip_cert_verify, Some(false));
    assert_eq!(h.obfs, Some("salamander".to_string()));
    assert_eq!(h.alpn, Some(vec!["h3".to_string(), "h2".to_string()]));
    assert!(Hysteria2::from_link("hysteria2://pw@example.com:x,5000-6000".to_string()).is_err());
}

#[test]
fn hysteria2_round_trip() {
    let h = Hysteria2 {
        name: "东京 01".to_string(),
        server: "example.com".to_string(),
        password: "secret".to_string(),
        port: 443,
        ports: Some("20000-30000".to_string()),
        hop_interval: None,
        up: Some("100 Mbps".to_string()),
        down: Some("200 Mbps".to_string()),
        obfs: Some("salamander".to_string()),
        obfs_password: Some("cry".to_string()),
        sni: Some("a.example.com".to_string()),
        skip_cert_verify: Some(false),
        fingerprint: None,
        client_fingerprint: Some("chrome".to_string()),
        alpn: Some(vec!["h3".to_string()]),
    };
    let back = Hysteria2::from_link(h.to_link()).unwrap();
    assert_eq!(back.name, h.name);
    assert_eq!(back.server, h.server);
    assert_eq!(back.password, h.password);
    assert_eq!(back.port, h.port);
    assert_eq!(back.ports, h.ports);
    assert_eq!(back.up, h.up);
    assert_eq!(back.down, h.down);
    assert_eq!(back.obfs, h.obfs);
    assert_eq!(back.obfs_password, h.obfs_password);
    assert_eq!(back.sni, h.sni);
    assert_eq!(back.skip_cert_verify, h.skip_cert_verify);
    assert_eq!(back.alpn, h.alpn);
}

#[test]
fn port_bounds() {
    let ok = Trojan::from_link("trojan://pw@example.org:65535#t".to_string()).unwrap();
    assert_eq!(ok.port, 65535);
    assert!(Trojan::from_link("trojan://pw@example.org:65536#t".to_string()).is_err());
    assert!(Trojan::from_link("trojan://pw@example.org:#t".to_string()).is_err());
    let plus = Trojan::from_link("trojan://pw@example.org:+443#t".to_string()).unwrap();
    assert_eq!(plus.port, 443);
}
