use anytls::cli::{
    build_share_tag, check_client_args, choose_keypair, choose_tcp_brutal, client_snippet, deployment_commands,
    generated_values, has_label, hostname_from_output, is_reality, normalize_tag_segment, padding_from_file,
    rand_request, random_base64, random_hex, reality_from_args, reality_link, reality_section, reality_server_config, send_rate_line,
    server_password, tcp_brutal_config, RandRequest, RealityPlan,
};
use anytls::error::AnyTlsError;
use anytls::reality::public_key_from_private_key;
use anytls::server::{route, Route, Server};
use anytls::auth::{auth_request, password_hash};
use anytls::padding::PaddingFactory;
use anytls::socks_addr::SocksAddr;
use anytls::ip::IpAddr;
use anytls::tls::{known_server_name, server_name, ServerName};
use anytls::uot::request_destination;
use anytls::wire::Progress;

fn failure<T>(result: Result<T, AnyTlsError>) -> String {
    match result {
        Ok(_) => panic!("a failure is expected"),
        Err(err) => err.message(),
    }
}

fn text(value: &str) -> Option<String> {
    Some(value.to_string())
}

#[test]
fn required_arguments_are_required() {
    assert!(check_client_args("s", "p").is_ok());
    assert_eq!(failure(check_client_args("", "p")), "protocol error: client requires -s and -p");
    assert_eq!(failure(check_client_args("s", "")), "protocol error: client requires -s and -p");
    assert_eq!(server_password(text("p")).unwrap(), "p");
    assert_eq!(failure(server_password(None)), "protocol error: server requires -p or --config");
    assert!(is_reality("Reality") && is_reality("REALITY") && !is_reality("tls") && !is_reality("reality "));
}

#[test]
fn padding_files_hold_schemes() {
    assert_eq!(padding_from_file(b"stop=3", "p").unwrap().stop(), 3);
    assert_eq!(
        failure(padding_from_file(b"nothing", "dir/scheme.txt")),
        "protocol error: invalid padding scheme file: dir/scheme.txt"
    );
}

#[test]
fn rates_come_from_arguments() {
    assert!(tcp_brutal_config(None, None).unwrap().is_none());
    let config = tcp_brutal_config(Some(9), None).unwrap().unwrap();
    assert_eq!((config.rate, config.cwnd_gain), (9, 15));
    let config = tcp_brutal_config(Some(9), Some(7)).unwrap().unwrap();
    assert_eq!((config.rate, config.cwnd_gain), (9, 7));
    assert_eq!(
        failure(tcp_brutal_config(None, Some(7))),
        "protocol error: --tcp-brutal-cwnd-gain requires --tcp-brutal-rate"
    );
    assert_eq!(
        failure(tcp_brutal_config(Some(0), None)),
        "protocol error: tcp brutal rate must be greater than 0"
    );
}

#[test]
fn reality_settings_come_from_arguments() {
    let names = vec!["n".to_string()];
    let config =
        reality_from_args(text("d"), names.clone(), text("k"), text("p"), vec!["01".to_string()], "f".to_string()).unwrap();
    assert_eq!((config.dest.as_str(), config.private_key.as_str(), config.fingerprint.as_str()), ("d", "k", "f"));
    assert_eq!((config.server_names, config.public_key, config.short_ids), (names.clone(), text("p"), vec!["01".to_string()]));
    let from = |dest, names, key| failure(reality_from_args(dest, names, key, None, Vec::new(), String::new()));
    assert_eq!(from(None, Vec::new(), None), "protocol error: reality server requires --reality-dest");
    assert_eq!(from(text("d"), Vec::new(), None), "protocol error: reality server requires --reality-server-names");
    assert_eq!(from(text("d"), names, None), "protocol error: reality server requires --reality-private-key");
    assert_eq!(
        failure(reality_section(None)),
        "protocol error: reality server yaml config requires a reality section"
    );
}

#[test]
fn random_values_have_their_length() {
    assert_eq!(rand_request(Some(8), None).unwrap(), RandRequest::Hex(8));
    assert_eq!(rand_request(None, Some(9)).unwrap(), RandRequest::Base64(9));
    assert_eq!(failure(rand_request(Some(0), None)), "protocol error: random hex byte length must be greater than 0");
    assert_eq!(failure(rand_request(None, Some(0))), "protocol error: random base64 byte length must be greater than 0");
    assert_eq!(
        failure(rand_request(None, None)),
        "protocol error: generate rand requires --hex <bytes> or --base64 <bytes>"
    );
    assert_eq!(
        failure(rand_request(Some(1), Some(1))),
        "protocol error: generate rand accepts either --hex or --base64"
    );
    let hex = random_hex(16);
    assert!(hex.len() == 32 && hex.chars().all(|c| c.is_ascii_digit() || ('a'..='f').contains(&c)));
    assert_ne!(hex, random_hex(16));
    let base64 = random_base64(32);
    assert!(base64.len() == 44 && base64.ends_with('='));
    assert_ne!(base64, random_base64(32));
}

#[test]
fn tags_are_made_of_plain_characters() {
    assert_eq!(normalize_tag_segment("  My Host_01! "), "my-host-01");
    assert_eq!(normalize_tag_segment("--é--"), "");
    assert_eq!(build_share_tag(Some("A"), Some("b"), "c", "anyreality"), "a-rust-anyreality");
    assert_eq!(build_share_tag(Some("  "), Some("b"), "c", "anyreality"), "b-rust-anyreality");
    assert_eq!(build_share_tag(None, None, "c.example", ""), "c-example-rust");
    assert_eq!(build_share_tag(Some("!"), None, "c", "x"), "rust-x");
    assert!(has_label(Some("a")) && !has_label(Some("\t")) && !has_label(None));
    assert_eq!(hostname_from_output(true, b"box\n".to_vec()), text("box"));
    assert_eq!(hostname_from_output(true, b" \n".to_vec()), None);
    assert_eq!(hostname_from_output(true, b"\xff".to_vec()), None);
    assert_eq!(hostname_from_output(false, b"box".to_vec()), None);
}

fn plan(up_mbps: Option<u64>, down_mbps: Option<u64>) -> RealityPlan {
    RealityPlan {
        listen: "0.0.0.0:443".to_string(),
        sni: "pypi.org".to_string(),
        dest: None,
        fingerprint: "chrome".to_string(),
        password: "pw".to_string(),
        private_key: "priv".to_string(),
        public_key: "pub".to_string(),
        short_id: None,
        up_mbps,
        down_mbps,
        cwnd_gain: 20,
    }
}

#[test]
fn settings_for_a_new_server() {
    let config = reality_server_config(&plan(None, None)).unwrap();
    assert_eq!((config.listen.as_str(), config.password.as_str(), config.security.as_str()), ("0.0.0.0:443", "pw", "reality"));
    assert!(config.padding_scheme.is_none() && config.tls.is_none());
    assert!(!config.tcp_brutal.enabled);
    assert_eq!(config.tcp_brutal.cwnd_gain, 15);
    let reality = config.reality.unwrap();
    assert_eq!((reality.dest.as_str(), reality.private_key.as_str(), reality.fingerprint.as_str()), ("pypi.org:443", "priv", "chrome"));
    assert_eq!(reality.server_names, vec!["pypi.org".to_string()]);
    assert_eq!(reality.short_ids, vec![String::new()]);
    assert_eq!(reality.public_key, text("pub"));
    let config = reality_server_config(&plan(Some(1), Some(2))).unwrap();
    let brutal = config.tcp_brutal.to_server_tcp_brutal().unwrap().unwrap();
    assert_eq!((brutal.rate, brutal.cwnd_gain), (250_000, 20));
    assert_eq!(
        failure(reality_server_config(&plan(Some(1), None))),
        "protocol error: reality-server-config requires both --up-mbps and --down-mbps when enabling tcp brutal"
    );
    assert!(choose_tcp_brutal(None, None, 1).unwrap().is_none());
}

#[test]
fn generated_values_are_listed() {
    assert_eq!(
        generated_values("s", 443, &plan(None, None)),
        "# Generated values\nserver: s\nport: 443\npassword: pw\nprivate_key: priv\npublic_key: pub\nshort_id: \n"
    );
    assert!(generated_values("s", 443, &plan(Some(7), Some(8)))
        .ends_with("short_id: \ntcp_brutal_up_mbps: 7\ntcp_brutal_down_mbps: 8\n"));
}

#[test]
fn clients_are_told_what_they_need() {
    let snippet = client_snippet("s", 443, &plan(Some(7), Some(8)));
    assert_eq!((snippet.server.as_str(), snippet.port, snippet.sni.as_str()), ("s", 443, "pypi.org"));
    assert_eq!((snippet.password.as_str(), snippet.public_key.as_str()), ("pw", "pub"));
    assert_eq!((snippet.fingerprint.as_str(), snippet.short_id.as_str()), ("chrome", ""));
    assert_eq!(snippet.brutal, Some((7, 8)));
    assert_eq!(client_snippet("s", 443, &plan(None, None)).brutal, None);
    assert_eq!(
        deployment_commands("listen: x\n"),
        "cat > anyreality.yaml <<'EOF'\nlisten: x\nEOF\n./anytls server --config anyreality.yaml\n"
    );
}

#[test]
fn send_rates_are_shown() {
    let line = |up, down| send_rate_line(&reality_server_config(&plan(up, down)).unwrap().tcp_brutal);
    assert_eq!(line(None, None).unwrap(), None);
    assert_eq!(line(Some(1), Some(2)).unwrap(), text("# tcp-brutal server send rate: 250000 bytes/s"));
    assert_eq!(failure(line(Some(1), Some(0))), "protocol error: tcp brutal mbps must be greater than 0");
}

#[test]
fn chosen_keys_belong_together() {
    let (private_key, public_key) = choose_keypair(None).unwrap();
    assert_eq!(public_key_from_private_key(&private_key).unwrap(), public_key);
    assert_eq!(choose_keypair(Some(private_key.clone())).unwrap(), (private_key, public_key));
    assert_eq!(failure(choose_keypair(text("AAAA"))), "protocol error: Reality privateKey must be 32 bytes, got 3");
}

#[test]
fn server_names_are_names_or_addresses() {
    for name in ["example.com", "Example.COM", "a_b.c", "1.2.3.4a", "7.example", "absolute."] {
        assert!(matches!(server_name(name), Ok(ServerName::Dns(given)) if given == name), "{name}");
    }
    for name in ["not a name", "1.2.3.4.", "1.2.3", "256.1.1.1", "01.2.3.4", ":::", "::1%1", "[::1]", "1:2:3:4:5:6:7:8::"] {
        assert_eq!(failure(server_name(name)), format!("invalid DNS name: {name}"));
    }
}

#[test]
fn addresses_are_no_names() {
    for (name, ip) in [("1.2.3.4", 0x0102_0304), ("0.0.0.0", 0), ("255.255.255.255", u32::MAX)] {
        assert!(matches!(server_name(name), Ok(ServerName::Ip(IpAddr::V4(given))) if given == ip), "{name}");
    }
    for (name, ip) in [
        ("::", 0),
        ("::1", 1),
        ("1:2:3:4:5:6:7:8", 0x0001_0002_0003_0004_0005_0006_0007_0008),
        ("1:2:3:4:5:6:7::", 0x0001_0002_0003_0004_0005_0006_0007_0000),
        ("::ffff:1.2.3.4", 0xffff_0102_0304),
        ("1:2:3:4:5:6:1.2.3.4", 0x0001_0002_0003_0004_0005_0006_0102_0304),
        ("FE80::0a", 0xfe80_0000_0000_0000_0000_0000_0000_000a),
    ] {
        assert!(matches!(server_name(name), Ok(ServerName::Ip(IpAddr::V6(given))) if given == ip), "{name}");
    }
    for name in ["", " \t", "\u{3000}"] {
        assert!(matches!(server_name(name), Ok(ServerName::Ip(IpAddr::V4(0x7f00_0001)))));
    }
}

#[test]
fn a_text_that_is_no_name_is_reported() {
    assert_eq!(failure(known_server_name("x y".to_string(), None)), "invalid DNS name: x y");
    let known = known_server_name("a".to_string(), Some(ServerName::Dns("b".to_string())));
    assert!(matches!(known, Ok(ServerName::Dns(given)) if given == "b"));
}

#[test]
fn the_link_of_a_new_server_holds_its_values() {
    let mut plan = plan(None, None);
    plan.password = "p@w".to_string();
    assert_eq!(
        reality_link("s.example", 8443, &plan, "tag"),
        "anytls://p%40w@s.example:8443/?security=reality&type=tcp&sni=pypi.org&fp=chrome&pbk=pub&network=tcp&sid=#tag"
    );
    plan.short_id = text("0a");
    assert!(reality_link("s.example", 8443, &plan, "tag").ends_with("&sid=0a#tag"));
}

#[test]
fn servers_authenticate_and_route() {
    let hash = password_hash("secret");
    let server = Server::new(hash, PaddingFactory::new(b"stop=2").unwrap());
    assert_eq!(server.padding().stop(), 2);
    let request = auth_request(&hash, &[5]);
    assert!(matches!(server.authenticate(&request), Ok(Progress::Done { consumed: 39, .. })));
    assert!(matches!(server.authenticate(&request[..38]), Ok(Progress::Need { total: 39 })));
    let other = auth_request(&password_hash("other"), &[5]);
    assert_eq!(failure(server.authenticate(&other)), "authentication failed");
    assert!(matches!(route(&request_destination()), Route::UdpOverTcp));
    match route(&SocksAddr::domain("example.com", 443)) {
        Route::Connect(to) => assert_eq!(to, "example.com:443"),
        _ => panic!("a connection is expected"),
    }
}
