use anytls::uri::{apply_anytls_url, build_anytls_uri, parse_anytls_url, percent_decode, percent_encode, LinkFields, UrlParts};

fn target(server: &str) -> Result<(String, String, String), String> {
    let mut server = server.to_string();
    let mut sni = "old.example".to_string();
    let mut password = "old".to_string();
    match parse_anytls_url(&mut server, &mut sni, &mut password) {
        Ok(()) => Ok((server, sni, password)),
        Err(err) => Err(err.message()),
    }
}

fn named(server: &str, sni: &str, password: &str) -> (String, String, String) {
    (server.to_string(), sni.to_string(), password.to_string())
}

fn chars(text: &str) -> Vec<char> {
    text.chars().collect()
}

#[test]
fn documented_links_are_read() {
    assert_eq!(
        target("anytls://letmein@example.com/?sni=real.example.com").unwrap(),
        named("example.com:443", "real.example.com", "letmein")
    );
    assert_eq!(
        target("anytls://letmein@example.com/?sni=127.0.0.1&insecure=1").unwrap(),
        named("example.com:443", "127.0.0.1", "letmein")
    );
    assert_eq!(
        target("anytls://0fdf77d7-d4ba-455e-9ed9-a98dd6d5489a@[2409:8a71:6a00:1953::615]:8964/?insecure=1").unwrap(),
        named("[2409:8a71:6a00:1953::615]:8964", "old.example", "0fdf77d7-d4ba-455e-9ed9-a98dd6d5489a")
    );
    assert_eq!(
        target("anytls://letmein@example.com:443/?security=reality&sni=pypi.org&pbk=CHANGE_ME_PUBLIC_KEY&sid=&fp=firefox")
            .unwrap(),
        named("example.com:443", "pypi.org", "letmein")
    );
}

#[test]
fn other_servers_stay() {
    for server in ["example.com:443", "1.2.3.4:8443", "https://letmein@example.com/?sni=x", ""] {
        assert_eq!(target(server).unwrap(), named(server, "old.example", "old"));
    }
    assert_eq!(target("anytls://example.com").unwrap(), named("example.com:443", "old.example", "old"));
    assert_eq!(target("anytls:example").unwrap_err(), "protocol error: anytls URL is missing host");
}

#[test]
fn the_first_sni_counts() {
    assert_eq!(
        target("anytls://p@h:1/?a=b&sni=one&sni=two").unwrap(),
        named("h:1", "one", "p")
    );
    assert_eq!(target("anytls://p@h:1/?sni=a%20b").unwrap().1, "a b");
}

#[test]
fn parts_are_applied() {
    let url = UrlParts {
        scheme: "anytls".to_string(),
        host: Some("h".to_string()),
        port: None,
        known_port: None,
        username: "a%2Fb%zz%".to_string(),
        path: String::new(),
        query: None,
        pairs: vec![("sni".to_string(), "s".to_string())],
    };
    let (mut server, mut sni, mut password) = named("x", "y", "z");
    apply_anytls_url(&url, &mut server, &mut sni, &mut password).unwrap();
    assert_eq!((server, sni, password), named("h:443", "s", "a/b%zz%"));
}

#[test]
fn passwords_survive_links() {
    for password in ["letmein", "a/b?c#d@e:f", "q+w=&%41", "пароль 密码", "[]|\\^`{}\"<>"] {
        let link = build_anytls_uri(LinkFields {
            password,
            server: "example.com",
            port: 8443,
            security: "reality",
            sni: "pypi.org",
            fingerprint: "chrome",
            public_key: Some("KEY"),
            short_id: Some("01"),
            tag: "tag",
        });
        assert_eq!(target(&link).unwrap(), named("example.com:8443", "pypi.org", password));
    }
}

#[test]
fn links_are_written_as_documented() {
    let fields = |security, public_key, short_id| LinkFields {
        password: "p/w",
        server: "s",
        port: 443,
        security,
        sni: "n",
        fingerprint: "f",
        public_key,
        short_id,
        tag: "t",
    };
    assert_eq!(
        build_anytls_uri(fields("reality", Some("k"), Some(""))),
        "anytls://p%2Fw@s:443/?security=reality&type=tcp&sni=n&fp=f&pbk=k&network=tcp&sid=#t"
    );
    assert_eq!(
        build_anytls_uri(fields("reality", None, None)),
        "anytls://p%2Fw@s:443/?security=reality&type=tcp&sni=n&fp=f&network=tcp#t"
    );
    assert_eq!(
        build_anytls_uri(fields("tls", Some("k"), Some("id"))),
        "anytls://p%2Fw@s:443/?security=tls&type=tcp&sni=n&fp=f#t"
    );
}

#[test]
fn percent_encoding_is_undone() {
    let all: Vec<u8> = (0..=255).collect();
    let text = percent_encode(&all);
    assert_eq!(percent_decode(&chars(&text)), all);
    assert_eq!(percent_encode(b"a-Z_0.~!$&'()*+,;="), "a-Z_0.~!$&'()*+,;=");
    assert_eq!(percent_encode(b"%@:/ \xff"), "%25%40%3A%2F%20%FF");
    assert_eq!(percent_decode(&chars("%4a%4Jx%")), b"J%4Jx%");
    assert_eq!(percent_decode(&chars("é")), "é".as_bytes());
}
