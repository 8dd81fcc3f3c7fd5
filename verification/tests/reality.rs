use anytls::reality::cert::{
    generate_reality_cert, template_from, use_new_template, CertCache, CertTemplate, TemplateFailure, CACHE_CAPACITY,
};
use anytls::reality::hello_parser::{parse_client_hello, ClientHelloInfo};
use anytls::reality::server_rustls::{ended_early, short_id_matches, wants_more, Accept, RealityServerRustls};
use anytls::reality::{
    decode_private_key, default_fingerprint, generate_keypair, keypair_from, public_key_from_private_key, PrefixedStream,
    RealityConfig, RealityServer,
};
use aes_gcm::{AeadInPlace, KeyInit};
use x25519_dalek::{PublicKey, StaticSecret};

fn config() -> RealityConfig {
    RealityConfig {
        dest: "www.apple.com:443".to_string(),
        server_names: vec!["www.apple.com".to_string()],
        private_key: "QUFBQUFBQUFBQUFBQUFBQUFBQUFBQUFBQUFBQUFBQUE=".to_string(),
        public_key: None,
        short_ids: vec!["0123456789abcdef".to_string()],
        fingerprint: "chrome".to_string(),
    }
}

#[test]
fn reality_server_accepts_valid_config() {
    assert!(RealityServer::new(config()).is_ok());
}

#[test]
fn generated_keypair_round_trips_public_key_derivation() {
    let (private_key, public_key) = generate_keypair();
    assert_eq!(
        public_key_from_private_key(&private_key).unwrap(),
        public_key
    );
}

#[test]
fn empty_short_id_matches_empty_sid_clients() {
    assert!(short_id_matches(&[0_u8; 16], &[Vec::new()]));
    assert!(short_id_matches(&[0_u8; 16], &[]));
}

#[test]
fn configured_short_id_matches_supported_offsets() {
    let mut buf = [0_u8; 16];
    buf[8..16].copy_from_slice(&[1, 2, 3, 4, 5, 6, 7, 8]);
    assert!(short_id_matches(&buf, &[vec![1, 2, 3, 4, 5, 6, 7, 8]]));
}

#[test]
fn other_short_ids_do_not_match() {
    let mut buf = [0_u8; 16];
    buf[4..12].copy_from_slice(&[1, 2, 3, 4, 5, 6, 7, 8]);
    assert!(short_id_matches(&buf, &[vec![9; 8], vec![1, 2, 3, 4, 5, 6, 7, 8]]));
    assert!(!short_id_matches(&buf, &[vec![9; 8]]));
    assert!(!short_id_matches(&buf, &[vec![1, 2, 3, 4]]));
}

#[test]
fn keys_are_derived() {
    let (private_key, public_key) = keypair_from([
        0x77, 0x07, 0x6d, 0x0a, 0x73, 0x18, 0xa5, 0x7d, 0x3c, 0x16, 0xc1, 0x72, 0x51, 0xb2, 0x66, 0x45, 0xdf, 0x4c, 0x2f,
        0x87, 0xeb, 0xc0, 0x99, 0x2a, 0xb1, 0x77, 0xfb, 0xa5, 0x1d, 0xb9, 0x2c, 0x2a,
    ]);
    assert_eq!(private_key, "dwdtCnMYpX08FsFyUbJmRd9ML4frwJkqsXf7pR25LCo");
    assert_eq!(public_key, "hSDwCYkwp1R0i33ctD73Wg2_Og0mOBr066SpjqqbTmo");
    assert_eq!(public_key_from_private_key(&private_key).unwrap(), public_key);
}

#[test]
fn private_keys_are_base64_of_either_kind() {
    assert_eq!(decode_private_key(&config().private_key).unwrap(), *b"AAAAAAAAAAAAAAAAAAAAAAAAAAAAAAAA");
    let (private_key, _) = keypair_from([255; 32]);
    assert_eq!(private_key, "__________________________________________8");
    assert_eq!(decode_private_key(&private_key).unwrap(), [255; 32]);
    assert_eq!(
        decode_private_key("QUFB").unwrap_err().message,
        "Reality privateKey must be 32 bytes, got 3"
    );
    assert!(decode_private_key("!").unwrap_err().message.starts_with("failed to decode Reality private key: "));
}

#[test]
fn bad_settings_are_refused() {
    let refused = |config: RealityConfig| match RealityServer::new(config) {
        Ok(_) => panic!("a refusal is expected"),
        Err(err) => err.message,
    };
    assert_eq!(refused(RealityConfig { dest: String::new(), ..config() }), "Reality dest cannot be empty");
    assert_eq!(refused(RealityConfig { private_key: String::new(), ..config() }), "Reality privateKey cannot be empty");
    assert_eq!(
        refused(RealityConfig { private_key: "QUFB".to_string(), ..config() }),
        "Reality privateKey must be 32 bytes, got 3"
    );
    assert_eq!(
        refused(RealityConfig { short_ids: vec!["01".to_string(), "0".to_string()], ..config() }),
        "invalid shortId hex: Odd number of digits"
    );
    assert_eq!(
        refused(RealityConfig { short_ids: vec!["zz".to_string()], ..config() }),
        "invalid shortId hex: Invalid character 'z' at position 0"
    );
    assert_eq!(default_fingerprint(), "chrome");
    assert_eq!(RealityServer::new(config()).unwrap().inner().dest_host(), "www.apple.com");
}

/// A TLS client's first record.
fn client_hello(session_id: &[u8], random: &[u8; 32], key: Option<&[u8; 32]>, name: Option<&str>) -> Vec<u8> {
    let mut extensions = Vec::new();
    if let Some(name) = name {
        let mut list = vec![0];
        list.extend_from_slice(&(name.len() as u16).to_be_bytes());
        list.extend_from_slice(name.as_bytes());
        extensions.extend_from_slice(&[0, 0]);
        extensions.extend_from_slice(&(list.len() as u16 + 2).to_be_bytes());
        extensions.extend_from_slice(&(list.len() as u16).to_be_bytes());
        extensions.extend_from_slice(&list);
    }
    extensions.extend_from_slice(&[0, 43, 0, 3, 2, 3, 4]);
    if let Some(key) = key {
        extensions.extend_from_slice(&[0, 0x33, 0, 38 + 5, 0, 36 + 5, 0x0a, 0x0a, 0, 1, 0, 0, 0x1d, 0, 32]);
        extensions.extend_from_slice(key);
    }
    let mut body = vec![3, 3];
    body.extend_from_slice(random);
    body.push(session_id.len() as u8);
    body.extend_from_slice(session_id);
    body.extend_from_slice(&[0, 2, 0x13, 1, 1, 0]);
    body.extend_from_slice(&(extensions.len() as u16).to_be_bytes());
    body.extend_from_slice(&extensions);
    let mut record = vec![0x16, 3, 1];
    record.extend_from_slice(&(body.len() as u16 + 4).to_be_bytes());
    record.push(1);
    record.extend_from_slice(&(body.len() as u32).to_be_bytes()[1..]);
    record.extend_from_slice(&body);
    record
}

#[test]
fn hellos_are_read() {
    let record = client_hello(&[7; 32], &[9; 32], Some(&[5; 32]), Some("www.apple.com"));
    let info = parse_client_hello(&record).unwrap().unwrap();
    assert_eq!((info.session_id, info.client_random), (vec![7; 32], [9; 32]));
    assert_eq!(info.public_key, Some(vec![5; 32]));
    assert_eq!(info.server_name.as_deref(), Some("www.apple.com"));
    let info = parse_client_hello(&client_hello(&[], &[9; 32], None, None)).unwrap().unwrap();
    assert!(info.session_id.is_empty() && info.public_key.is_none() && info.server_name.is_none());
}

#[test]
fn hellos_that_are_cut_short() {
    let record = client_hello(&[7; 32], &[9; 32], Some(&[5; 32]), Some("www.apple.com"));
    assert!(parse_client_hello(&record[..record.len() - 1]).unwrap().is_none());
    assert!(parse_client_hello(b"GET / HTTP/1.1").unwrap().is_none());
    assert!(parse_client_hello(&[0x16, 3, 1, 0, 4, 2, 0, 0, 0]).unwrap().is_none());
    let cut = |n: usize| {
        let mut part = record[..5 + n].to_vec();
        part[3..5].copy_from_slice(&(n as u16).to_be_bytes());
        match parse_client_hello(&part) {
            Ok(info) => {
                assert!(info.is_some());
                String::new()
            }
            Err(err) => err.message,
        }
    };
    assert_eq!(cut(3), "short handshake buffer");
    assert_eq!(cut(37), "short client hello body");
    assert_eq!(cut(38), "missing session id length");
    assert_eq!(cut(70), "short session id");
    assert_eq!(cut(71), "missing cipher suites length");
    assert_eq!(cut(74), "short cipher suites");
    assert_eq!(cut(75), "missing compression methods length");
    assert_eq!(cut(76), "short compression methods");
    assert_eq!(cut(78), "");
    assert_eq!(cut(79), "short extensions");
}

/// The hello of a client that knows the server's public key and a short identifier.
fn reality_hello(server_public: [u8; 32], short_id: [u8; 8], name: &str) -> (Vec<u8>, [u8; 32]) {
    let random = [3; 32];
    let secret = StaticSecret::from([42; 32]);
    let key = PublicKey::from(&secret);
    let shared = secret.diffie_hellman(&PublicKey::from(server_public));
    let mut auth_key = [0; 32];
    hkdf::Hkdf::<sha2::Sha256>::new(Some(&random[..20]), shared.as_bytes())
        .expand(b"REALITY", &mut auth_key)
        .unwrap();
    let blank = client_hello(&[0; 32], &random, Some(key.as_bytes()), Some(name));
    let mut sealed = vec![0; 16];
    sealed[8..].copy_from_slice(&short_id);
    aes_gcm::Aes256Gcm::new((&auth_key).into())
        .encrypt_in_place((&random[20..]).into(), &blank[5..], &mut sealed)
        .unwrap();
    (client_hello(&sealed, &random, Some(key.as_bytes()), Some(name)), auth_key)
}

fn server() -> (RealityServerRustls, [u8; 32]) {
    let private_key = [77; 32];
    let server = RealityServerRustls::new(
        private_key,
        Some("www.apple.com:443".to_string()),
        vec!["0123456789abcdef".to_string()],
        vec!["www.apple.com".to_string()],
    )
    .unwrap();
    (server, *PublicKey::from(&StaticSecret::from(private_key)).as_bytes())
}

const SHORT_ID: [u8; 8] = [1, 0x23, 0x45, 0x67, 0x89, 0xab, 0xcd, 0xef];

#[test]
fn known_clients_are_let_in() {
    let (server, public_key) = server();
    let (hello, auth_key) = reality_hello(public_key, SHORT_ID, "www.apple.com");
    match server.decide(&hello) {
        Accept::Handshake { auth_key: key, host } => assert_eq!((key, host.as_str()), (auth_key, "www.apple.com")),
        Accept::Fallback { .. } => panic!("the client is known"),
    }
}

#[test]
fn strangers_are_passed_on() {
    let (server, public_key) = server();
    let mut hellos = vec![
        reality_hello(public_key, [9; 8], "www.apple.com").0,
        reality_hello(public_key, SHORT_ID, "other.example").0,
        reality_hello([8; 32], SHORT_ID, "www.apple.com").0,
        client_hello(&[7; 32], &[9; 32], Some(&[5; 32]), Some("www.apple.com")),
        client_hello(&[7; 31], &[9; 32], Some(&[5; 32]), Some("www.apple.com")),
        client_hello(&[7; 32], &[9; 32], None, Some("www.apple.com")),
        b"GET / HTTP/1.1\r\n\r\n".to_vec(),
        Vec::new(),
    ];
    let mut changed = reality_hello(public_key, SHORT_ID, "www.apple.com").0;
    let last = changed.len() - 1;
    changed[80] ^= 1;
    hellos.push(changed.clone());
    hellos.push(changed[..last].to_vec());
    for hello in hellos {
        match server.decide(&hello) {
            Accept::Fallback { dest } => assert_eq!(dest, "www.apple.com:443"),
            Accept::Handshake { .. } => panic!("the client is a stranger"),
        }
    }
}

#[test]
fn any_name_and_identifier_where_none_is_listed() {
    let private_key = [77; 32];
    let server = RealityServerRustls::new(private_key, None, Vec::new(), Vec::new()).unwrap();
    let public_key = *PublicKey::from(&StaticSecret::from(private_key)).as_bytes();
    match server.decide(&reality_hello(public_key, [9; 8], "any.example").0) {
        Accept::Handshake { host, .. } => assert_eq!(host, "www.microsoft.com"),
        Accept::Fallback { .. } => panic!("any client is let in"),
    }
    assert_eq!(server.dest(), "www.microsoft.com:443");
    assert!(server.allows_name(&None));
}

#[test]
fn the_first_record_is_read_whole() {
    assert!(wants_more(&[0x16, 3, 1, 0]));
    assert!(wants_more(&[0x16, 3, 1, 0, 2, 1]));
    assert!(!wants_more(&[0x16, 3, 1, 0, 2, 1, 0]));
    assert!(!wants_more(b"GET /"));
    assert!(ended_early(&[]));
    assert!(ended_early(&[0x16, 3, 1, 0]));
    assert!(!ended_early(&[0x16, 3, 1, 0, 2]));
    let mut long = vec![0x16, 3, 1, 0xff, 0xff];
    long.resize(16383, 0);
    assert!(wants_more(&long));
    long.push(0);
    assert!(!wants_more(&long));
}

#[test]
fn a_hello_without_a_key_is_not_looked_into() {
    let server = RealityServer::new(config()).unwrap();
    for (session_id, public_key) in [(vec![0; 31], Some(vec![0; 32])), (vec![0; 32], None), (vec![0; 32], Some(vec![0; 31]))] {
        let info = ClientHelloInfo { session_id, client_random: [0; 32], public_key, server_name: None };
        assert_eq!(server.inner().verify_client_reality(&info, &[]), None);
    }
}

#[test]
fn prefixes_come_before_the_transport() {
    let mut stream = PrefixedStream::new(b"hello".to_vec(), 7);
    assert_eq!(stream.read_prefix(2).unwrap(), b"he");
    assert_eq!(stream.read_prefix(9).unwrap(), b"llo");
    assert_eq!(stream.read_prefix(9), None);
    *stream.inner_mut() += 1;
    assert_eq!(*stream.inner_mut(), 8);
}

#[test]
fn certificates_carry_a_tag_over_their_key() {
    let template = CertTemplate { cert_der: vec![1; 70], private_key_der: vec![2; 3], public_key_raw: vec![3; 32] };
    let (cert, key) = template.sign(&[4; 32]).unwrap();
    let tag = ring::hmac::sign(&ring::hmac::Key::new(ring::hmac::HMAC_SHA512, &[4; 32]), &[3; 32]);
    assert_eq!((&cert[..6], &cert[6..], key), (&[1_u8; 6][..], tag.as_ref(), vec![2; 3]));
    let short = CertTemplate { cert_der: vec![1; 63], private_key_der: vec![], public_key_raw: vec![] };
    assert_eq!(short.sign(&[4; 32]).unwrap_err().message, "certificate DER too short");
}

#[test]
fn templates_that_cannot_be_made_are_not_kept() {
    let mut cache = CertCache::new();
    let mut fail = |failure| use_new_template(&mut cache, &[4; 32], "h", Err(failure)).unwrap_err().message;
    assert_eq!(fail(TemplateFailure::Key("x".to_string())), "key generation failed: x");
    assert_eq!(fail(TemplateFailure::Params("x".to_string())), "certificate generation failed: x");
    assert_eq!(fail(TemplateFailure::Signing("x".to_string())), "certificate serialization failed: x");
    assert!(cache.find("h").is_none());
    assert_eq!(
        generate_reality_cert(&mut cache, &[4; 32], "h\u{e9}").unwrap_err().message,
        "certificate generation failed: Invalid IA5String: 'h\u{e9}'"
    );
    assert!(cache.find("h\u{e9}").is_none());
    let made = CertTemplate { cert_der: vec![1; 64], private_key_der: vec![2], public_key_raw: vec![3] };
    let (cert, key) = use_new_template(&mut cache, &[4; 32], "h", Ok(made)).unwrap();
    assert_eq!((cert.len(), key), (64, vec![2]));
    assert_eq!(cache.find("h").unwrap().cert_der, vec![1; 64]);
}

#[test]
fn templates_are_put_together() {
    let from = |certificate| template_from(vec![1], vec![2], certificate);
    match from(Ok(Ok(vec![3]))) {
        Ok(made) => assert_eq!((made.cert_der, made.private_key_der, made.public_key_raw), (vec![3], vec![1], vec![2])),
        Err(_) => panic!("there is a certificate"),
    }
    assert!(matches!(from(Ok(Err("x".to_string()))), Err(TemplateFailure::Signing(text)) if text == "x"));
    assert!(matches!(from(Err("x".to_string())), Err(TemplateFailure::Params(text)) if text == "x"));
}

#[test]
fn a_template_goes_by_its_host_and_key() {
    for host in ["www.apple.com", "127.0.0.1", "::1", "", "a b"] {
        let mut cache = CertCache::new();
        generate_reality_cert(&mut cache, &[4; 32], host).unwrap();
        let made = cache.find(host).unwrap();
        let der = rustls_pki_types::PrivatePkcs8KeyDer::from(&made.private_key_der[..]);
        let key = rcgen::KeyPair::from_pkcs8_der_and_sign_algo(&der, &rcgen::PKCS_ED25519).unwrap();
        assert_eq!(key.public_key_raw(), &made.public_key_raw[..]);
        assert_eq!(key.serialize_der(), made.private_key_der);
        let params = rcgen::CertificateParams::new(vec![host.to_string()]).unwrap();
        let cert = params.self_signed(&key).unwrap();
        assert_eq!(&cert.der()[..], &made.cert_der[..]);
        assert!(made.cert_der.len() > 64);
    }
}

#[test]
fn a_host_keeps_its_certificate() {
    let mut cache = CertCache::new();
    let (cert, key) = generate_reality_cert(&mut cache, &[1; 32], "www.apple.com").unwrap();
    let (again, same_key) = generate_reality_cert(&mut cache, &[2; 32], "www.apple.com").unwrap();
    let end = cert.len() - 64;
    assert_eq!((&cert[..end], &key), (&again[..end], &same_key));
    assert_ne!(cert[end..], again[end..]);
    let (other, _) = generate_reality_cert(&mut cache, &[1; 32], "www.example.com").unwrap();
    assert_ne!(cert, other);
    assert!(cache.find("www.apple.com").unwrap().cert_der.len() == cert.len());
    let text = |bytes: &[u8]| bytes.windows(13).any(|part| part == b"www.apple.com");
    assert!(text(&cert) && !text(&other));
}

#[test]
fn the_template_that_was_used_longest_ago_makes_way() {
    let template = |n: u8| CertTemplate { cert_der: vec![n], private_key_der: vec![], public_key_raw: vec![] };
    let mut cache = CertCache::new();
    for n in 0..CACHE_CAPACITY {
        cache.store(&format!("host{n}"), template(n as u8));
    }
    assert_eq!(cache.find("host0").unwrap().cert_der, vec![0]);
    cache.store("new", template(200));
    assert!(cache.find("host1").is_none());
    assert_eq!(cache.find("host0").unwrap().cert_der, vec![0]);
    cache.store("host0", template(201));
    assert_eq!(cache.find("host0").unwrap().cert_der, vec![201]);
    assert_eq!(cache.find("host2").unwrap().cert_der, vec![2]);
}
