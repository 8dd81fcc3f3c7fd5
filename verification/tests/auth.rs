use anytls::auth::{auth_request, build_auth_request, password_hash, read_and_verify_auth, PASSWORD_HASH_LEN};
use anytls::error::AnyTlsError;
use anytls::padding::PaddingFactory;
use anytls::wire::Progress;

#[test]
fn auth_request_is_hash_padding_length_and_padding() {
    let hash = password_hash("secret");
    let padding = PaddingFactory::new(b"stop=1\n0=3-3").unwrap();

    let request = build_auth_request(&hash, &padding);

    assert_eq!(request.len(), PASSWORD_HASH_LEN + 2 + 3);
    assert_eq!(&request[..PASSWORD_HASH_LEN], hash.as_slice());
    assert_eq!(&request[PASSWORD_HASH_LEN..PASSWORD_HASH_LEN + 2], &[0, 3]);
    assert_eq!(&request[PASSWORD_HASH_LEN + 2..], &[0, 0, 0]);
}

#[test]
fn auth_verification_rejects_wrong_password_hash() {
    let expected = password_hash("expected");
    let actual = password_hash("actual");
    let padding = PaddingFactory::new(b"stop=1\n0=0-0").unwrap();
    let request = build_auth_request(&actual, &padding);

    let err = read_and_verify_auth(&request, &expected).err().unwrap();

    assert!(matches!(err, AnyTlsError::AuthenticationFailed));
}

#[test]
fn password_hash_is_sha256() {
    assert_eq!(
        password_hash("abc"),
        [
            0xba, 0x78, 0x16, 0xbf, 0x8f, 0x01, 0xcf, 0xea, 0x41, 0x41, 0x40, 0xde, 0x5d, 0xae, 0x22, 0x23, 0xb0,
            0x03, 0x61, 0xa3, 0x96, 0x17, 0x7a, 0x9c, 0xb4, 0x10, 0xff, 0x61, 0xf2, 0x00, 0x15, 0xad,
        ]
    );
}

#[test]
fn right_password_is_read_to_the_end_of_its_padding() {
    let hash = password_hash("secret");
    let mut bytes = build_auth_request(&hash, &PaddingFactory::default_scheme());
    let request_len = bytes.len();
    assert_eq!(request_len, 34 + 30);
    for n in 0..request_len {
        match read_and_verify_auth(&bytes[..n], &hash).unwrap() {
            Progress::Need { total } => assert!(n < total && total <= request_len),
            Progress::Done { .. } => panic!("accepted after {n} bytes"),
        }
    }
    bytes.extend_from_slice(b"rest");
    match read_and_verify_auth(&bytes, &hash).unwrap() {
        Progress::Done { consumed, .. } => assert_eq!(consumed, request_len),
        Progress::Need { .. } => panic!("nothing is missing"),
    }
}

#[test]
fn request_without_padding_is_short() {
    let hash = [7u8; 32];
    assert_eq!(auth_request(&hash, &[]).len(), 34);
    assert_eq!(auth_request(&hash, &[-1, 5]).len(), 34);
    assert_eq!(&auth_request(&hash, &[258])[32..34], &[1, 2]);
    let long = auth_request(&hash, &[65_537]);
    assert_eq!(&long[32..34], &[0, 1]);
    assert_eq!(long.len(), 34 + 65_537);
}
