use anytls::auth::password_hash;
use anytls::client::{Client, IDLE_SESSION_TIMEOUT_MS};
use anytls::padding::PaddingFactory;

#[test]
fn client_reuses_latest_idle_session() {
    let mut client = Client::new(password_hash("secret"), 0);

    assert_eq!(client.take_idle_session(&[]), None);
    let first = client.register_session();
    client.release_session(first, false, 10, &[]);

    assert_eq!(client.take_idle_session(&[]), Some(first));
    client.release_session(first, false, 20, &[]);

    assert_eq!(client.session_count(), 1);
    assert_eq!(client.idle_count(), 1);

    assert_eq!(client.close(), vec![first]);
}

#[test]
fn client_close_closes_tracked_active_sessions() {
    let mut client = Client::new(password_hash("secret"), 0);
    let seq = client.register_session();

    assert_eq!(client.session_count(), 1);
    assert_eq!(client.close(), vec![seq]);
    assert_eq!(client.session_count(), 0);
    assert!(client.is_closed());
}

#[test]
fn the_latest_open_session_comes_first() {
    let mut client = Client::new([0; 32], 0);
    for _ in 0..4 {
        client.register_session();
    }
    for seq in [2, 4, 1, 3] {
        client.release_session(seq, false, 0, &[]);
    }
    assert_eq!(client.take_idle_session(&[4]), Some(3));
    assert_eq!(client.take_idle_session(&[4]), Some(2));
    assert_eq!(client.idle_count(), 1);
    assert_eq!(client.take_idle_session(&[1]), None);
    assert_eq!(client.idle_count(), 0);
    assert_eq!(client.session_counter(), 4);
}

#[test]
fn closed_sessions_are_not_taken_back() {
    let mut client = Client::new([0; 32], 0);
    let seq = client.register_session();
    assert!(client.release_session(seq, true, 0, &[]).is_empty());
    assert_eq!(client.idle_count(), 0);
    client.release_session(seq, false, 0, &[]);
    client.session_ended(seq);
    assert_eq!((client.idle_count(), client.session_count()), (0, 0));
}

#[test]
fn idle_sessions_expire_but_for_the_least_number() {
    let filled = |min_idle| {
        let mut client = Client::new([0; 32], min_idle);
        for now in 0..5 {
            let seq = client.register_session();
            client.release_session(seq, false, now, &[]);
        }
        client
    };
    let mut client = filled(0);
    assert!(client.cleanup_idle_sessions(IDLE_SESSION_TIMEOUT_MS, &[]).is_empty());
    assert_eq!(client.cleanup_idle_sessions(IDLE_SESSION_TIMEOUT_MS + 2, &[]), vec![2, 1]);
    assert_eq!(client.cleanup_idle_sessions(u64::MAX, &[4]), vec![5, 3]);
    assert_eq!(client.idle_count(), 0);

    let mut client = filled(2);
    assert_eq!(client.cleanup_idle_sessions(100_000, &[5]), vec![2, 1]);
    assert_eq!(client.idle_count(), 2);
    assert!(client.cleanup_idle_sessions(100_000 + IDLE_SESSION_TIMEOUT_MS, &[]).is_empty());
    assert_eq!(client.take_idle_session(&[]), Some(4));
    assert_eq!(client.take_idle_session(&[]), Some(3));
}

#[test]
fn every_session_is_closed_once() {
    let mut client = Client::new([0; 32], 0);
    for _ in 0..4 {
        client.register_session();
    }
    client.release_session(3, false, 0, &[]);
    client.release_session(1, false, 0, &[]);
    assert_eq!(client.close(), vec![1, 3, 2, 4]);
    assert!(client.close().is_empty());
}

#[test]
fn new_sessions_authenticate_with_the_scheme_in_force() {
    let hash = password_hash("secret");
    let mut client = Client::new(hash, 0);
    assert_eq!(client.padding().md5(), PaddingFactory::default_scheme().md5());
    assert_eq!(client.auth_request().len(), 34 + 30);
    client.update_padding(PaddingFactory::new(b"stop=1\n0=4-4").unwrap());
    let request = client.auth_request();
    assert_eq!(&request[..32], &hash);
    assert_eq!(&request[32..], &[0, 4, 0, 0, 0, 0]);
}
