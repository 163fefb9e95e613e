use relay_server::pairing::{admitted, Arrival, Handshake, PairingTable};

fn request(uuid: &str, licence: &str) -> Handshake {
    Handshake::RequestRelay { uuid: uuid.to_string(), licence_key: licence.to_string() }
}

#[test]
fn second_arrival_pairs_with_first() {
    let mut t: PairingTable<u32> = PairingTable::new();
    let token = String::new();
    assert!(matches!(t.arrive(&token, &request("s1", ""), 1), Arrival::Waiting(_)));
    assert_eq!(t.len(), 1);
    assert!(matches!(t.arrive(&token, &request("s1", ""), 2), Arrival::Paired(2, 1)));
    assert_eq!(t.len(), 0);
}

#[test]
fn consumed_pair_does_not_serve_third_arrival() {
    let mut t: PairingTable<u32> = PairingTable::new();
    let token = String::new();
    t.arrive(&token, &request("s", ""), 1);
    t.arrive(&token, &request("s", ""), 2);
    assert!(matches!(t.arrive(&token, &request("s", ""), 3), Arrival::Waiting(_)));
    assert!(matches!(t.arrive(&token, &request("s", ""), 4), Arrival::Paired(4, 3)));
}

#[test]
fn expired_wait_frees_session() {
    let mut t: PairingTable<u32> = PairingTable::new();
    let token = String::new();
    let id = "late".to_string();
    let ticket = match t.arrive(&token, &request("late", ""), 1) {
        Arrival::Waiting(k) => k,
        _ => panic!("first arrival did not wait"),
    };
    assert_eq!(t.expire(&id, ticket), Some(1));
    assert_eq!(t.expire(&id, ticket), None);
    assert_eq!(t.len(), 0);
    assert!(matches!(t.arrive(&token, &request("late", ""), 2), Arrival::Waiting(_)));
}

#[test]
fn expiry_after_pairing_is_noop() {
    let mut t: PairingTable<u32> = PairingTable::new();
    let token = String::new();
    let first = match t.arrive(&token, &request("x", ""), 1) {
        Arrival::Waiting(k) => k,
        _ => panic!("first arrival did not wait"),
    };
    t.arrive(&token, &request("y", ""), 5);
    t.arrive(&token, &request("x", ""), 2);
    assert_eq!(t.expire(&"x".to_string(), first), None);
    assert_eq!(t.len(), 1);
}

#[test]
fn stale_expiry_keeps_newer_waiter() {
    let mut t: PairingTable<u32> = PairingTable::new();
    let token = String::new();
    let id = "s".to_string();
    let first = match t.arrive(&token, &request("s", ""), 1) {
        Arrival::Waiting(k) => k,
        _ => panic!("first arrival did not wait"),
    };
    assert!(matches!(t.arrive(&token, &request("s", ""), 2), Arrival::Paired(2, 1)));
    let third = match t.arrive(&token, &request("s", ""), 3) {
        Arrival::Waiting(k) => k,
        _ => panic!("third arrival did not wait"),
    };
    assert_ne!(first, third);
    assert_eq!(t.expire(&id, first), None);
    assert_eq!(t.len(), 1);
    assert!(matches!(t.arrive(&token, &request("s", ""), 4), Arrival::Paired(4, 3)));
    assert_eq!(t.expire(&id, third), None);
}

#[test]
fn tickets_are_issued_in_order() {
    let mut t: PairingTable<u32> = PairingTable::new();
    let token = String::new();
    assert_eq!(t.next_ticket(), 0);
    assert!(matches!(t.arrive(&token, &request("a", ""), 1), Arrival::Waiting(0)));
    assert!(matches!(t.arrive(&token, &request("b", ""), 2), Arrival::Waiting(1)));
    assert!(matches!(t.arrive(&token, &request("a", ""), 3), Arrival::Paired(3, 1)));
    assert!(matches!(t.arrive(&token, &Handshake::Other, 4), Arrival::Rejected(4)));
    assert_eq!(t.next_ticket(), 2);
}

#[test]
fn wrong_licence_is_rejected_and_not_stored() {
    let mut t: PairingTable<u32> = PairingTable::new();
    let token = "secret".to_string();
    assert!(matches!(t.arrive(&token, &request("s", "wrong"), 1), Arrival::Rejected(1)));
    assert_eq!(t.len(), 0);
    assert!(matches!(t.arrive(&token, &request("s", "secret"), 2), Arrival::Waiting(_)));
    assert!(matches!(t.arrive(&token, &request("s", ""), 3), Arrival::Rejected(3)));
    assert!(matches!(t.arrive(&token, &request("s", "secret"), 4), Arrival::Paired(4, 2)));
}

#[test]
fn empty_uuid_and_other_messages_are_rejected() {
    let mut t: PairingTable<u32> = PairingTable::new();
    let token = String::new();
    assert!(matches!(t.arrive(&token, &request("", ""), 1), Arrival::Rejected(1)));
    assert!(matches!(t.arrive(&token, &Handshake::Other, 2), Arrival::Rejected(2)));
    assert_eq!(t.len(), 0);
}

#[test]
fn admitted_session_ids() {
    let empty = String::new();
    let key = "k".to_string();
    assert_eq!(admitted(&empty, &request("a", "anything")), Some("a".to_string()));
    assert_eq!(admitted(&key, &request("a", "k")), Some("a".to_string()));
    assert_eq!(admitted(&key, &request("a", "K")), None);
    assert_eq!(admitted(&key, &request("", "k")), None);
    assert_eq!(admitted(&key, &Handshake::Other), None);
}

#[test]
fn distinct_sessions_do_not_cross() {
    let mut t: PairingTable<u32> = PairingTable::new();
    let token = String::new();
    let n: u32 = 50;
    for i in 0..n {
        assert!(matches!(t.arrive(&token, &request(&format!("s{}", i), ""), i), Arrival::Waiting(_)));
    }
    assert_eq!(t.len(), n as usize);
    for i in (0..n).rev() {
        match t.arrive(&token, &request(&format!("s{}", i), ""), 1000 + i) {
            Arrival::Paired(a, b) => {
                assert_eq!(a, 1000 + i);
                assert_eq!(b, i);
            }
            _ => panic!("session s{} was not paired", i),
        }
    }
    assert_eq!(t.len(), 0);
}
