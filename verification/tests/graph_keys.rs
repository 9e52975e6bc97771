use graphshell::graph_keys::{
    recipient_for_root, root_for_recipient, session_identity_salt, storage_key,
};

fn id(b: u8) -> [u8; 32] {
    [b; 32]
}

#[test]
fn a_root_resolves_to_the_seat_its_latest_prekey_publishes() {
    let prekeys = vec![(id(1), id(0xA1)), (id(2), id(0xA2)), (id(1), id(0xB1))];
    assert_eq!(recipient_for_root(&prekeys, &id(1)), Some(id(0xB1)));
    assert_eq!(recipient_for_root(&prekeys, &id(2)), Some(id(0xA2)));
    assert_eq!(recipient_for_root(&prekeys, &id(3)), None);
}

#[test]
fn a_seat_resolves_back_to_its_root() {
    let prekeys = vec![(id(1), id(0xA1)), (id(2), id(0xA2))];
    assert_eq!(root_for_recipient(&prekeys, &id(0xA2)), Some(id(2)));
    assert_eq!(root_for_recipient(&prekeys, &id(0xFF)), None);
    assert_eq!(root_for_recipient(&Vec::new(), &id(0xA1)), None);
}

#[test]
fn the_session_storage_key_is_blake3_derived_from_the_seed() {
    let seed = [9u8; 32];
    let key = storage_key(&seed);
    assert_eq!(
        key,
        blake3::derive_key("graphshell.personal-graph.group-session.storage.v1", &seed)
    );
    assert_ne!(key, seed);
    let salt = session_identity_salt([7; 32]);
    let mut expected = b"graphshell.personal-graph.group-session/v1/".to_vec();
    expected.extend_from_slice(&[7; 32]);
    assert_eq!(salt, expected);
}
