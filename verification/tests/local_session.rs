use graphshell::carriage_host::carriage_identity_salt;
use graphshell::local_session::{grant_window, local_network, local_root};

fn domain_hash(domain: &[u8], subject: &[u8; 32]) -> [u8; 32] {
    let mut hasher = blake3::Hasher::new();
    hasher.update(domain);
    hasher.update(subject);
    *hasher.finalize().as_bytes()
}

#[test]
fn the_local_network_and_root_are_domain_separated_hashes_of_the_subject() {
    let subject = [0x5C; 32];
    let network = local_network(subject);
    let root = local_root(subject);
    assert_eq!(network, domain_hash(b"mere.graphshell/local-browser-network/v1", &subject));
    assert_eq!(root, domain_hash(b"mere.graphshell/local-browser-root/v1", &subject));
    assert_ne!(network, root);
    assert_ne!(network, subject);
    assert_ne!(local_network([0x5D; 32]), network);
}

#[test]
fn a_grant_starts_a_little_early_and_ends_with_the_session() {
    assert_eq!(grant_window(1_000_000, 60_000), (995_000, 1_060_000));
    assert_eq!(grant_window(3_000, 10), (0, 3_010));
    assert_eq!(grant_window(u64::MAX - 5, 100), (u64::MAX - 5_005, u64::MAX));
}

#[test]
fn the_carriage_writer_salt_names_its_lane_and_graph() {
    let mut expected = b"graphshell.carriage.writer.v1/".to_vec();
    expected.extend_from_slice(&[3; 32]);
    assert_eq!(carriage_identity_salt([3; 32]), expected);
}
