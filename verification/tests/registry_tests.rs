use prime_ledger::registry::{node_to_prime, prime_to_node};

#[test]
fn primes_map_to_their_home_nodes() {
    let table: [(u32, u8); 8] =
        [(2, 0), (3, 1), (5, 2), (7, 3), (11, 4), (13, 5), (17, 6), (19, 7)];
    for (p, n) in table {
        assert_eq!(prime_to_node(p), Some(n));
        assert_eq!(node_to_prime(n), Some(p));
    }
}

#[test]
fn values_outside_the_table_map_to_nothing() {
    for p in [0u32, 1, 4, 6, 9, 23, u32::MAX] {
        assert_eq!(prime_to_node(p), None);
    }
    for n in [8u8, 9, 100, u8::MAX] {
        assert_eq!(node_to_prime(n), None);
    }
}

#[test]
fn lookups_are_inverse() {
    for n in 0u8..=255 {
        if let Some(p) = node_to_prime(n) {
            assert_eq!(prime_to_node(p), Some(n));
        }
    }
    for p in 0u32..1000 {
        if let Some(n) = prime_to_node(p) {
            assert_eq!(node_to_prime(n), Some(p));
        }
    }
}
