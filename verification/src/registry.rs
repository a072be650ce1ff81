//! The fixed one-to-one table between the eight primes and the eight node
//! indices. A prime's node is its home node.

use vstd::prelude::*;

verus! {

/// Whether `p` is one of the eight primes of the table.
pub open spec fn is_known_prime(p: u32) -> bool {
    p == 2 || p == 3 || p == 5 || p == 7 || p == 11 || p == 13 || p == 17 || p == 19
}

/// The home node index of a prime, or `None` outside the table.
pub open spec fn spec_prime_to_node(p: u32) -> Option<u8> {
    if p == 2 {
        Some(0u8)
    } else if p == 3 {
        Some(1u8)
    } else if p == 5 {
        Some(2u8)
    } else if p == 7 {
        Some(3u8)
    } else if p == 11 {
        Some(4u8)
    } else if p == 13 {
        Some(5u8)
    } else if p == 17 {
        Some(6u8)
    } else if p == 19 {
        Some(7u8)
    } else {
        None
    }
}

/// The prime whose home is node index `n`, or `None` for an index above 7.
pub open spec fn spec_node_to_prime(n: u8) -> Option<u32> {
    if n == 0 {
        Some(2u32)
    } else if n == 1 {
        Some(3u32)
    } else if n == 2 {
        Some(5u32)
    } else if n == 3 {
        Some(7u32)
    } else if n == 4 {
        Some(11u32)
    } else if n == 5 {
        Some(13u32)
    } else if n == 6 {
        Some(17u32)
    } else if n == 7 {
        Some(19u32)
    } else {
        None
    }
}

/// Looks up the home node index of a prime.
pub fn prime_to_node(p: u32) -> (node: Option<u8>)
    ensures
        node == spec_prime_to_node(p),
        node is Some <==> is_known_prime(p),
        node matches Some(n) ==> n <= 7 && spec_node_to_prime(n) == Some(p),
{
    match p {
        2 => Some(0),
        3 => Some(1),
        5 => Some(2),
        7 => Some(3),
        11 => Some(4),
        13 => Some(5),
        17 => Some(6),
        19 => Some(7),
        _ => None,
    }
}

/// Looks up the prime whose home is node index `n`.
pub fn node_to_prime(n: u8) -> (prime: Option<u32>)
    ensures
        prime == spec_node_to_prime(n),
        prime is Some <==> n <= 7,
        prime matches Some(p) ==> is_known_prime(p) && spec_prime_to_node(p) == Some(n),
{
    match n {
        0 => Some(2),
        1 => Some(3),
        2 => Some(5),
        3 => Some(7),
        4 => Some(11),
        5 => Some(13),
        6 => Some(17),
        7 => Some(19),
        _ => None,
    }
}

/// The two lookups are inverse to each other: a prime's home node leads back
/// to the prime, and a node's prime has that node as its home.
pub proof fn lemma_registry_bijection(p: u32, n: u8)
    ensures
        spec_prime_to_node(p) == Some(n) <==> spec_node_to_prime(n) == Some(p),
        spec_prime_to_node(p) is Some <==> is_known_prime(p),
        spec_node_to_prime(n) is Some <==> n <= 7,
{
}

} // verus!
