use turtles::tunnel_utils::SortedTunnel;

#[test]
fn equal_valued_occurrences_form_a_pair() {
    let tunnel = SortedTunnel::new(vec![1, 1]);
    assert!(tunnel.is_tunnel_safe(2));
}

#[test]
fn single_occurrence_does_not_pair_with_itself() {
    let tunnel = SortedTunnel::new(vec![1, 3]);
    assert!(!tunnel.is_tunnel_safe(2));
    assert!(!tunnel.is_tunnel_safe(6));
    assert!(tunnel.is_tunnel_safe(4));
}

#[test]
fn query_is_read_only() {
    let tunnel = SortedTunnel::new(vec![2, 3, 4]);
    assert!(tunnel.is_tunnel_safe(5));
    assert!(tunnel.is_tunnel_safe(5));
    assert!(!tunnel.is_tunnel_safe(10));
    assert!(!tunnel.is_tunnel_safe(10));
    assert!(tunnel.is_tunnel_safe(7));
}

#[test]
fn shift_evicts_the_oldest_occurrence() {
    let mut tunnel = SortedTunnel::new(vec![1, 2, 3]);
    assert!(tunnel.is_tunnel_safe(3));
    tunnel.shift_right(4);
    // 1 left the window, so 3 = 1 + 2 is no longer covered.
    assert!(!tunnel.is_tunnel_safe(3));
    assert!(tunnel.is_tunnel_safe(6));
    assert!(tunnel.is_tunnel_safe(7));
}

#[test]
fn shift_with_duplicates_evicts_by_age() {
    let mut tunnel = SortedTunnel::new(vec![2, 2, 5]);
    assert!(tunnel.is_tunnel_safe(4));
    tunnel.shift_right(7);
    // Only the older of the two 2-occurrences left; one 2 is still live.
    assert!(!tunnel.is_tunnel_safe(4));
    assert!(tunnel.is_tunnel_safe(9));
    assert!(tunnel.is_tunnel_safe(12));
    tunnel.shift_right(11);
    // Now the second 2 is gone as well.
    assert!(!tunnel.is_tunnel_safe(9));
    assert!(tunnel.is_tunnel_safe(18));
}

#[test]
fn zero_candidate_is_unsafe_even_with_two_zeros() {
    let tunnel = SortedTunnel::new(vec![0, 0]);
    assert!(!tunnel.is_tunnel_safe(0));
}

#[test]
fn candidate_below_the_window_is_unsafe() {
    let tunnel = SortedTunnel::new(vec![4, 5, 7]);
    assert!(!tunnel.is_tunnel_safe(3));
    assert!(!tunnel.is_tunnel_safe(4));
    assert!(tunnel.is_tunnel_safe(9));
}

#[test]
fn large_values_do_not_overflow_the_search() {
    let big = u128::MAX;
    let tunnel = SortedTunnel::new(vec![3, big]);
    // Probing 5 walks past 3 and must not compute 3 + u128::MAX.
    assert!(!tunnel.is_tunnel_safe(5));
    let tunnel = SortedTunnel::new(vec![1, big - 1]);
    assert!(tunnel.is_tunnel_safe(big));
}
