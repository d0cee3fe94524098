//! Sizes and codes of the system's own structures.

use netflector::libcex::{bpf_wordalign, nl_align, siocgifaflag_in6};

#[test]
fn nl_align_rounds_up_to_four() {
    assert_eq!(nl_align(0), 0);
    assert_eq!(nl_align(1), 4);
    assert_eq!(nl_align(4), 4);
    assert_eq!(nl_align(5), 8);
}

#[test]
fn wordalign_rounds_up_to_alignment() {
    // The alignment is per-OS (4 on macOS, 8 on FreeBSD/64-bit), so assert the round-up invariant
    // against each boundary.
    for align in [4usize, 8] {
        assert_eq!(bpf_wordalign(0, align), 0);
        assert_eq!(bpf_wordalign(1, align), align);
        assert_eq!(bpf_wordalign(align, align), align);
        assert_eq!(bpf_wordalign(align + 1, align), 2 * align);
    }
}

#[test]
fn siocgifaflag_in6_is_the_kernel_request_code() {
    // Identical on macOS and FreeBSD: both size the request's structure at 288 bytes.
    assert_eq!(siocgifaflag_in6(288), 0xc120_6949);
}
