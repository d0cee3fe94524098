//! The registry of DIAL proxies.

use netflector::dispatch::dial_context::{DialContext, DialProxyKey, MAX_DIAL_PROXIES};
use netflector::dispatch::CaptureKey;
use netflector::net::ip::{Ipv4Addr, SocketAddrV4};

const SEC: u64 = 1_000_000_000;

fn ep(n: u8) -> SocketAddrV4 {
    SocketAddrV4::new(Ipv4Addr::new(10, 0, 0, n), 8008)
}

fn key(s: u32, t: u32, e: SocketAddrV4) -> DialProxyKey {
    DialProxyKey {
        source: CaptureKey { index: s },
        target: CaptureKey { index: t },
        endpoint: e,
    }
}

#[test]
fn next_grace_reports_the_soonest_or_none_when_empty() {
    let mut ctx = DialContext::new();
    assert_eq!(ctx.next_grace(), None);

    let base = 100 * SEC;
    ctx.insert(key(0, 1, ep(1)), 1, ep(9), base + 10 * SEC);
    ctx.insert(key(0, 1, ep(2)), 2, ep(9), base + 5 * SEC);
    assert_eq!(ctx.next_grace(), Some(base + 5 * SEC));
}

#[test]
fn lookup_finds_a_live_proxy_and_prunes_an_evicted_one() {
    let mut live = vec![1];
    let mut ctx = DialContext::new();
    let base = 100 * SEC;
    ctx.insert(key(0, 1, ep(1)), 1, ep(9), base);

    // Live: found, and its grace is refreshed to the new deadline.
    let refreshed = base + 30 * SEC;
    assert_eq!(ctx.lookup(key(0, 1, ep(1)), &live, refreshed), Some(ep(9)));
    assert_eq!(ctx.grace_of(key(0, 1, ep(1))), Some(refreshed));

    // Evicted: the stale entry is pruned and reported absent.
    live.clear();
    assert_eq!(ctx.lookup(key(0, 1, ep(1)), &live, base), None);
    assert_eq!(ctx.proxy_count(), 0);
}

#[test]
fn lookup_does_not_cross_targets() {
    // Only reachable when the two target segments carry the same address.
    let live = vec![1];
    let mut ctx = DialContext::new();
    let base = 100 * SEC;
    ctx.insert(key(0, 1, ep(1)), 1, ep(9), base);

    assert_eq!(ctx.lookup(key(0, 1, ep(1)), &live, base), Some(ep(9)));
    assert_eq!(
        ctx.lookup(key(0, 2, ep(1)), &live, base),
        None,
        "a different target is a different proxy"
    );
}

/// Insert a live proxy per index in `which`, each with its own endpoint.
fn fill(ctx: &mut DialContext, live: &mut Vec<u64>, which: std::ops::Range<usize>) {
    for i in which {
        let handler = i as u64;
        live.push(handler);
        let ep = SocketAddrV4::new(Ipv4Addr::new(10, 0, 0, u8::try_from(i).unwrap()), 8008);
        ctx.insert(key(0, 1, ep), handler, ep, 60 * SEC);
    }
}

#[test]
fn the_cap_refuses_a_further_mint() {
    let mut live = Vec::new();
    let mut ctx = DialContext::new();
    fill(&mut ctx, &mut live, 0..MAX_DIAL_PROXIES - 1);
    assert!(ctx.has_capacity(&live));

    fill(&mut ctx, &mut live, MAX_DIAL_PROXIES - 1..MAX_DIAL_PROXIES);
    assert_eq!(ctx.proxy_count(), MAX_DIAL_PROXIES);
    assert!(!ctx.has_capacity(&live));
}

#[test]
fn capacity_prunes_evicted_entries_before_checking() {
    let mut live = Vec::new();
    let mut ctx = DialContext::new();
    fill(&mut ctx, &mut live, 0..MAX_DIAL_PROXIES);
    assert!(!ctx.has_capacity(&live));

    live.remove(0);
    assert!(ctx.has_capacity(&live));
    assert_eq!(
        ctx.proxy_count(),
        MAX_DIAL_PROXIES - 1,
        "the dead entry is gone, not merely skipped"
    );
}

#[test]
fn a_sweep_evicts_the_lapsed_and_prunes_the_gone() {
    let live = vec![1, 2];
    let mut ctx = DialContext::new();
    ctx.insert(key(0, 1, ep(1)), 1, ep(9), 10 * SEC);
    ctx.insert(key(0, 1, ep(2)), 2, ep(9), 20 * SEC);
    ctx.insert(key(0, 1, ep(3)), 3, ep(9), 30 * SEC); // its handler is gone
    let evicted = ctx.sweep(10 * SEC, &live);
    assert_eq!(evicted.len(), 1);
    assert_eq!(evicted[0].0.endpoint, ep(1));
    assert_eq!(evicted[0].1.handler, 1);
    assert_eq!(ctx.proxy_count(), 1);
    assert_eq!(ctx.next_grace(), Some(20 * SEC));
}

#[test]
fn a_changed_capture_evicts_on_either_side() {
    let live = vec![1, 2, 3];
    let mut ctx = DialContext::new();
    ctx.insert(key(0, 1, ep(1)), 1, ep(9), SEC);
    ctx.insert(key(2, 0, ep(2)), 2, ep(9), SEC);
    ctx.insert(key(2, 1, ep(3)), 3, ep(9), SEC);
    let evicted = ctx.evict_on_interface_change(&live, vec![CaptureKey { index: 0 }]);
    let handlers: Vec<u64> = evicted.iter().map(|(_, entry)| entry.handler).collect();
    assert_eq!(handlers, [1, 2]);
    assert_eq!(ctx.proxy_count(), 1);
}

#[test]
fn a_re_mint_replaces_the_entry_of_the_same_device() {
    let mut ctx = DialContext::new();
    ctx.insert(key(0, 1, ep(1)), 1, ep(9), SEC);
    ctx.insert(key(0, 1, ep(1)), 2, ep(8), 2 * SEC);
    assert_eq!(ctx.proxy_count(), 1);
    assert_eq!(ctx.lookup(key(0, 1, ep(1)), &vec![2], 3 * SEC), Some(ep(8)));
}
