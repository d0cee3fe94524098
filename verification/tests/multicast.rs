//! Multicast memberships: what is recorded, retried and reported.

use netflector::dispatch::multicast::{
    already_member, join_capped, join_deferrable, join_unsupported, Attempt, MulticastJoiner,
    RejoinCounts, Report,
};
use netflector::errno::Errno;
use netflector::net::ip::{parse_ip, IpAddr, Ipv4Addr};

fn group() -> IpAddr {
    IpAddr::V4(Ipv4Addr::new(224, 0, 0, 251))
}

fn group_v6() -> IpAddr {
    parse_ip(b"ff02::fb").unwrap()
}

#[test]
fn an_inert_joiner_joins_nothing_and_opens_no_socket() {
    let mut joiner = MulticastJoiner::inert();
    joiner.join(group(), Attempt::Joined).unwrap();
    assert!(joiner.is_socketless());
    assert_eq!(joiner.rejoin(&Vec::new()).0, RejoinCounts::default());
}

#[test]
fn the_membership_cap_errnos_are_capped_joins() {
    assert!(join_capped(Errno::NoBufferSpace));
    assert!(join_capped(Errno::TooManyReferences));
    assert!(!join_capped(Errno::InvalidArgument));
    assert!(!join_capped(Errno::AddrNotAvailable));
}

#[test]
fn only_eaddrnotavail_is_a_deferrable_join() {
    assert!(join_deferrable(Errno::AddrNotAvailable)); // an address event will fix it
    assert!(!join_deferrable(Errno::NoDevice)); // nothing in particular will
    assert!(!join_deferrable(Errno::InvalidArgument));
}

#[test]
fn already_member_only_for_the_duplicate_join_errno() {
    assert!(already_member(Errno::AddrInUse)); // duplicate any-source join, every target
    assert!(!already_member(Errno::InvalidArgument)); // a genuine rejection (bad / non-multicast group)
    assert!(!already_member(Errno::NoBufferSpace)); // membership cap, a real failure
    assert!(!already_member(Errno::AddrNotAvailable)); // interface transiently down
}

#[test]
fn an_environment_without_joins_is_told_apart() {
    assert!(join_unsupported(Errno::NoProtocolOption));
    assert!(join_unsupported(Errno::NotSupported));
    assert!(join_unsupported(Errno::NotImplemented));
    assert!(!join_unsupported(Errno::InvalidArgument));
}

// reset drops the per-family sockets while keeping the desired list, so the next rejoin replays every
// group on fresh fds (no zombie memberships from a destroyed interface).
#[test]
fn reset_keeps_desired_and_rejoin_replays_on_fresh_sockets() {
    let mut joiner = MulticastJoiner::new();
    joiner.join(group(), Attempt::Joined).unwrap();
    assert!(joiner.v4);
    joiner.reset();
    assert!(!joiner.v4, "reset drops the family sockets");
    assert_eq!(joiner.desired.len(), 1, "the desired list survives");
    let (counts, reports) = joiner.rejoin(&vec![Attempt::Joined]);
    assert_eq!(
        (counts.joined, counts.deferred),
        (1, 0),
        "rejoin replays the one recorded group, none deferred"
    );
    assert_eq!(reports, [Report::Quiet]);
    assert!(
        joiner.v4,
        "rejoin re-opens a fresh socket and re-joins"
    );
}

#[test]
fn a_replayed_hard_failure_reports_once() {
    let mut joiner = MulticastJoiner::new();
    // A unicast address can never join, so every replay fails hard (EINVAL) deterministically.
    joiner.record(IpAddr::V4(Ipv4Addr::new(10, 0, 0, 1)));
    let refused = vec![Attempt::Refused(Errno::InvalidArgument)];
    let (first, reports) = joiner.rejoin(&refused);
    assert_eq!((first.joined, first.deferred, first.failed), (0, 0, 1));
    assert!(joiner.desired[0].reported, "the first failure is reported");
    assert_eq!(reports, [Report::Failed(Errno::InvalidArgument)]);
    let (second, reports) = joiner.rejoin(&refused);
    assert_eq!(second.failed, 1, "the group is still retried");
    assert!(joiner.desired[0].reported);
    assert_eq!(reports, [Report::StillFailing(Errno::InvalidArgument)]);
}

#[test]
fn join_marks_a_hard_failure_reported() {
    let mut joiner = MulticastJoiner::new();
    let err = joiner
        .join(
            IpAddr::V4(Ipv4Addr::new(10, 0, 0, 1)),
            Attempt::Refused(Errno::InvalidArgument),
        )
        .expect_err("a unicast address cannot join");
    assert!(!join_deferrable(err));
    assert!(
        joiner.desired[0].reported,
        "the caller logs this error; the replay must not re-report it"
    );
}

#[test]
fn a_join_clears_the_reported_mark() {
    let mut joiner = MulticastJoiner::new();
    joiner.join(group(), Attempt::Joined).unwrap();
    // As if an earlier replay failed: the next success closes the episode.
    joiner.desired[0].reported = true;
    let (counts, reports) = joiner.rejoin(&vec![Attempt::Joined]);
    assert_eq!((counts.joined, counts.failed), (1, 0));
    assert!(!joiner.desired[0].reported, "the join cleared the mark");
    assert_eq!(reports, [Report::Recovered]);
}

// The parked-interface path: record keeps the group for the rebuild's replay without touching the
// kernel (no index exists to join on).
#[test]
fn record_keeps_the_group_for_the_replay_without_joining() {
    let mut joiner = MulticastJoiner::new();
    joiner.record(group());
    joiner.record(group()); // deduped
    assert!(!joiner.v4, "no socket opened, no join attempted");
    assert_eq!(
        joiner.desired.len(),
        1,
        "the group is recorded once for the replay"
    );
}

#[test]
fn a_held_membership_counts_as_joined_and_a_deferral_is_not_reported() {
    let mut joiner = MulticastJoiner::new();
    assert_eq!(joiner.join(group(), Attempt::Refused(Errno::AddrInUse)), Ok(()));
    assert_eq!(
        joiner.join(group_v6(), Attempt::Refused(Errno::AddrNotAvailable)),
        Err(Errno::AddrNotAvailable)
    );
    assert!(!joiner.desired[1].reported);
    assert!(joiner.has_socket(group()) && joiner.has_socket(group_v6()));
    let (counts, reports) = joiner.rejoin(&vec![
        Attempt::Refused(Errno::AddrInUse),
        Attempt::Refused(Errno::AddrNotAvailable),
    ]);
    assert_eq!((counts.joined, counts.deferred, counts.failed), (1, 1, 0));
    assert_eq!(
        reports,
        [Report::Quiet, Report::Deferred(Errno::AddrNotAvailable)]
    );
}

#[test]
fn a_socket_that_does_not_open_is_a_failure_of_its_family_alone() {
    let mut joiner = MulticastJoiner::new();
    assert_eq!(
        joiner.join(group(), Attempt::NoSocket(Errno::TooManyOpenFiles)),
        Err(Errno::TooManyOpenFiles)
    );
    assert!(joiner.is_socketless());
    assert_eq!(joiner.desired.len(), 1, "it is wanted all the same");
    joiner.join(group_v6(), Attempt::Joined).unwrap();
    assert!(!joiner.v4 && joiner.v6);
}

#[test]
fn an_inert_joiner_joins_nothing_that_was_recorded_on_it() {
    let mut joiner = MulticastJoiner::inert();
    assert_eq!(joiner.record(group()), 0);
    assert_eq!(joiner.desired.len(), 1);
    assert!(joiner.replay().is_empty());
    let (counts, reports) = joiner.rejoin(&vec![Attempt::Joined]);
    assert_eq!(counts, RejoinCounts::default());
    assert!(reports.is_empty());
    assert!(joiner.is_socketless());
    assert_eq!(joiner.desired.len(), 1);

    let mut joining = MulticastJoiner::new();
    joining.record(group());
    joining.record(group_v6());
    assert_eq!(joining.replay(), [group(), group_v6()]);
}
