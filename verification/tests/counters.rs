//! What is counted of a packet, and how the outcomes of its handlers are folded.

use netflector::dispatch::counters::MessageType::{
    MdnsQuery as Q, MdnsResponse as R, UdpDatagram as U,
};
use netflector::dispatch::counters::{
    fold_outcomes, log_counters, Anomalies, CaptureCounters, Disposition, MessageType, Outcome,
    MESSAGE_TYPE_COUNT,
};

#[test]
fn message_type_display_omits_the_empty_direction() {
    assert_eq!(MessageType::MdnsQuery.as_str(), "mDNS query");
    assert_eq!(
        MessageType::SsdpAdvertisement.as_str(),
        "SSDP advertisement"
    );
    assert_eq!(MessageType::WakeOnLan.as_str(), "WoL");
}

#[test]
fn message_types_are_labelled_and_contiguously_indexed() {
    // `record` indexes the counters by the type's place, so the places must be contiguous, and every
    // label must be non-empty.
    for index in 0..MESSAGE_TYPE_COUNT {
        let ty = MessageType::from_index(index);
        assert!(!ty.as_str().is_empty(), "{ty:?} has an empty label");
        assert_eq!(ty.index(), index, "places must be contiguous from 0");
    }
}

#[test]
fn disposition_orders_worst_to_best() {
    assert!(
        Disposition::Reflected > Disposition::Dropped
            && Disposition::Dropped > Disposition::Stalled
            && Disposition::Stalled > Disposition::Skipped
            && Disposition::Skipped > Disposition::Filtered
    );
}

#[test]
fn record_bumps_the_matching_bucket() {
    let mut c = CaptureCounters::new();
    c.record(Outcome::Reflected(MessageType::MdnsQuery));
    c.record(Outcome::Reflected(MessageType::MdnsQuery));
    c.record(Outcome::Skipped(MessageType::MdnsQuery));
    c.record(Outcome::Dropped(MessageType::SsdpSearch));
    c.record(Outcome::Stalled(MessageType::SsdpSearch));
    c.record(Outcome::Filtered);
    assert_eq!(c.typed(MessageType::MdnsQuery), (2, 1, 0, 0));
    assert_eq!(c.typed(MessageType::SsdpSearch), (0, 0, 1, 1));
    assert_eq!(c.typed(MessageType::WakeOnLan), (0, 0, 0, 0));
    assert_eq!(c.filtered(), 1);
}

#[test]
fn record_oversized_counts_and_reports() {
    let mut c = CaptureCounters::new();
    c.record_oversized(3);
    c.record_oversized(2);
    // Reported on its own even with no routed packet, trailing the summary.
    assert_eq!(c.format_nonzero().as_deref(), Some("oversized=5"));
    c.record(Outcome::Filtered);
    assert_eq!(
        c.format_nonzero().as_deref(),
        Some("filtered=1; oversized=5")
    );
}

#[test]
fn record_echo_counts_and_reports() {
    let mut c = CaptureCounters::new();
    c.record_echo();
    c.record_echo();
    assert_eq!(c.echoed(), 2);
    // Interface-wide counts trail the typed ones: filtered, echoed, oversized.
    c.record(Outcome::Filtered);
    c.record_oversized(1);
    assert_eq!(
        c.format_nonzero().as_deref(),
        Some("filtered=1; echoed=2; oversized=1")
    );
}

#[test]
fn record_recovery_counts_and_leads_the_summary() {
    let mut c = CaptureCounters::new();
    assert_eq!(c.recoveries(), 0);
    c.record_recovery();
    c.record_recovery();
    assert_eq!(c.recoveries(), 2);
    // A recovered but otherwise-idle interface still reports, recoveries leading.
    assert_eq!(c.format_nonzero().as_deref(), Some("recoveries=2"));
    c.record(Outcome::Reflected(MessageType::MdnsQuery));
    assert_eq!(
        c.format_nonzero().as_deref(),
        Some("recoveries=2; mDNS query reflected=1"),
    );
}

#[test]
fn format_nonzero_summarizes_only_touched_counters() {
    let mut c = CaptureCounters::new();
    assert_eq!(c.format_nonzero(), None, "an untouched row logs no line");
    c.record(Outcome::Reflected(MessageType::MdnsQuery));
    c.record(Outcome::Reflected(MessageType::MdnsQuery));
    c.record(Outcome::Skipped(MessageType::MdnsQuery));
    c.record(Outcome::Dropped(MessageType::SsdpSearch));
    c.record(Outcome::Filtered);
    // Only touched types and sub-counts appear, in declaration order, then the filtered total.
    assert_eq!(
        c.format_nonzero().as_deref(),
        Some("mDNS query reflected=2 skipped=1; SSDP search dropped=1; filtered=1"),
    );
}

#[test]
fn combine_takes_the_higher_precedence_disposition() {
    // Reflected dominates a skip; a failed reflect (dropped/stalled) still outranks a skip; junk
    // is last.
    assert_eq!(
        Outcome::Reflected(Q).combine(Outcome::Skipped(Q)).0,
        Outcome::Reflected(Q)
    );
    assert_eq!(
        Outcome::Dropped(Q).combine(Outcome::Skipped(Q)).0,
        Outcome::Dropped(Q)
    );
    assert_eq!(
        Outcome::Stalled(Q).combine(Outcome::Skipped(Q)).0,
        Outcome::Stalled(Q)
    );
    assert_eq!(
        Outcome::Skipped(Q).combine(Outcome::Filtered).0,
        Outcome::Skipped(Q)
    );
}

#[test]
fn combine_is_order_independent() {
    let a = Outcome::Skipped(R);
    let b = Outcome::Reflected(R);
    assert_eq!(a.combine(b).0, b.combine(a).0);
}

#[test]
fn fan_out_folds_multiple_reflects_without_anomaly() {
    // A source fanned out to several targets (a->b, a->c) reflects one query from each leg on the
    // shared ingress. That is a legal config, not a duplicate-reflector bug: the fold keeps one
    // Reflected and flags nothing.
    let (merged, anomalies) = Outcome::Reflected(Q).combine(Outcome::Reflected(Q));
    assert_eq!(merged, Outcome::Reflected(Q));
    assert_eq!(anomalies, Anomalies::default());
}

#[test]
fn combine_counts_a_packet_the_relay_shares_under_the_protocol() {
    // A relay and a protocol handler on one ingress see the same packet: the protocol's type
    // wins in either order and at either disposition, and it is no mismatch.
    for (mine, theirs) in [
        (Outcome::Reflected(Q), Outcome::Reflected(U)),
        (Outcome::Reflected(U), Outcome::Reflected(Q)),
    ] {
        let (merged, anomalies) = mine.combine(theirs);
        assert_eq!(merged, Outcome::Reflected(Q));
        assert!(!anomalies.type_mismatch);
    }
    // The relay forwards a response the protocol's leg skips: reflected, as a response.
    let (merged, anomalies) = Outcome::Skipped(R).combine(Outcome::Reflected(U));
    assert_eq!(merged, Outcome::Reflected(R));
    assert!(!anomalies.type_mismatch);
    // Two relays agree with each other.
    let (merged, anomalies) = Outcome::Reflected(U).combine(Outcome::Reflected(U));
    assert_eq!(merged, Outcome::Reflected(U));
    assert!(!anomalies.type_mismatch);
}

#[test]
fn combine_flags_a_type_mismatch() {
    // Handlers seeing one packet must agree on its type; a mismatch is a classifier/config bug.
    assert!(
        Outcome::Reflected(Q)
            .combine(Outcome::Skipped(R))
            .1
            .type_mismatch
    );
    assert!(
        !Outcome::Reflected(Q)
            .combine(Outcome::Skipped(Q))
            .1
            .type_mismatch
    );
    // Junk carries no type, so it never triggers a mismatch.
    assert!(
        !Outcome::Filtered
            .combine(Outcome::Skipped(Q))
            .1
            .type_mismatch
    );
}

#[test]
fn no_fold_of_two_outcomes_depends_on_their_order() {
    let outcomes = [
        Outcome::Reflected(Q),
        Outcome::Reflected(R),
        Outcome::Reflected(U),
        Outcome::Skipped(Q),
        Outcome::Skipped(R),
        Outcome::Dropped(R),
        Outcome::Stalled(U),
        Outcome::Filtered,
    ];
    for a in outcomes {
        assert_eq!(a.combine(a), (a, Anomalies::default()));
        for b in outcomes {
            assert_eq!(a.combine(b), b.combine(a));
        }
    }
    // Two protocols that disagree at one disposition: the type that is declared first.
    let (merged, anomalies) = Outcome::Reflected(MessageType::SsdpSearch).combine(Outcome::Reflected(Q));
    assert_eq!(merged, Outcome::Reflected(Q));
    assert!(anomalies.type_mismatch);
}

#[test]
fn folding_a_run_of_outcomes_counts_one_packet() {
    assert_eq!(fold_outcomes(&Vec::new()), (None, false));
    assert_eq!(
        fold_outcomes(&vec![
            Outcome::Filtered,
            Outcome::Skipped(Q),
            Outcome::Reflected(U),
        ]),
        (Some(Outcome::Reflected(Q)), false)
    );
    assert_eq!(
        fold_outcomes(&vec![Outcome::Skipped(Q), Outcome::Dropped(R)]),
        (Some(Outcome::Dropped(R)), true)
    );
}

#[test]
fn only_busy_interfaces_are_logged() {
    let mut busy = CaptureCounters::new();
    busy.record(Outcome::Reflected(Q));
    let idle = CaptureCounters::new();
    assert_eq!(
        log_counters(&vec![("lan", &busy), ("iot", &idle)]),
        ["counters lan: mDNS query reflected=1"]
    );
}
