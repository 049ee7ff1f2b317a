use mirp::address::Address;
use mirp::strikes::{BanOutcome, StrikeOutcome, StrikeTracker, MAX_STRIKES};

const PEER: Address = Address::V4(0xcb00_7107);
const OTHER: Address = Address::V6(0x2001_0db8_0000_0000_0000_0000_0000_0001);

#[test]
fn the_threshold_is_five() {
    assert_eq!(MAX_STRIKES, 5);
}

#[test]
fn a_new_tracker_has_nothing_on_record() {
    let tracker = StrikeTracker::new();
    assert_eq!(tracker.count(PEER), None);
    assert_eq!(tracker.count(OTHER), None);
}

#[test]
fn strikes_count_up_from_one() {
    let mut tracker = StrikeTracker::new();
    assert_eq!(tracker.strike(PEER), StrikeOutcome::Recorded { count: 1 });
    assert_eq!(tracker.count(PEER), Some(1));
    assert_eq!(tracker.strike(PEER), StrikeOutcome::Recorded { count: 2 });
    assert_eq!(tracker.strike(PEER), StrikeOutcome::Recorded { count: 3 });
    assert_eq!(tracker.strike(PEER), StrikeOutcome::Recorded { count: 4 });
    assert_eq!(tracker.count(PEER), Some(4));
}

#[test]
fn the_fifth_strike_makes_a_ban_due() {
    let mut tracker = StrikeTracker::new();
    for _ in 0..4 {
        tracker.strike(PEER);
    }
    assert_eq!(tracker.strike(PEER), StrikeOutcome::BanDue { count: 5 });
    assert_eq!(tracker.count(PEER), Some(5));
}

#[test]
fn a_written_ban_clears_the_entry() {
    let mut tracker = StrikeTracker::new();
    for _ in 0..5 {
        tracker.strike(PEER);
    }
    assert_eq!(tracker.resolve_ban(PEER, true), BanOutcome::Banned);
    assert_eq!(tracker.count(PEER), None);
}

#[test]
fn a_ban_that_could_not_be_written_is_asked_for_again() {
    let mut tracker = StrikeTracker::new();
    for _ in 0..5 {
        tracker.strike(PEER);
    }
    assert_eq!(tracker.resolve_ban(PEER, false), BanOutcome::Deferred);
    assert_eq!(tracker.count(PEER), Some(5));
    assert_eq!(tracker.strike(PEER), StrikeOutcome::BanDue { count: 5 });
    assert_eq!(tracker.count(PEER), Some(5));
    assert_eq!(tracker.resolve_ban(PEER, true), BanOutcome::Banned);
    assert_eq!(tracker.count(PEER), None);
}

#[test]
fn the_count_never_passes_the_threshold() {
    let mut tracker = StrikeTracker::new();
    for _ in 0..300 {
        tracker.strike(PEER);
        let count = tracker.count(PEER).unwrap();
        assert!(1 <= count && count <= MAX_STRIKES);
    }
    assert_eq!(tracker.count(PEER), Some(5));
}

#[test]
fn after_a_ban_the_count_starts_over() {
    let mut tracker = StrikeTracker::new();
    for _ in 0..5 {
        tracker.strike(PEER);
    }
    tracker.resolve_ban(PEER, true);
    assert_eq!(tracker.strike(PEER), StrikeOutcome::Recorded { count: 1 });
}

#[test]
fn peers_are_counted_apart() {
    let mut tracker = StrikeTracker::new();
    tracker.strike(PEER);
    tracker.strike(PEER);
    assert_eq!(tracker.strike(OTHER), StrikeOutcome::Recorded { count: 1 });
    assert_eq!(tracker.count(PEER), Some(2));
    assert_eq!(tracker.count(OTHER), Some(1));
    tracker.exonerate(PEER);
    assert_eq!(tracker.count(PEER), None);
    assert_eq!(tracker.count(OTHER), Some(1));
}

#[test]
fn an_ipv4_address_and_the_ipv6_address_of_the_same_number_are_different_peers() {
    let mut tracker = StrikeTracker::new();
    tracker.strike(Address::V4(0x0808_0808));
    assert_eq!(tracker.count(Address::V4(0x0808_0808)), Some(1));
    assert_eq!(tracker.count(Address::V6(0x0808_0808)), None);
    assert_eq!(tracker.count(Address::V6(0xffff_0808_0808)), None);
}

#[test]
fn exoneration_clears_the_entry() {
    let mut tracker = StrikeTracker::new();
    tracker.strike(PEER);
    tracker.strike(PEER);
    tracker.strike(PEER);
    assert!(tracker.exonerate(PEER));
    assert_eq!(tracker.count(PEER), None);
    assert!(!tracker.exonerate(PEER));
    assert_eq!(tracker.strike(PEER), StrikeOutcome::Recorded { count: 1 });
}

#[test]
fn loopback_addresses_are_exempt() {
    let mut tracker = StrikeTracker::new();
    for peer in [
        Address::V4(0x7f00_0001),
        Address::V4(0x7f00_0000),
        Address::V4(0x7fff_ffff),
        Address::V6(1),
    ] {
        assert!(peer.is_loopback());
        assert!(peer.is_exempt());
        for _ in 0..20 {
            assert_eq!(tracker.strike(peer), StrikeOutcome::Exempt);
            assert_eq!(tracker.count(peer), None);
        }
    }
}

#[test]
fn the_private_range_is_exempt() {
    let mut tracker = StrikeTracker::new();
    for peer in [
        Address::V4(0xc0a8_0000),
        Address::V4(0xc0a8_0101),
        Address::V4(0xc0a8_ffff),
    ] {
        assert!(peer.is_private());
        assert!(peer.is_exempt());
        for _ in 0..20 {
            assert_eq!(tracker.strike(peer), StrikeOutcome::Exempt);
            assert_eq!(tracker.count(peer), None);
        }
    }
}

#[test]
fn the_neighbours_of_the_exempt_ranges_are_not_exempt() {
    for peer in [
        Address::V4(0x7eff_ffff),
        Address::V4(0x8000_0000),
        Address::V4(0xc0a7_ffff),
        Address::V4(0xc0a9_0000),
        Address::V4(0x0a00_0001),
        Address::V4(0xac10_0001),
        Address::V6(0),
        Address::V6(2),
        Address::V6(0xffff_7f00_0001),
        Address::V6(0xffff_c0a8_0101),
        Address::V6(0xc0a8_0101),
    ] {
        assert!(!peer.is_exempt());
        let mut tracker = StrikeTracker::new();
        assert_eq!(tracker.strike(peer), StrikeOutcome::Recorded { count: 1 });
    }
}
