//! The connection handler's decisions.
//!
//! A handler peeks at the first bytes of a connection, decodes the handshake
//! frame in them, compares the requested domain with the served one and ends
//! in one of four ways. The embedding program does the peeking, the relaying
//! and the logging; what to conclude from the bytes, and what that does to
//! the peer's strikes, is decided here.

use crate::address::Address;
use crate::domain::{normalize_domain, strip_trailing_dots};
use crate::frame::{decode_handshake, parse_frame, window_of};
use crate::strikes::{
    after_strike, counts_in_range, outcome_of_strike, StrikeOutcome, StrikeTracker,
};
use crate::varint::DecodeError;
use vstd::prelude::*;

verus! {

/// Size of the buffer that carries relayed bytes, one for each direction.
/// The proxied protocol sends many small packets; a generous buffer keeps the
/// number of system calls down.
pub const RELAY_BUFFER_SIZE: usize = 128 * 1024;

/// How a connection ends, or that it goes on as a relay.
#[derive(Debug, PartialEq, Eq)]
pub enum Outcome {
    /// The peer closed before sending anything. No penalty.
    Silent,
    /// The first bytes were no handshake frame. The peer is struck and the
    /// connection closed with an error.
    Struck { error: DecodeError },
    /// The peer asked for `domain`, which is not served. The peer is struck
    /// and the connection closed.
    Dropped { domain: String },
    /// The peer asked for the served domain. Its strikes are forgiven and the
    /// connection is relayed to the backend.
    Relaying { domain: String },
}

/// The mathematical content of an `Outcome`.
pub enum OutcomeView {
    Silent,
    Struck { error: DecodeError },
    Dropped { domain: Seq<char> },
    Relaying { domain: Seq<char> },
}

impl View for Outcome {
    type V = OutcomeView;

    open spec fn view(&self) -> OutcomeView {
        match self {
            Outcome::Silent => OutcomeView::Silent,
            Outcome::Struck { error } => OutcomeView::Struck { error: *error },
            Outcome::Dropped { domain } => OutcomeView::Dropped { domain: domain@ },
            Outcome::Relaying { domain } => OutcomeView::Relaying { domain: domain@ },
        }
    }
}

/// What the embedding program does once an outcome has been settled.
#[derive(Clone, Copy, Debug, PartialEq, Eq, Structural)]
pub enum Followup {
    /// Close the connection.
    Close,
    /// Close the connection. A strike was dealt; if it reports a ban as due,
    /// append the peer to the blacklist file and resolve the ban.
    Penalised { strike: StrikeOutcome },
    /// Connect to the backend and relay. `cleared` tells whether the peer had
    /// strikes that are now forgiven.
    Relay { cleared: bool },
}

/// The outcome for a peer whose first bytes are `peeked`, at a proxy that
/// serves `target`.
///
/// No bytes at all end the connection silently. Bytes that do not decode are
/// a strike. A decoded frame is routed by its requested domain, normalised:
/// it is relayed when that is exactly `target` and dropped otherwise.
pub open spec fn outcome_of(peeked: Seq<u8>, target: Seq<char>) -> OutcomeView {
    if peeked.len() == 0 {
        OutcomeView::Silent
    } else {
        match parse_frame(window_of(peeked)) {
            Err(error) => OutcomeView::Struck { error },
            Ok(frame) => {
                let domain = strip_trailing_dots(frame.server_address);
                if domain == target {
                    OutcomeView::Relaying { domain }
                } else {
                    OutcomeView::Dropped { domain }
                }
            },
        }
    }
}

/// The strike table after `outcome` has been settled for `peer`.
pub open spec fn counts_after(counts: Map<Address, u8>, outcome: OutcomeView, peer: Address) -> Map<
    Address,
    u8,
> {
    match outcome {
        OutcomeView::Silent => counts,
        OutcomeView::Struck { .. } | OutcomeView::Dropped { .. } => after_strike(counts, peer),
        OutcomeView::Relaying { .. } => counts.remove(peer),
    }
}

/// What follows once `outcome` has been settled for `peer`.
pub open spec fn followup_of(counts: Map<Address, u8>, outcome: OutcomeView, peer: Address) -> Followup {
    match outcome {
        OutcomeView::Silent => Followup::Close,
        OutcomeView::Struck { .. } | OutcomeView::Dropped { .. } => Followup::Penalised {
            strike: outcome_of_strike(counts, peer),
        },
        OutcomeView::Relaying { .. } => Followup::Relay { cleared: counts.contains_key(peer) },
    }
}

/// Concludes from the bytes peeked off a connection how the connection ends.
pub fn inspect(peeked: &[u8], target_domain: &str) -> (out: Outcome)
    ensures
        out@ == outcome_of(peeked@, target_domain@),
{
    if peeked.len() == 0 {
        return Outcome::Silent;
    }
    match decode_handshake(peeked) {
        Err(error) => Outcome::Struck { error },
        Ok(frame) => {
            let domain = normalize_domain(frame.server_address.as_str());
            let served = target_domain.to_owned();
            if domain == served {
                Outcome::Relaying { domain }
            } else {
                Outcome::Dropped { domain }
            }
        },
    }
}

/// Settles an outcome for `peer`: deals the strike that a failure earns,
/// forgives the strikes of a peer that is relayed, and tells what is left to
/// do.
pub fn settle(outcome: &Outcome, tracker: &mut StrikeTracker, peer: Address) -> (out: Followup)
    ensures
        final(tracker)@ == counts_after(old(tracker)@, outcome@, peer),
        out == followup_of(old(tracker)@, outcome@, peer),
        counts_in_range(old(tracker)@) ==> counts_in_range(final(tracker)@),
{
    match outcome {
        Outcome::Silent => Followup::Close,
        Outcome::Struck { .. } | Outcome::Dropped { .. } => {
            let strike = tracker.strike(peer);
            Followup::Penalised { strike }
        },
        Outcome::Relaying { .. } => {
            let cleared = tracker.exonerate(peer);
            Followup::Relay { cleared }
        },
    }
}

} // verus!
