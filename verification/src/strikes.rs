//! The strike table: how many failures each peer has on record, and when a
//! peer is due for the blacklist.
//!
//! A strike against an exempt address is ignored. Any other strike raises the
//! peer's count by one, starting at one. A peer whose count reaches
//! `MAX_STRIKES` is due for a ban: its address is to be appended to the
//! blacklist file, and only once that has succeeded is its entry cleared. If
//! the append fails the entry stays at the threshold, so the next strike asks
//! for the ban again.

use crate::address::Address;
use dashmap::DashMap;
use vstd::prelude::*;

verus! {

/// Number of strikes at which a peer is banned.
pub const MAX_STRIKES: u8 = 5;

/// Makes `dashmap::DashMap` known as a type whose inside is not looked into.
/// What a table holds is told by `table_entries` alone.
#[verifier::external_type_specification]
#[verifier::external_body]
#[verifier::reject_recursive_types(K)]
#[verifier::reject_recursive_types(V)]
#[verifier::reject_recursive_types(S)]
pub struct ExDashMap<K, V, S>(DashMap<K, V, S>);

/// The entries a table holds: for every key in it, the value stored under
/// that key.
pub uninterp spec fn table_entries(table: DashMap<Address, u8>) -> Map<Address, u8>;

/// The table with nothing on record.
pub open spec fn no_entries() -> Map<Address, u8> {
    Map::empty()
}

/// The count on record for `peer`, if there is one.
pub open spec fn lookup(counts: Map<Address, u8>, peer: Address) -> Option<u8> {
    if counts.contains_key(peer) {
        Some(counts[peer])
    } else {
        None
    }
}

/// Makes an empty table with `DashMap::new`.
#[verifier::external_body]
fn table_new() -> (fresh: DashMap<Address, u8>)
    ensures
        table_entries(fresh) == no_entries(),
{
    DashMap::new()
}

/// Reads the value stored under `key` with `DashMap::get`, which finds the
/// entry whose key equals `key` or reports that there is none.
#[verifier::external_body]
fn table_get(table: &DashMap<Address, u8>, key: Address) -> (found: Option<u8>)
    ensures
        found == lookup(table_entries(*table), key),
{
    table.get(&key).map(|entry| *entry)
}

/// Stores `value` under `key` with `DashMap::insert`, which replaces the
/// entry for that key or adds one, leaves every other entry alone and hands
/// back the value that was stored before.
#[verifier::external_body]
fn table_insert(table: &mut DashMap<Address, u8>, key: Address, value: u8) -> (previous: Option<u8>)
    ensures
        table_entries(*final(table)) == table_entries(*old(table)).insert(key, value),
        previous == lookup(table_entries(*old(table)), key),
{
    table.insert(key, value)
}

/// Deletes the entry under `key` with `DashMap::remove`, which leaves every
/// other entry alone and hands back the value that was stored, if any.
#[verifier::external_body]
fn table_remove(table: &mut DashMap<Address, u8>, key: Address) -> (removed: Option<u8>)
    ensures
        table_entries(*final(table)) == table_entries(*old(table)).remove(key),
        removed == lookup(table_entries(*old(table)), key),
{
    table.remove(&key).map(|(_, value)| value)
}

/// What a strike did.
#[derive(Clone, Copy, Debug, PartialEq, Eq, Structural)]
pub enum StrikeOutcome {
    /// The address is exempt; nothing was recorded.
    Exempt,
    /// The strike was recorded and the peer now has `count`, below the
    /// threshold.
    Recorded { count: u8 },
    /// The peer stands at the threshold and is to be banned.
    BanDue { count: u8 },
}

/// What became of a ban that was due.
#[derive(Clone, Copy, Debug, PartialEq, Eq, Structural)]
pub enum BanOutcome {
    /// The address is in the blacklist file and its strikes are cleared.
    Banned,
    /// The address could not be written; its strikes stay on record.
    Deferred,
}

/// Every count on record lies between one and the threshold.
pub open spec fn counts_in_range(counts: Map<Address, u8>) -> bool {
    forall|peer: Address| #[trigger]
        counts.contains_key(peer) ==> 1 <= counts[peer] <= MAX_STRIKES
}

/// The count a peer has after one more strike: one more than before, never
/// above the threshold.
pub open spec fn raised(previous: Option<u8>) -> u8 {
    match previous {
        None => 1,
        Some(count) => if count < MAX_STRIKES {
            (count + 1) as u8
        } else {
            MAX_STRIKES
        },
    }
}

/// The table after a strike against `peer`.
pub open spec fn after_strike(counts: Map<Address, u8>, peer: Address) -> Map<Address, u8> {
    if peer.exempt() {
        counts
    } else {
        counts.insert(peer, raised(lookup(counts, peer)))
    }
}

/// What a strike against `peer` reports.
pub open spec fn outcome_of_strike(counts: Map<Address, u8>, peer: Address) -> StrikeOutcome {
    let count = raised(lookup(counts, peer));
    if peer.exempt() {
        StrikeOutcome::Exempt
    } else if count >= MAX_STRIKES {
        StrikeOutcome::BanDue { count }
    } else {
        StrikeOutcome::Recorded { count }
    }
}

/// The table after the attempt to write `peer` to the blacklist file ended:
/// without the peer's entry if the write succeeded, unchanged if not.
pub open spec fn after_ban(counts: Map<Address, u8>, peer: Address, written: bool) -> Map<
    Address,
    u8,
> {
    if written {
        counts.remove(peer)
    } else {
        counts
    }
}

/// Strike counts per peer.
pub struct StrikeTracker {
    table: DashMap<Address, u8>,
}

impl View for StrikeTracker {
    type V = Map<Address, u8>;

    closed spec fn view(&self) -> Map<Address, u8> {
        table_entries(self.table)
    }
}

impl StrikeTracker {
    /// A tracker with nothing on record.
    pub fn new() -> (out: Self)
        ensures
            out@ == no_entries(),
            counts_in_range(out@),
    {
        StrikeTracker { table: table_new() }
    }

    /// The strikes on record for `peer`, if there are any.
    pub fn count(&self, peer: Address) -> (out: Option<u8>)
        ensures
            out == lookup(self@, peer),
    {
        table_get(&self.table, peer)
    }

    /// Records a strike against `peer` and tells whether the peer is now due
    /// for a ban.
    pub fn strike(&mut self, peer: Address) -> (out: StrikeOutcome)
        ensures
            final(self)@ == after_strike(old(self)@, peer),
            out == outcome_of_strike(old(self)@, peer),
            counts_in_range(old(self)@) ==> counts_in_range(final(self)@),
    {
        if peer.is_exempt() {
            return StrikeOutcome::Exempt;
        }
        let count: u8 = match table_get(&self.table, peer) {
            None => 1,
            Some(count) => if count < MAX_STRIKES {
                count + 1
            } else {
                MAX_STRIKES
            },
        };
        table_insert(&mut self.table, peer, count);
        if count >= MAX_STRIKES {
            StrikeOutcome::BanDue { count }
        } else {
            StrikeOutcome::Recorded { count }
        }
    }

    /// Closes a ban that was due. `written` tells whether the peer's address
    /// reached the blacklist file; only then are its strikes cleared.
    pub fn resolve_ban(&mut self, peer: Address, written: bool) -> (out: BanOutcome)
        ensures
            final(self)@ == after_ban(old(self)@, peer, written),
            out == (if written {
                BanOutcome::Banned
            } else {
                BanOutcome::Deferred
            }),
            counts_in_range(old(self)@) ==> counts_in_range(final(self)@),
    {
        if written {
            table_remove(&mut self.table, peer);
            BanOutcome::Banned
        } else {
            BanOutcome::Deferred
        }
    }

    /// Clears the strikes of a peer that connected properly. Tells whether
    /// there were any.
    pub fn exonerate(&mut self, peer: Address) -> (cleared: bool)
        ensures
            final(self)@ == old(self)@.remove(peer),
            cleared == old(self)@.contains_key(peer),
            counts_in_range(old(self)@) ==> counts_in_range(final(self)@),
    {
        table_remove(&mut self.table, peer).is_some()
    }
}

/// The penalties on record: the strike table and, in the order they were
/// written, the addresses that bans have appended to the blacklist file.
pub struct Penalties {
    pub counts: Map<Address, u8>,
    pub appended: Seq<Address>,
}

/// The record after one strike against `peer` has run its course: the strike
/// is counted and, if that makes a ban due, the address is appended to the
/// file and the entry cleared. `writable` tells whether appending works; when
/// it does not, nothing is appended and the entry stays.
pub open spec fn struck(record: Penalties, peer: Address, writable: bool) -> Penalties {
    let counted = after_strike(record.counts, peer);
    if outcome_of_strike(record.counts, peer) is BanDue {
        Penalties {
            counts: after_ban(counted, peer, writable),
            appended: if writable {
                record.appended.push(peer)
            } else {
                record.appended
            },
        }
    } else {
        Penalties { counts: counted, appended: record.appended }
    }
}

/// The record after `times` strikes in a row against `peer`.
pub open spec fn struck_times(record: Penalties, peer: Address, writable: bool, times: nat) -> Penalties
    decreases times,
{
    if times == 0 {
        record
    } else {
        struck(struck_times(record, peer, writable, (times - 1) as nat), peer, writable)
    }
}

/// A strike keeps every count between one and the threshold.
pub proof fn lemma_strike_keeps_range(record: Penalties, peer: Address, writable: bool)
    requires
        counts_in_range(record.counts),
    ensures
        counts_in_range(struck(record, peer, writable).counts),
{
}

/// Below the threshold strikes only count: after `times` strikes against a
/// peer that had none, with `times` short of the threshold, the peer's count
/// is `times` and nothing was appended to the file.
pub proof fn lemma_strikes_accumulate(record: Penalties, peer: Address, writable: bool, times: nat)
    requires
        !peer.exempt(),
        !record.counts.contains_key(peer),
        0 < times < MAX_STRIKES,
    ensures
        lookup(struck_times(record, peer, writable, times).counts, peer) == Some(times as u8),
        struck_times(record, peer, writable, times).counts == record.counts.insert(
            peer,
            times as u8,
        ),
        struck_times(record, peer, writable, times).appended == record.appended,
    decreases times,
{
    reveal_with_fuel(struck_times, 2);
    if times > 1 {
        lemma_strikes_accumulate(record, peer, writable, (times - 1) as nat);
        assert(struck_times(record, peer, writable, times).counts =~= record.counts.insert(
            peer,
            times as u8,
        ));
    } else {
        assert(struck_times(record, peer, writable, 0) == record);
    }
}

/// The threshold bans: after exactly `MAX_STRIKES` strikes against a peer
/// that is not exempt and had none on record, with the file writable, the
/// peer's address has been appended to the file once, by the last strike, and
/// the peer has no entry in the table any more. Other peers' entries are as
/// they were.
pub proof fn lemma_threshold_bans(record: Penalties, peer: Address)
    requires
        !peer.exempt(),
        !record.counts.contains_key(peer),
    ensures
        struck_times(record, peer, true, MAX_STRIKES as nat).appended == record.appended.push(peer),
        !struck_times(record, peer, true, MAX_STRIKES as nat).counts.contains_key(peer),
        struck_times(record, peer, true, MAX_STRIKES as nat).counts == record.counts,
        struck_times(record, peer, true, (MAX_STRIKES - 1) as nat).appended == record.appended,
{
    lemma_strikes_accumulate(record, peer, true, (MAX_STRIKES - 1) as nat);
    let before = struck_times(record, peer, true, (MAX_STRIKES - 1) as nat);
    assert(struck_times(record, peer, true, MAX_STRIKES as nat) == struck(before, peer, true));
    assert(struck(before, peer, true).counts =~= record.counts);
}

/// A ban that cannot be written is asked for again: while the file is not
/// writable, a peer at the threshold stays there, every further strike
/// reports the ban as due, and nothing is appended.
pub proof fn lemma_failed_ban_is_retried(record: Penalties, peer: Address)
    requires
        !peer.exempt(),
        lookup(record.counts, peer) == Some(MAX_STRIKES),
    ensures
        outcome_of_strike(record.counts, peer) == (StrikeOutcome::BanDue { count: MAX_STRIKES }),
        struck(record, peer, false).counts == record.counts,
        struck(record, peer, false).appended == record.appended,
{
    assert(struck(record, peer, false).counts =~= record.counts);
}

/// Strikes against an exempt address do nothing, however many there are: no
/// count changes, no ban is due and nothing is appended to the file.
pub proof fn lemma_exempt_never_penalised(
    record: Penalties,
    peer: Address,
    writable: bool,
    times: nat,
)
    requires
        peer.exempt(),
    ensures
        struck_times(record, peer, writable, times) == record,
        outcome_of_strike(record.counts, peer) == StrikeOutcome::Exempt,
    decreases times,
{
    if times > 0 {
        lemma_exempt_never_penalised(record, peer, writable, (times - 1) as nat);
    }
}

/// A strike against one peer leaves every other peer's count alone.
pub proof fn lemma_strike_is_local(record: Penalties, peer: Address, writable: bool, other: Address)
    requires
        other != peer,
    ensures
        lookup(struck(record, peer, writable).counts, other) == lookup(record.counts, other),
{
}

} // verus!
