//! The blacklist: the set of addresses that are turned away when they
//! connect.
//!
//! The set is never edited in place. Whenever the file behind it changes, the
//! whole set is replaced by what the file now holds, so a reader sees either
//! the old set or the new one and nothing in between.

use crate::address::Address;
use crate::notation::{entries_of, parse_entries};
use std::collections::HashSet;
use vstd::prelude::*;

verus! {

broadcast use vstd::std_specs::hash::group_hash_axioms;

/// What to do with a connection that has just been accepted.
#[derive(Clone, Copy, Debug, PartialEq, Eq, Structural)]
pub enum Admission {
    /// The peer is blacklisted: close the connection at once. No frame is
    /// read and no strike recorded.
    Refuse,
    /// Hand the connection to a handler.
    Accept,
}

/// What the file watcher reports of the blacklist file.
#[derive(Clone, Copy, Debug, PartialEq, Eq, Structural)]
pub enum FileEvent {
    /// Something happened, it is not known what.
    Any,
    /// The file was opened, read or closed.
    Access,
    /// The file was created.
    Create,
    /// The file's contents, name or metadata changed.
    Modify,
    /// The file was removed.
    Remove,
    /// An event of some other kind.
    Other,
}

/// Whether the blacklist is to be loaded again after `event`: it is after a
/// modification and after nothing else.
pub fn calls_for_reload(event: FileEvent) -> (out: bool)
    ensures
        out == (event is Modify),
{
    match event {
        FileEvent::Modify => true,
        _ => false,
    }
}

/// A set of banned addresses.
pub struct Blacklist {
    v4: HashSet<u32>,
    v6: HashSet<u128>,
}

impl View for Blacklist {
    type V = Set<Address>;

    closed spec fn view(&self) -> Set<Address> {
        Set::new(
            |peer: Address|
                match peer {
                    Address::V4(number) => self.v4@.contains(number),
                    Address::V6(number) => self.v6@.contains(number),
                },
        )
    }
}

/// The addresses among the first `upto` of `entries`.
pub open spec fn listed(entries: Seq<Address>, upto: int) -> Set<Address> {
    Set::new(|peer: Address| exists|i: int| 0 <= i < upto && entries[i] == peer)
}

/// The first `entries.len()` entries are all of them.
pub proof fn lemma_listed_all(entries: Seq<Address>)
    ensures
        listed(entries, entries.len() as int) == entries.to_set(),
{
    assert forall|peer: Address|
        listed(entries, entries.len() as int).contains(peer) == entries.to_set().contains(
            peer,
        ) by {
        if entries.contains(peer) {
            let i = choose|i: int| 0 <= i < entries.len() && entries[i] == peer;
            assert(0 <= i < entries.len() && entries[i] == peer);
        }
    }
    assert(listed(entries, entries.len() as int) =~= entries.to_set());
}

impl Blacklist {
    /// The empty blacklist.
    pub fn new() -> (out: Self)
        ensures
            out@ == Set::<Address>::empty(),
    {
        let out = Blacklist { v4: HashSet::new(), v6: HashSet::new() };
        assert(out@ =~= Set::<Address>::empty());
        out
    }

    /// The blacklist that bans exactly the addresses in `entries`, however
    /// often and in whatever order they occur.
    pub fn from_addresses(entries: &[Address]) -> (out: Self)
        ensures
            out@ == entries@.to_set(),
    {
        let mut v4: HashSet<u32> = HashSet::new();
        let mut v6: HashSet<u128> = HashSet::new();
        let mut done: usize = 0;
        while done < entries.len()
            invariant
                done <= entries@.len(),
                forall|number: u32|
                    v4@.contains(number) <==> listed(entries@, done as int).contains(
                        Address::V4(number),
                    ),
                forall|number: u128|
                    v6@.contains(number) <==> listed(entries@, done as int).contains(
                        Address::V6(number),
                    ),
            decreases entries@.len() - done,
        {
            let ghost before = listed(entries@, done as int);
            let ghost after = listed(entries@, done + 1);
            assert forall|peer: Address| after.contains(peer) <==> (before.contains(peer) || peer
                == entries@[done as int]) by {
                if before.contains(peer) {
                    let i = choose|i: int| 0 <= i < done && entries@[i] == peer;
                    assert(0 <= i < done + 1 && entries@[i] == peer);
                }
                if peer == entries@[done as int] {
                    assert(0 <= done < done + 1 && entries@[done as int] == peer);
                }
            }
            match entries[done] {
                Address::V4(number) => {
                    v4.insert(number);
                },
                Address::V6(number) => {
                    v6.insert(number);
                },
            }
            done = done + 1;
        }
        let out = Blacklist { v4, v6 };
        proof {
            lemma_listed_all(entries@);
            assert(out@ =~= listed(entries@, entries@.len() as int));
        }
        out
    }

    /// Whether `peer` is banned.
    pub fn contains(&self, peer: Address) -> (out: bool)
        ensures
            out == self@.contains(peer),
    {
        match peer {
            Address::V4(number) => self.v4.contains(&number),
            Address::V6(number) => self.v6.contains(&number),
        }
    }

    /// The blacklist that a file with the contents `text` describes: one
    /// address to a line, white space around it ignored, lines that write no
    /// address passed over.
    pub fn parse(text: &[u8]) -> (out: Self)
        ensures
            out@ == entries_of(text@).to_set(),
    {
        let entries = parse_entries(text);
        Blacklist::from_addresses(entries.as_slice())
    }

    /// Replaces the whole set by what a file with the contents `text`
    /// describes. Nothing of the old set survives unless the file holds it
    /// too.
    pub fn reload(&mut self, text: &[u8])
        ensures
            final(self)@ == entries_of(text@).to_set(),
    {
        *self = Blacklist::parse(text);
    }

    /// Decides at accept time whether a connection from `peer` is let in.
    pub fn screen(&self, peer: Address) -> (out: Admission)
        ensures
            out == (if self@.contains(peer) {
                Admission::Refuse
            } else {
                Admission::Accept
            }),
    {
        if self.contains(peer) {
            Admission::Refuse
        } else {
            Admission::Accept
        }
    }
}

} // verus!
