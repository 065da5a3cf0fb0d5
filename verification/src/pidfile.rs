//! The registry of live child processes and the format of its store.
//!
//! The registry holds the process identifiers of the children that run.
//! After every change it says what the store on disk is to hold, so that a
//! later run can end the children that a crashed run left behind. The
//! store is a text with one decimal process identifier per line. Reading
//! and writing the store and ending processes are left to the caller.

use crate::text::{
    decimal_digits, decimal_text, is_digit, lemma_decimal_round_trip, lemma_leading_whitespace, lemma_split_nonempty, lemma_trailing_whitespace, parse_u32, parse_u32_text, split, split_on, trim, trimmed,
};
use std::collections::HashSet;
use vstd::prelude::*;
use vstd::std_specs::hash::*;
use vstd::std_specs::iter::IteratorSpec;
use vstd::string::*;

verus! {

broadcast use vstd::std_specs::hash::group_hash_axioms;

/// The registry of live children.
pub struct PidFile {
    pids: HashSet<u32>,
}

impl View for PidFile {
    type V = Set<u32>;

    closed spec fn view(&self) -> Set<u32> {
        self.pids@
    }
}

/// What is to be done to the store after a change of the registry.
#[derive(Clone, Debug, PartialEq, Eq)]
pub enum StoreAction {
    /// Replace the store's contents by this text.
    Write(String),
    /// Remove the store.
    Remove,
}

/// Processes to end with their descendants, and whether the store is to be
/// removed after that.
#[derive(Clone, Debug, PartialEq, Eq)]
pub struct Reaping {
    pub kill: Vec<u32>,
    pub remove_store: bool,
}

/// The process identifiers that a list of lines holds: each line is
/// trimmed of white space and read as a decimal number; lines that are
/// none are passed over.
pub open spec fn pids_in(lines: Seq<Seq<char>>) -> Seq<u32>
    decreases lines.len(),
{
    if lines.len() == 0 {
        Seq::empty()
    } else {
        let before = pids_in(lines.drop_last());
        match parse_u32(trimmed(lines.last())) {
            Some(pid) => before.push(pid),
            None => before,
        }
    }
}

/// The process identifiers that the text of a store holds, in its order.
pub open spec fn stored_pids(text: Seq<char>) -> Seq<u32> {
    pids_in(split_on(text, '\n'))
}

/// The text of a store that lists the given process identifiers: each in
/// decimal on a line of its own.
pub open spec fn rendered(listing: Seq<u32>) -> Seq<char>
    decreases listing.len(),
{
    if listing.len() == 0 {
        Seq::empty()
    } else {
        rendered(listing.drop_last()) + decimal_digits(listing.last() as nat) + seq!['\n']
    }
}

/// Whether `text` lists the process identifiers in `pids`, each once, in
/// some order.
pub open spec fn is_rendering_of(text: Seq<char>, pids: Set<u32>) -> bool {
    exists|listing: Seq<u32>|
        listing.no_duplicates() && listing.to_set() == pids && text == #[trigger] rendered(listing)
}

/// The decimal numbers of a listing, one for each line.
pub open spec fn number_lines(listing: Seq<u32>) -> Seq<Seq<char>> {
    listing.map_values(|pid: u32| decimal_digits(pid as nat))
}

impl PidFile {
    /// The name of the store's file, which lies in the directory for
    /// temporary files.
    pub fn store_file_name() -> (name: String)
        ensures
            name@ == "tequio-pids.txt"@,
    {
        String::from_str("tequio-pids.txt")
    }

    /// An empty registry.
    pub fn new() -> (registry: PidFile)
        ensures
            registry@ == Set::<u32>::empty(),
    {
        PidFile { pids: HashSet::new() }
    }

    /// Whether the child is registered.
    pub fn contains(&self, pid: u32) -> (held: bool)
        ensures
            held == self@.contains(pid),
    {
        self.pids.contains(&pid)
    }

    /// Whether no child is registered.
    pub fn is_empty(&self) -> (empty: bool)
        ensures
            empty == (self@ == Set::<u32>::empty()),
    {
        let empty = self.pids.is_empty();
        proof {
            if empty {
                assert(self@ =~= Set::<u32>::empty());
            }
        }
        empty
    }

    /// The registered children, each once, in no particular order.
    pub fn pids(&self) -> (listing: Vec<u32>)
        ensures
            listing@.no_duplicates(),
            listing@.to_set() == self@,
    {
        let mut listing: Vec<u32> = Vec::new();
        let ghost keys = self.pids.iter().remaining().unref();
        for pid in it: self.pids.iter()
            invariant
                it.seq().unref() == keys,
                keys.no_duplicates(),
                keys.to_set() == self@,
                listing@ == keys.take(it.index() as int),
        {
            proof {
                assert(it.seq().unref()[it.index() as int] == *pid);
            }
            listing.push(*pid);
        }
        proof {
            assert(listing@ =~= keys);
        }
        listing
    }

    /// The text of a store that lists the registered children.
    fn render(&self) -> (text: String)
        ensures
            is_rendering_of(text@, self@),
    {
        let listing = self.pids();
        let mut text = String::new();
        let mut i: usize = 0;
        proof {
            assert(listing@.take(0) =~= Seq::<u32>::empty());
        }
        while i < listing.len()
            invariant
                i <= listing.len(),
                text@ == rendered(listing@.take(i as int)),
            decreases listing.len() - i,
        {
            let ghost before = text@;
            proof {
                let next = listing@.take(i + 1);
                assert(next.drop_last() =~= listing@.take(i as int));
                assert(next.last() == listing@[i as int]);
                reveal_strlit("\n");
                assert("\n"@ =~= seq!['\n']);
            }
            let number = decimal_text(listing[i]);
            text.append(number.as_str());
            text.append("\n");
            i += 1;
        }
        proof {
            assert(listing@.take(listing.len() as int) =~= listing@);
        }
        text
    }

    /// Registers a child. The store is to list the registered children
    /// after that.
    pub fn register(&mut self, pid: u32) -> (action: StoreAction)
        ensures
            final(self)@ == old(self)@.insert(pid),
            action matches StoreAction::Write(text) && is_rendering_of(text@, final(self)@),
    {
        self.pids.insert(pid);
        StoreAction::Write(self.render())
    }

    /// Takes a child out of the registry. The store is to list the children
    /// that are left, and to be removed where none is left.
    pub fn unregister(&mut self, pid: u32) -> (action: StoreAction)
        ensures
            final(self)@ == old(self)@.remove(pid),
            match action {
                StoreAction::Remove => final(self)@ == Set::<u32>::empty(),
                StoreAction::Write(text) => final(self)@ != Set::<u32>::empty() && is_rendering_of(
                    text@,
                    final(self)@,
                ),
            },
    {
        self.pids.remove(&pid);
        if self.is_empty() {
            StoreAction::Remove
        } else {
            StoreAction::Write(self.render())
        }
    }

    /// What a run finds when it starts. Where a store was found, `store` is
    /// its text: the processes that it lists are to be ended, in its order,
    /// and the store is to be removed. Where none was found, nothing is to
    /// be done. The registry stays as it is.
    pub fn load_and_kill_existing(&self, store: Option<&str>) -> (reaping: Reaping)
        ensures
            match store {
                Some(text) => reaping.kill@ == stored_pids(text@) && reaping.remove_store,
                None => reaping.kill@ == Seq::<u32>::empty() && !reaping.remove_store,
            },
    {
        match store {
            Some(text) => Reaping { kill: read_store(text), remove_store: true },
            None => Reaping { kill: Vec::new(), remove_store: false },
        }
    }

    /// Empties the registry at the end of a run: every child that was
    /// registered is to be ended, and the store is to be removed.
    pub fn cleanup(&mut self) -> (reaping: Reaping)
        ensures
            final(self)@ == Set::<u32>::empty(),
            reaping.kill@.no_duplicates(),
            reaping.kill@.to_set() == old(self)@,
            reaping.remove_store,
    {
        let kill = self.pids();
        self.pids.clear();
        Reaping { kill, remove_store: true }
    }
}

/// The process identifiers that the text of a store holds, in its order.
pub fn read_store(text: &str) -> (pids: Vec<u32>)
    ensures
        pids@ == stored_pids(text@),
{
    let lines = split(text, '\n');
    let ghost all = lines.deep_view();
    let mut pids: Vec<u32> = Vec::new();
    let mut i: usize = 0;
    proof {
        assert(all.take(0) =~= Seq::<Seq<char>>::empty());
    }
    while i < lines.len()
        invariant
            i <= lines.len(),
            all == lines.deep_view(),
            pids@ == pids_in(all.take(i as int)),
        decreases lines.len() - i,
    {
        proof {
            let next = all.take(i + 1);
            assert(next.drop_last() =~= all.take(i as int));
            assert(next.last() == lines@[i as int]@);
        }
        let line = trim(lines[i].as_str());
        match parse_u32_text(line.as_str()) {
            Some(pid) => {
                pids.push(pid);
            },
            None => {},
        }
        i += 1;
    }
    proof {
        assert(all.take(lines.len() as int) =~= all);
    }
    pids
}

/// Registering a child twice leaves the registry as registering it once
/// does.
pub proof fn lemma_register_idempotent(pids: Set<u32>, pid: u32)
    ensures
        pids.insert(pid).insert(pid) == pids.insert(pid),
        pids.insert(pid).contains(pid),
{
    assert(pids.insert(pid).insert(pid) =~= pids.insert(pid));
}

/// Splitting a text that ends with a run free of separators.
proof fn lemma_split_plain_tail(s: Seq<char>, tail: Seq<char>, sep: char)
    requires
        forall|i: int| 0 <= i < tail.len() ==> tail[i] != sep,
    ensures
        split_on(s + tail, sep) == split_on(s, sep).drop_last().push(
            split_on(s, sep).last() + tail,
        ),
    decreases tail.len(),
{
    lemma_split_nonempty(s, sep);
    let pieces = split_on(s, sep);
    if tail.len() == 0 {
        assert(s + tail =~= s);
        assert(pieces.last() + tail =~= pieces.last());
        assert(pieces.drop_last().push(pieces.last()) =~= pieces);
    } else {
        let front = tail.drop_last();
        lemma_split_plain_tail(s, front, sep);
        assert((s + tail).drop_last() =~= s + front);
        assert((s + tail).last() == tail.last());
        let before = pieces.drop_last().push(pieces.last() + front);
        assert(before.drop_last() =~= pieces.drop_last());
        assert(before.last() == pieces.last() + front);
        assert((pieces.last() + front).push(tail.last()) =~= pieces.last() + tail);
    }
}

/// The lines of a rendered listing are its numbers, followed by the empty
/// rest behind the last line break.
proof fn lemma_rendered_lines(listing: Seq<u32>)
    ensures
        split_on(rendered(listing), '\n') == number_lines(listing).push(Seq::<char>::empty()),
    decreases listing.len(),
{
    if listing.len() == 0 {
        assert(number_lines(listing).push(Seq::<char>::empty()) =~= seq![Seq::<char>::empty()]);
    } else {
        let front = listing.drop_last();
        let digits = decimal_digits(listing.last() as nat);
        lemma_rendered_lines(front);
        lemma_decimal_round_trip(listing.last() as nat);
        let start = rendered(front);
        assert forall|i: int| 0 <= i < digits.len() implies digits[i] != '\n' by {
            assert(is_digit(digits[i]));
        }
        lemma_split_plain_tail(start, digits, '\n');
        let pieces = split_on(start, '\n');
        assert(pieces.drop_last() =~= number_lines(front));
        assert(pieces.last() + digits =~= digits);
        let text = start + digits + seq!['\n'];
        assert(text.drop_last() =~= start + digits);
        assert(text.last() == '\n');
        assert(number_lines(front).push(digits) =~= number_lines(listing));
    }
}

/// Reading the numbers of a listing gives the listing.
proof fn lemma_numbers_read_back(listing: Seq<u32>)
    ensures
        pids_in(number_lines(listing)) == listing,
    decreases listing.len(),
{
    if listing.len() > 0 {
        let front = listing.drop_last();
        lemma_numbers_read_back(front);
        let digits = decimal_digits(listing.last() as nat);
        lemma_decimal_round_trip(listing.last() as nat);
        assert(number_lines(listing).drop_last() =~= number_lines(front));
        assert(number_lines(listing).last() == digits);
        assert(is_digit(digits[0]) && is_digit(digits[digits.len() - 1]));
        lemma_leading_whitespace(digits, 0);
        lemma_trailing_whitespace(digits.skip(0), 0);
        assert(trimmed(digits) =~= digits);
        assert(front.push(listing.last()) =~= listing);
    } else {
        assert(listing =~= Seq::<u32>::empty());
    }
}

/// What is written to the store is read back from it: the text that lists
/// process identifiers holds just these, in the same order.
pub proof fn lemma_store_round_trip(listing: Seq<u32>)
    ensures
        stored_pids(rendered(listing)) == listing,
{
    lemma_rendered_lines(listing);
    lemma_numbers_read_back(listing);
    let lines = number_lines(listing).push(Seq::<char>::empty());
    assert(lines.drop_last() =~= number_lines(listing));
    assert(lines.last() =~= Seq::<char>::empty());
    assert(trimmed(Seq::<char>::empty()) =~= Seq::<char>::empty());
}

/// A store written after a change of the registry holds the registered
/// children and no others, each once.
pub proof fn lemma_store_holds_registry(text: Seq<char>, pids: Set<u32>)
    requires
        is_rendering_of(text, pids),
    ensures
        stored_pids(text).to_set() == pids,
        stored_pids(text).no_duplicates(),
{
    let listing = choose|listing: Seq<u32>|
        listing.no_duplicates() && listing.to_set() == pids && text == #[trigger] rendered(listing);
    lemma_store_round_trip(listing);
}

} // verus!
