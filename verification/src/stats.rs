//! The summary of a run: how many files moved, by extension tag.

use vstd::prelude::*;
use vstd::multiset::Multiset;

verus! {

/// A count of moved files for each extension tag.
///
/// Its view is the bag of recorded tags: a tag occurs in it once for each file
/// that was counted under it.
#[derive(Debug)]
pub struct StatsMap {
    entries: Vec<(String, u64)>,
}

/// The bag that holds `tag` `n` times and nothing else.
pub open spec fn copies(tag: Seq<char>, n: nat) -> Multiset<Seq<char>>
    decreases n,
{
    if n == 0 {
        Multiset::empty()
    } else {
        copies(tag, (n - 1) as nat).insert(tag)
    }
}

/// The bag that a list of tags with their counts stands for.
pub open spec fn bag_of(entries: Seq<(String, u64)>) -> Multiset<Seq<char>>
    decreases entries.len(),
{
    if entries.len() == 0 {
        Multiset::empty()
    } else {
        bag_of(entries.drop_last()).add(copies(entries.last().0@, entries.last().1 as nat))
    }
}

/// No tag stands twice in `entries`.
pub open spec fn distinct_tags(entries: Seq<(String, u64)>) -> bool {
    forall|i: int, j: int|
        0 <= i < entries.len() && 0 <= j < entries.len() && i != j ==> (#[trigger] entries[i]).0@
            != (#[trigger] entries[j]).0@
}

/// `copies(tag, n)` holds `tag` `n` times, nothing else, and so `n` items.
pub proof fn lemma_copies(tag: Seq<char>, n: nat, v: Seq<char>)
    ensures
        copies(tag, n).count(v) == (if v == tag { n } else { 0 }),
        copies(tag, n).len() == n,
    decreases n,
{
    broadcast use vstd::multiset::group_multiset_axioms;
    if n > 0 {
        lemma_copies(tag, (n - 1) as nat, v);
    }
}

/// How often `v` occurs in the bag of `entries` where no tag stands twice:
/// as often as the entry with that tag says, and not at all without one.
pub proof fn lemma_bag_count(entries: Seq<(String, u64)>, v: Seq<char>)
    requires
        distinct_tags(entries),
    ensures
        forall|i: int|
            0 <= i < entries.len() && (#[trigger] entries[i]).0@ == v ==> bag_of(entries).count(v)
                == entries[i].1,
        (forall|i: int| 0 <= i < entries.len() ==> (#[trigger] entries[i]).0@ != v) ==> bag_of(
            entries,
        ).count(v) == 0,
    decreases entries.len(),
{
    broadcast use vstd::multiset::group_multiset_axioms;
    if entries.len() > 0 {
        let before = entries.drop_last();
        lemma_bag_count(before, v);
        lemma_copies(entries.last().0@, entries.last().1 as nat, v);
        assert forall|i: int| 0 <= i < entries.len() && (#[trigger] entries[i]).0@ == v implies bag_of(
            entries,
        ).count(v) == entries[i].1 by {
            if i < entries.len() - 1 {
                assert(before[i] == entries[i]);
            } else {
                assert forall|j: int| 0 <= j < before.len() implies (#[trigger] before[j]).0@ != v by {
                    assert(before[j] == entries[j]);
                }
            }
        }
        if forall|i: int| 0 <= i < entries.len() ==> (#[trigger] entries[i]).0@ != v {
            assert forall|j: int| 0 <= j < before.len() implies (#[trigger] before[j]).0@ != v by {
                assert(before[j] == entries[j]);
            }
        }
    }
}

/// The bag of a list grows by the last entry's copies.
pub proof fn lemma_bag_push(entries: Seq<(String, u64)>, entry: (String, u64))
    ensures
        bag_of(entries.push(entry)) == bag_of(entries).add(copies(entry.0@, entry.1 as nat)),
{
    assert(entries.push(entry).drop_last() == entries);
}

/// Raising the count of one entry by one adds its tag to the bag once.
pub proof fn lemma_bag_bump(entries: Seq<(String, u64)>, i: int, entry: (String, u64))
    requires
        0 <= i < entries.len(),
        entry.0@ == entries[i].0@,
        entry.1 == entries[i].1 + 1,
    ensures
        bag_of(entries.update(i, entry)) == bag_of(entries).insert(entry.0@),
    decreases entries.len(),
{
    broadcast use vstd::multiset::group_multiset_axioms;
    let after = entries.update(i, entry);
    if i == entries.len() - 1 {
        assert(after.drop_last() == entries.drop_last());
    } else {
        lemma_bag_bump(entries.drop_last(), i, entry);
        assert(after.drop_last() == entries.drop_last().update(i, entry));
    }
}

impl View for StatsMap {
    type V = Multiset<Seq<char>>;

    closed spec fn view(&self) -> Multiset<Seq<char>> {
        bag_of(self.entries@)
    }
}

impl StatsMap {
    #[verifier::type_invariant]
    spec fn well_formed(&self) -> bool {
        &&& distinct_tags(self.entries@)
        &&& forall|i: int| 0 <= i < self.entries@.len() ==> (#[trigger] self.entries@[i]).1 >= 1
    }

    /// A summary in which nothing is counted.
    pub fn new() -> (stats: StatsMap)
        ensures
            stats@ == Multiset::<Seq<char>>::empty(),
    {
        StatsMap { entries: Vec::new() }
    }

    /// The position of the entry for `tag`, if there is one.
    fn position(&self, tag: &String) -> (at: Option<usize>)
        ensures
            match at {
                Some(i) => i < self.entries@.len() && self.entries@[i as int].0@ == tag@,
                None => forall|j: int|
                    0 <= j < self.entries@.len() ==> (#[trigger] self.entries@[j]).0@ != tag@,
            },
    {
        let mut i: usize = 0;
        while i < self.entries.len()
            invariant
                i <= self.entries@.len(),
                forall|j: int| 0 <= j < i ==> (#[trigger] self.entries@[j]).0@ != tag@,
            decreases self.entries@.len() - i,
        {
            if self.entries[i].0 == *tag {
                return Some(i);
            }
            i += 1;
        }
        None
    }

    /// Counts one more file under `tag`: its count goes up by one, or starts at
    /// one where the tag is new. No other count changes.
    pub fn record(self, tag: String) -> (stats: StatsMap)
        requires
            self@.count(tag@) < u64::MAX,
        ensures
            stats@ == self@.insert(tag@),
    {
        proof {
            use_type_invariant(&self);
            lemma_bag_count(self.entries@, tag@);
        }
        let at = self.position(&tag);
        let ghost before = self.entries@;
        let mut entries = self.entries;
        match at {
            Some(i) => {
                let count = entries[i].1;
                proof {
                    let entry = (tag, (count + 1) as u64);
                    lemma_bag_bump(before, i as int, entry);
                    let after = before.update(i as int, entry);
                    assert forall|a: int, b: int|
                        0 <= a < after.len() && 0 <= b < after.len() && a != b implies
                        (#[trigger] after[a]).0@ != (#[trigger] after[b]).0@ by {
                        assert(after[a].0@ == before[a].0@);
                        assert(after[b].0@ == before[b].0@);
                    }
                }
                entries.set(i, (tag, count + 1));
            },
            None => {
                proof {
                    broadcast use vstd::multiset::group_multiset_axioms;
                    let entry = (tag, 1u64);
                    lemma_bag_push(before, entry);
                    assert(copies(tag@, 1) == copies(tag@, 0).insert(tag@));
                    let after = before.push(entry);
                    assert forall|a: int, b: int|
                        0 <= a < after.len() && 0 <= b < after.len() && a != b implies
                        (#[trigger] after[a]).0@ != (#[trigger] after[b]).0@ by {
                        if a < before.len() {
                            assert(after[a] == before[a]);
                        }
                        if b < before.len() {
                            assert(after[b] == before[b]);
                        }
                    }
                }
                entries.push((tag, 1));
            },
        }
        StatsMap { entries }
    }

    /// How many files were counted under `tag`.
    pub fn count(&self, tag: &str) -> (n: u64)
        ensures
            n == self@.count(tag@),
    {
        proof {
            use_type_invariant(self);
        }
        let owned = tag.to_owned();
        proof {
            lemma_bag_count(self.entries@, tag@);
        }
        match self.position(&owned) {
            Some(i) => self.entries[i].1,
            None => 0,
        }
    }

    /// Whether nothing was counted.
    pub fn is_empty(&self) -> (empty: bool)
        ensures
            empty == (self@.len() == 0),
    {
        proof {
            broadcast use vstd::multiset::group_multiset_axioms;
            use_type_invariant(self);
            if self.entries@.len() > 0 {
                lemma_bag_count(self.entries@, self.entries@[0].0@);
            }
        }
        self.entries.len() == 0
    }

    /// The counted tags, each once and with its count. Together they stand for
    /// the same bag as the summary itself.
    pub fn entries(&self) -> (list: Vec<(String, u64)>)
        ensures
            bag_of(list@) == self@,
            distinct_tags(list@),
            forall|i: int| 0 <= i < list@.len() ==> (#[trigger] list@[i]).1 >= 1,
    {
        proof {
            use_type_invariant(self);
        }
        let mut list: Vec<(String, u64)> = Vec::new();
        let mut i: usize = 0;
        while i < self.entries.len()
            invariant
                i <= self.entries@.len(),
                list@ == self.entries@.take(i as int),
            decreases self.entries@.len() - i,
        {
            let tag = self.entries[i].0.clone();
            let count = self.entries[i].1;
            proof {
                assert(self.entries@.take(i + 1) == self.entries@.take(i as int).push(
                    self.entries@[i as int],
                ));
            }
            list.push((tag, count));
            i += 1;
        }
        proof {
            assert(self.entries@.take(i as int) == self.entries@);
        }
        list
    }
}

} // verus!
