//! A small table from texts to values, kept as a list.

use crate::text::same_text;
use vstd::prelude::*;

verus! {

/// Values by text; no text has two.
#[derive(Debug)]
pub struct Table<V> {
    entries: Vec<(String, V)>,
}

/// What a list of entries says.
pub open spec fn entries_map<V>(s: Seq<(String, V)>) -> Map<Seq<char>, V>
    decreases s.len(),
{
    if s.len() == 0 {
        Map::empty()
    } else {
        entries_map(s.drop_last()).insert(s.last().0@, s.last().1)
    }
}

/// No text stands in the list twice.
pub open spec fn distinct<V>(s: Seq<(String, V)>) -> bool {
    forall|i: int, j: int|
        #![trigger s[i], s[j]]
        0 <= i < j < s.len() ==> s[i].0@ != s[j].0@
}

/// What the entries say, entry by entry.
proof fn lemma_entries<V>(s: Seq<(String, V)>)
    requires
        distinct(s),
    ensures
        forall|i: int|
            #![trigger s[i]]
            0 <= i < s.len() ==> entries_map(s).dom().contains(s[i].0@) && entries_map(
                s,
            )[s[i].0@] == s[i].1,
        forall|k: Seq<char>| #[trigger]
            entries_map(s).dom().contains(k) ==> exists|i: int|
                0 <= i < s.len() && #[trigger] s[i].0@ == k,
    decreases s.len(),
{
    if s.len() > 0 {
        let t = s.drop_last();
        assert forall|i: int, j: int|
            #![trigger t[i], t[j]]
            0 <= i < j < t.len() implies t[i].0@ != t[j].0@ by {
            assert(t[i] == s[i] && t[j] == s[j]);
        }
        lemma_entries(t);
        assert forall|i: int|
            #![trigger s[i]]
            0 <= i < s.len() implies entries_map(s).dom().contains(s[i].0@) && entries_map(
            s,
        )[s[i].0@] == s[i].1 by {
            if i < s.len() - 1 {
                assert(t[i] == s[i]);
                assert(s[i].0@ != s.last().0@);
            }
        }
        assert forall|k: Seq<char>| #[trigger] entries_map(s).dom().contains(k) implies exists|
            i: int,
        |
            0 <= i < s.len() && #[trigger] s[i].0@ == k by {
            if k == s.last().0@ {
                assert(s[s.len() - 1].0@ == k);
            } else {
                assert(entries_map(t).dom().contains(k));
                let i = choose|i: int| 0 <= i < t.len() && #[trigger] t[i].0@ == k;
                assert(s[i].0@ == k);
            }
        }
    }
}

impl<V> View for Table<V> {
    type V = Map<Seq<char>, V>;

    closed spec fn view(&self) -> Map<Seq<char>, V> {
        entries_map(self.entries@)
    }
}

impl<V> Table<V> {
    /// No text has two values.
    pub closed spec fn wf(self) -> bool {
        distinct(self.entries@)
    }

    /// The entry at a place of the list.
    pub closed spec fn entry(self, i: int) -> (Seq<char>, V) {
        (self.entries@[i].0@, self.entries@[i].1)
    }

    /// How many entries there are.
    pub closed spec fn size(self) -> nat {
        self.entries@.len()
    }

    /// The entries are what the table says.
    pub proof fn lemma_listed(self)
        requires
            self.wf(),
        ensures
            forall|i: int|
                #![trigger self.entry(i)]
                0 <= i < self.size() ==> self@.dom().contains(self.entry(i).0)
                    && self@[self.entry(i).0] == self.entry(i).1,
            forall|k: Seq<char>| #[trigger]
                self@.dom().contains(k) ==> exists|i: int|
                    0 <= i < self.size() && #[trigger] self.entry(i).0 == k,
    {
        lemma_entries(self.entries@);
        assert forall|i: int|
            #![trigger self.entry(i)]
            0 <= i < self.size() implies self@.dom().contains(self.entry(i).0)
            && self@[self.entry(i).0] == self.entry(i).1 by {
            assert(self.entries@[i].0@ == self.entry(i).0);
        }
        assert forall|k: Seq<char>| #[trigger] self@.dom().contains(k) implies exists|i: int|
            0 <= i < self.size() && #[trigger] self.entry(i).0 == k by {
            let i = choose|i: int| 0 <= i < self.entries@.len() && #[trigger] self.entries@[i].0@ == k;
            assert(self.entry(i).0 == k);
        }
    }

    /// An empty table.
    pub fn new() -> (t: Self)
        ensures
            t.wf(),
            t@ == Map::<Seq<char>, V>::empty(),
    {
        Table { entries: Vec::new() }
    }

    /// How many entries there are.
    pub fn len(&self) -> (n: usize)
        ensures
            n == self.size(),
    {
        self.entries.len()
    }

    /// The text of the entry at a place of the list.
    pub fn key_at(&self, i: usize) -> (k: &str)
        requires
            i < self.size(),
        ensures
            k@ == self.entry(i as int).0,
    {
        self.entries[i].0.as_str()
    }

    /// The value of the entry at a place of the list.
    pub fn value_at(&self, i: usize) -> (v: &V)
        requires
            i < self.size(),
        ensures
            *v == self.entry(i as int).1,
    {
        &self.entries[i].1
    }

    /// The place of a text in the list.
    fn find(&self, key: &str) -> (r: Option<usize>)
        requires
            self.wf(),
        ensures
            match r {
                Some(i) => i < self.entries@.len() && self.entries@[i as int].0@ == key@,
                None => forall|i: int|
                    0 <= i < self.entries@.len() ==> (#[trigger] self.entries@[i]).0@ != key@,
            },
    {
        let mut i: usize = 0;
        while i < self.entries.len()
            invariant
                i <= self.entries@.len(),
                forall|k: int| 0 <= k < i ==> (#[trigger] self.entries@[k]).0@ != key@,
            decreases self.entries@.len() - i,
        {
            if same_text(self.entries[i].0.as_str(), key) {
                return Some(i);
            }
            i += 1;
        }
        None
    }

    /// Gives a text a value, in place of the one it had.
    pub fn insert(&mut self, key: String, value: V)
        requires
            old(self).wf(),
        ensures
            final(self).wf(),
            final(self)@ == old(self)@.insert(key@, value),
    {
        let ghost before = self.entries@;
        proof {
            lemma_entries(before);
        }
        match self.find(key.as_str()) {
            Some(i) => {
                self.entries[i] = (key, value);
                proof {
                    assert forall|a: int, b: int|
                        #![trigger self.entries@[a], self.entries@[b]]
                        0 <= a < b < self.entries@.len() implies self.entries@[a].0@
                        != self.entries@[b].0@ by {
                        assert(before[a].0@ != before[b].0@);
                    }
                    lemma_entries(self.entries@);
                    lemma_replaced(before, self.entries@, i as int);
                }
            },
            None => {
                self.entries.push((key, value));
                proof {
                    assert forall|a: int, b: int|
                        #![trigger self.entries@[a], self.entries@[b]]
                        0 <= a < b < self.entries@.len() implies self.entries@[a].0@
                        != self.entries@[b].0@ by {
                        assert(before[a] == self.entries@[a]);
                        if b < before.len() {
                            assert(before[b] == self.entries@[b]);
                        }
                    }
                    assert(self.entries@.drop_last() =~= before);
                }
            },
        }
    }
}

/// A list whose entry at `i` got another value says the same but for that text.
proof fn lemma_replaced<V>(before: Seq<(String, V)>, after: Seq<(String, V)>, i: int)
    requires
        distinct(before),
        distinct(after),
        0 <= i < before.len(),
        before.len() == after.len(),
        before[i].0@ == after[i].0@,
        forall|k: int| 0 <= k < before.len() && k != i ==> before[k] == after[k],
    ensures
        entries_map(after) == entries_map(before).insert(after[i].0@, after[i].1),
{
    lemma_entries(before);
    lemma_entries(after);
    let m = entries_map(before).insert(after[i].0@, after[i].1);
    assert forall|k: Seq<char>| #[trigger]
        entries_map(after).dom().contains(k) == m.dom().contains(k) && (m.dom().contains(k)
            ==> m[k] == entries_map(after)[k]) by {
        if entries_map(after).dom().contains(k) {
            let j = choose|j: int| 0 <= j < after.len() && #[trigger] after[j].0@ == k;
            if j != i {
                assert(before[j] == after[j]);
                assert(before[j].0@ == k);
                assert(k != after[i].0@);
            } else {
                assert(after[i].0@ == k);
            }
        }
        if m.dom().contains(k) {
            if k == after[i].0@ {
                assert(entries_map(after).dom().contains(after[i].0@));
            } else {
                let j = choose|j: int| 0 <= j < before.len() && #[trigger] before[j].0@ == k;
                assert(j != i);
                assert(before[j] == after[j]);
                assert(after[j].0@ == k);
            }
        }
    }
    assert(entries_map(after) =~= m);
}

} // verus!
