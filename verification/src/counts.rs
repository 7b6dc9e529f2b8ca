//! Counting by type name.

use vstd::prelude::*;

verus! {

/// One more of a label.
pub open spec fn counted(counts: Map<Seq<char>, usize>, label: Seq<char>, by: usize) -> Map<
    Seq<char>,
    usize,
> {
    let before: usize = if counts.contains_key(label) {
        counts[label]
    } else {
        0
    };
    counts.insert(label, before.saturating_add(by))
}

/// How often each label was counted, in the order in which the labels first came.
#[derive(Debug)]
pub struct TypeCounts {
    pub entries: Vec<(String, usize)>,
}

/// The index of a label among entries.
pub open spec fn entry_at(entries: Seq<(String, usize)>, label: Seq<char>, i: int) -> bool {
    0 <= i < entries.len() && entries[i].0@ == label
}

pub open spec fn entry_index(entries: Seq<(String, usize)>, label: Seq<char>) -> int {
    choose|i: int| entry_at(entries, label, i)
}

impl View for TypeCounts {
    type V = Map<Seq<char>, usize>;

    open spec fn view(&self) -> Map<Seq<char>, usize> {
        Map::new(
            |label: Seq<char>| exists|i: int| entry_at(self.entries@, label, i),
            |label: Seq<char>|
self.entries@[entry_index(self.entries@, label)].1,
        )
    }
}

impl TypeCounts {
    /// No label has two entries.
    pub open spec fn wf(&self) -> bool {
        forall|i: int, j: int|
            #![trigger self.entries@[i], self.entries@[j]]
            0 <= i < j < self.entries@.len() ==> self.entries@[i].0@ != self.entries@[j].0@
    }

    pub fn new() -> (out: TypeCounts)
        ensures
            out.wf(),
            out@ == Map::<Seq<char>, usize>::empty(),
    {
        let out = TypeCounts { entries: Vec::new() };
        assert(out@ =~= Map::<Seq<char>, usize>::empty());
        out
    }

    /// The count of a label; zero where it has none.
    pub fn get(&self, label: &String) -> (count: usize)
        requires
            self.wf(),
        ensures
            count == (if self@.contains_key(label@) { self@[label@] } else { 0 }),
    {
        let mut i: usize = 0;
        while i < self.entries.len()
            invariant
                i <= self.entries.len(),
                self.wf(),
                forall|j: int| 0 <= j < i ==> (#[trigger] self.entries@[j]).0@ != label@,
            decreases self.entries.len() - i,
        {
            if self.entries[i].0 == *label {
                assert(entry_at(self.entries@, label@, i as int));
                return self.entries[i].1;
            }
            i = i + 1;
        }
        0
    }

    /// Adds to the count of a label.
    pub fn count(&mut self, label: String, by: usize)
        requires
            old(self).wf(),
        ensures
            final(self).wf(),
            final(self)@ == counted(old(self)@, label@, by),
    {
        let ghost before = *self;
        let mut i: usize = 0;
        while i < self.entries.len()
            invariant
                i <= self.entries.len(),
                *self == before,
                before == *old(self),
                self.wf(),
                forall|j: int| 0 <= j < i ==> (#[trigger] self.entries@[j]).0@ != label@,
            decreases self.entries.len() - i,
        {
            if self.entries[i].0 == label {
                let old_count: usize = self.entries[i].1;
                self.entries.set(i, (label, old_count.saturating_add(by)));
                proof {
                    assert(entry_at(before.entries@, label@, i as int));
                    assert forall|l: Seq<char>| #[trigger] self@.contains_key(l) == before@.contains_key(l)
                        && (self@.contains_key(l) && l != label@ ==> self@[l] == before@[l]) by {
                        if before@.contains_key(l) {
                            let j = entry_index(before.entries@, l);
                            assert(entry_at(self.entries@, l, j));
                            let k = entry_index(self.entries@, l);
                            assert(self.entries@[j].0@ == self.entries@[k].0@);
                        }
                        if self@.contains_key(l) {
                            let j = entry_index(self.entries@, l);
                            assert(entry_at(before.entries@, l, j));
                        }
                    }
                    assert(entry_at(self.entries@, label@, i as int));
                    let k = entry_index(self.entries@, label@);
                    assert(self.entries@[i as int].0@ == self.entries@[k].0@);
                    let b = entry_index(before.entries@, label@);
                    assert(before.entries@[i as int].0@ == before.entries@[b].0@);
                    assert(self@.contains_key(label@));
                    assert(self@[label@] == counted(before@, label@, by)[label@]);
                    assert(self@ =~= counted(before@, label@, by));
                }
                return;
            }
            i = i + 1;
        }
        self.entries.push((label, by));
        proof {
            let n = before.entries@.len() as int;
            assert(entry_at(self.entries@, label@, n));
            assert(!before@.contains_key(label@));
            let m = entry_index(self.entries@, label@);
            assert(self.entries@[n].0@ == self.entries@[m].0@);
            assert forall|l: Seq<char>| l != label@ implies #[trigger] self@.contains_key(l)
                == before@.contains_key(l) && (self@.contains_key(l) ==> self@[l] == before@[l]) by {
                if before@.contains_key(l) {
                    let j = entry_index(before.entries@, l);
                    assert(entry_at(self.entries@, l, j));
                    let k = entry_index(self.entries@, l);
                    assert(self.entries@[j].0@ == self.entries@[k].0@);
                }
                if self@.contains_key(l) {
                    let j = entry_index(self.entries@, l);
                    assert(entry_at(before.entries@, l, j));
                }
            }
            assert(self@.contains_key(label@));
            assert(self@[label@] == counted(before@, label@, by)[label@]);
            assert(self@ =~= counted(before@, label@, by));
        }
    }
}

/// Two counts added: each label has the sum of what the two have.
pub open spec fn summed(a: Map<Seq<char>, usize>, b: Map<Seq<char>, usize>) -> Map<
    Seq<char>,
    usize,
> {
    Map::new(
        |label: Seq<char>| a.contains_key(label) || b.contains_key(label),
        |label: Seq<char>|
            (if a.contains_key(label) {
                a[label]
            } else {
                0
            }).saturating_add(
                if b.contains_key(label) {
                    b[label]
                } else {
                    0
                },
            ),
    )
}

impl TypeCounts {
    /// Adds all counts of another one.
    pub fn count_all(&mut self, other: &TypeCounts)
        requires
            old(self).wf(),
            other.wf(),
        ensures
            final(self).wf(),
            final(self)@ == summed(old(self)@, other@),
    {
        let ghost before = self@;
        let ghost entries = other.entries@;
        let mut i: usize = 0;
        proof {
            assert(self@ =~= summed_prefix(before, entries, 0));
        }
        while i < other.entries.len()
            invariant
                i <= other.entries.len(),
                entries == other.entries@,
                other.wf(),
                self.wf(),
                self@ == summed_prefix(before, entries, i as int),
            decreases other.entries.len() - i,
        {
            let label = other.entries[i].0.clone();
            let by: usize = other.entries[i].1;
            let ghost now = self@;
            self.count(label, by);
            proof {
                assert forall|l: Seq<char>| #[trigger]
                    self@.contains_key(l) == summed_prefix(before, entries, i + 1).contains_key(l) by {
                    lemma_prefix_grows(entries, i as int, l);
                }
                assert forall|l: Seq<char>| self@.contains_key(l) implies #[trigger] self@[l]
                    == summed_prefix(before, entries, i + 1)[l] by {
                    lemma_prefix_grows(entries, i as int, l);
                }
                assert(self@ =~= summed_prefix(before, entries, i + 1));
            }
            i = i + 1;
        }
        proof {
            assert(self@ =~= summed(before, other@)) by {
                assert forall|l: Seq<char>| has_label(entries, entries.len() as int, l)
                    == #[trigger] other@.contains_key(l) by {
                    if other@.contains_key(l) {
                        let k = entry_index(entries, l);
                        assert(entries[k].0@ == l);
                    }
                    if has_label(entries, entries.len() as int, l) {
                        let k = choose|k: int|
                            0 <= k < entries.len() && (#[trigger] entries[k]).0@ == l;
                        assert(entry_at(entries, l, k));
                    }
                }
                assert forall|l: Seq<char>| #[trigger] other@.contains_key(l) implies label_value(
                    entries,
                    entries.len() as int,
                    l,
                ) == other@[l] by {
                    let k = entry_index(entries, l);
                    assert(entry_at(entries, l, k));
                    lemma_label_value(entries, entries.len() as int, l, k);
                }
            }
        }
    }
}

/// Whether one of the first `n` entries has a label.
pub open spec fn has_label(entries: Seq<(String, usize)>, n: int, label: Seq<char>) -> bool {
    exists|k: int| 0 <= k < n && (#[trigger] entries[k]).0@ == label
}

/// The number of a label among the first `n` entries.
pub open spec fn label_value(entries: Seq<(String, usize)>, n: int, label: Seq<char>) -> usize
    decreases n,
{
    if n <= 0 {
        0
    } else if entries[n - 1].0@ == label {
        entries[n - 1].1
    } else {
        label_value(entries, n - 1, label)
    }
}

pub proof fn lemma_label_value(
    entries: Seq<(String, usize)>,
    n: int,
    label: Seq<char>,
    k: int,
)
    requires
        0 <= k < n <= entries.len(),
        entries[k].0@ == label,
        forall|i: int, j: int|
            #![trigger entries[i], entries[j]]
            0 <= i < j < entries.len() ==> entries[i].0@ != entries[j].0@,
    ensures
        label_value(entries, n, label) == entries[k].1,
    decreases n,
{
    if k < n - 1 {
        assert(entries[n - 1].0@ != entries[k].0@);
        lemma_label_value(entries, n - 1, label, k);
    }
}

pub proof fn lemma_prefix_grows(entries: Seq<(String, usize)>, n: int, label: Seq<char>)
    requires
        0 <= n < entries.len(),
        forall|i: int, j: int|
            #![trigger entries[i], entries[j]]
            0 <= i < j < entries.len() ==> entries[i].0@ != entries[j].0@,
    ensures
        has_label(entries, n + 1, label) == (has_label(entries, n, label) || entries[n].0@
            == label),
        entries[n].0@ == label ==> !has_label(entries, n, label),
        label_value(entries, n + 1, label) == (if entries[n].0@ == label {
            entries[n].1
        } else {
            label_value(entries, n, label)
        }),
{
    if has_label(entries, n, label) {
        let k = choose|k: int| 0 <= k < n && (#[trigger] entries[k]).0@ == label;
        assert(entries[k].0@ == label);
        assert(entries[k].0@ != entries[n].0@);
    }
    if entries[n].0@ == label {
        assert(has_label(entries, n + 1, label));
    }
    if has_label(entries, n + 1, label) {
        let k = choose|k: int| 0 <= k < n + 1 && (#[trigger] entries[k]).0@ == label;
        if k < n {
            assert(has_label(entries, n, label));
        }
    }
}

/// A count with the first `n` entries of another one added.
pub open spec fn summed_prefix(
    a: Map<Seq<char>, usize>,
    entries: Seq<(String, usize)>,
    n: int,
) -> Map<Seq<char>, usize> {
    Map::new(
        |label: Seq<char>| a.contains_key(label) || has_label(entries, n, label),
        |label: Seq<char>|
            (if a.contains_key(label) {
                a[label]
            } else {
                0
            }).saturating_add(
                if has_label(entries, n, label) {
                    label_value(entries, n, label)
                } else {
                    0
                },
            ),
    )
}

} // verus!
