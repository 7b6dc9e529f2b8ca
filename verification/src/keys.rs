//! A table from texts to numbers.

use std::collections::HashMap;
use vstd::prelude::*;

use crate::text::text_chars;

verus! {

broadcast use vstd::std_specs::hash::group_hash_axioms;

const MODULUS: u64 = 2_305_843_009_213_693_951;

/// The number of the bucket in which a text is kept.
pub closed spec fn fingerprint(s: Seq<char>) -> u64
    decreases s.len(),
{
    if s.len() == 0 {
        7
    } else {
        ((fingerprint(s.drop_last()) * 1_099_511_628_211 + s.last() as int) % MODULUS as int) as u64
    }
}

fn fold_char(h: u64, c: char) -> (out: u64)
    ensures
        out == (h * 1_099_511_628_211 + c as int) % MODULUS as int,
{
    ((h as u128 * 1_099_511_628_211 + c as u32 as u128) % MODULUS as u128) as u64
}

fn fingerprint_of(s: &str) -> (out: u64)
    ensures
        out == fingerprint(s@),
{
    let chars = text_chars(s);
    let mut h: u64 = 7;
    let mut i: usize = 0;
    while i < chars.len()
        invariant
            i <= chars.len(),
            h == fingerprint(chars@.take(i as int)),
        decreases chars.len() - i,
    {
        h = fold_char(h, chars[i]);
        i = i + 1;
        assert(chars@.take(i as int).drop_last() =~= chars@.take(i - 1));
    }
    assert(chars@.take(chars.len() as int) =~= chars@);
    h
}

/// A map from texts to numbers, kept in buckets by fingerprint.
pub struct KeyIndex {
    buckets: HashMap<u64, Vec<(String, u64)>>,
    contents: Ghost<Map<Seq<char>, u64>>,
}

impl View for KeyIndex {
    type V = Map<Seq<char>, u64>;

    closed spec fn view(&self) -> Map<Seq<char>, u64> {
        self.contents@
    }
}

impl KeyIndex {
    /// Every entry stands in the bucket of its fingerprint, and nothing else does.
    pub closed spec fn wf(&self) -> bool {
        &&& forall|h: u64, i: int|
            #![trigger self.buckets@[h]@[i]]
            self.buckets@.contains_key(h) && 0 <= i < self.buckets@[h]@.len() ==> {
                let entry = self.buckets@[h]@[i];
                &&& fingerprint(entry.0@) == h
                &&& self@.contains_key(entry.0@)
                &&& self@[entry.0@] == entry.1
            }
        &&& forall|key: Seq<char>| #[trigger]
            self@.contains_key(key) ==> {
                let h = fingerprint(key);
                &&& self.buckets@.contains_key(h)
                &&& exists|i: int|
                    0 <= i < self.buckets@[h]@.len() && (#[trigger] self.buckets@[h]@[i]).0@ == key
            }
    }

    pub fn new() -> (out: KeyIndex)
        ensures
            out.wf(),
            out@ == Map::<Seq<char>, u64>::empty(),
    {
        KeyIndex { buckets: HashMap::new(), contents: Ghost(Map::empty()) }
    }

    /// The number that is kept for a text.
    pub fn get(&self, key: &String) -> (out: Option<u64>)
        requires
            self.wf(),
        ensures
            match out {
                Some(value) => self@.contains_key(key@) && value == self@[key@],
                None => !self@.contains_key(key@),
            },
    {
        let h = fingerprint_of(key.as_str());
        match self.buckets.get(&h) {
            None => None,
            Some(bucket) => {
                let mut i: usize = 0;
                while i < bucket.len()
                    invariant
                        i <= bucket.len(),
                        self.wf(),
                        self.buckets@.contains_key(h),
                        self.buckets@[h] == *bucket,
                        forall|j: int| 0 <= j < i ==> (#[trigger] bucket@[j]).0@ != key@,
                    decreases bucket.len() - i,
                {
                    if bucket[i].0 == *key {
                        assert(self.buckets@[h]@[i as int].0@ == key@);
                        return Some(bucket[i].1);
                    }
                    i = i + 1;
                }
                None
            },
        }
    }

    /// Keeps a number for a text that has none yet.
    pub fn insert(&mut self, key: String, value: u64)
        requires
            old(self).wf(),
            !old(self)@.contains_key(key@),
        ensures
            final(self).wf(),
            final(self)@ == old(self)@.insert(key@, value),
    {
        let ghost before = *self;
        let ghost text = key@;
        let h = fingerprint_of(key.as_str());
        let mut bucket = match self.buckets.remove(&h) {
            Some(bucket) => bucket,
            None => Vec::new(),
        };
        let ghost old_bucket = bucket@;
        bucket.push((key, value));
        self.buckets.insert(h, bucket);
        self.contents = Ghost(self.contents@.insert(text, value));
        proof {
            assert(self.buckets@[h]@ == old_bucket.push((key, value)));
            assert forall|g: u64, i: int|
                #![trigger self.buckets@[g]@[i]]
                self.buckets@.contains_key(g) && 0 <= i < self.buckets@[g]@.len() implies {
                let entry = self.buckets@[g]@[i];
                &&& fingerprint(entry.0@) == g
                &&& self@.contains_key(entry.0@)
                &&& self@[entry.0@] == entry.1
            } by {
                if g == h {
                    if i < old_bucket.len() {
                        assert(before.buckets@[h]@[i] == old_bucket[i]);
                    }
                } else {
                    assert(before.buckets@[g]@[i] == self.buckets@[g]@[i]);
                }
            }
            assert forall|k: Seq<char>| #[trigger] self@.contains_key(k) implies {
                let g = fingerprint(k);
                &&& self.buckets@.contains_key(g)
                &&& exists|i: int|
                    0 <= i < self.buckets@[g]@.len() && (#[trigger] self.buckets@[g]@[i]).0@ == k
            } by {
                let g = fingerprint(k);
                if k == text {
                    assert(self.buckets@[h]@[old_bucket.len() as int].0@ == k);
                } else {
                    assert(before@.contains_key(k));
                    let i = choose|i: int|
                        0 <= i < before.buckets@[g]@.len()
                            && (#[trigger] before.buckets@[g]@[i]).0@ == k;
                    assert(self.buckets@[g]@[i] == before.buckets@[g]@[i]);
                }
            }
        }
    }
}

} // verus!
