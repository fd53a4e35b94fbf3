//! Named sets of codepoints, kept in the order of their names.

use crate::range_set::{interval, RangeSet, MAX_CODEPOINT};
use crate::text::{
    ascending, comes_before, copy_range, lemma_precedes_asymmetric, lemma_precedes_irreflexive,
    lemma_precedes_total, lemma_precedes_transitive, precedes, same,
};
use vstd::prelude::*;

verus! {

/// The map that gives each of `names` the set at its place in `sets`.
pub open spec fn assoc(names: Seq<Seq<u8>>, sets: Seq<Set<int>>) -> Map<Seq<u8>, Set<int>> {
    Map::new(|n: Seq<u8>| names.contains(n), |n: Seq<u8>| sets[names.index_of(n)])
}

/// In an ascending list a name has one place only.
pub proof fn lemma_ascending_index(names: Seq<Seq<u8>>, i: int)
    requires
        ascending(names),
        0 <= i < names.len(),
    ensures
        names.contains(names[i]),
        names.index_of(names[i]) == i,
{
    assert(names.contains(names[i]));
    let j = names.index_of(names[i]);
    lemma_precedes_irreflexive(names[i]);
    if j < i {
        assert(precedes(names[j], names[i]));
    } else if j > i {
        assert(precedes(names[i], names[j]));
    }
}

/// A name put in its place in an ascending list, with its set.
proof fn lemma_assoc_insert(
    names: Seq<Seq<u8>>,
    sets: Seq<Set<int>>,
    pos: int,
    name: Seq<u8>,
    set: Set<int>,
)
    requires
        ascending(names),
        names.len() == sets.len(),
        0 <= pos <= names.len(),
        forall|k: int| 0 <= k < pos ==> precedes(#[trigger] names[k], name),
        forall|k: int| pos <= k < names.len() ==> precedes(name, #[trigger] names[k]),
    ensures
        ascending(names.insert(pos, name)),
        assoc(names.insert(pos, name), sets.insert(pos, set)) == assoc(names, sets).insert(
            name,
            set,
        ),
{
    let more = names.insert(pos, name);
    let more_sets = sets.insert(pos, set);
    assert forall|i: int, j: int| 0 <= i < j < more.len() implies precedes(
        #[trigger] more[i],
        #[trigger] more[j],
    ) by {
        if j < pos {
            assert(precedes(names[i], names[j]));
        } else if j == pos {
            assert(precedes(names[i], name));
        } else if i < pos {
            assert(precedes(names[i], names[j - 1]));
        } else if i == pos {
            assert(precedes(name, names[j - 1]));
        } else {
            assert(precedes(names[i - 1], names[j - 1]));
        }
    }
    let left = assoc(more, more_sets);
    let right = assoc(names, sets).insert(name, set);
    assert forall|n: Seq<u8>| left.contains_key(n) <==> right.contains_key(n) by {
        if more.contains(n) {
            let k = choose|k: int| 0 <= k < more.len() && more[k] == n;
            if k < pos {
                assert(names[k] == n);
            } else if k > pos {
                assert(names[k - 1] == n);
            }
        }
        if names.contains(n) {
            let k = choose|k: int| 0 <= k < names.len() && names[k] == n;
            if k < pos {
                assert(more[k] == n);
            } else {
                assert(more[k + 1] == n);
            }
        }
        if n == name {
            assert(more[pos] == n);
        }
    }
    assert forall|n: Seq<u8>| left.contains_key(n) implies left[n] == right[n] by {
        let k = choose|k: int| 0 <= k < more.len() && more[k] == n;
        lemma_ascending_index(more, k);
        if k < pos {
            lemma_ascending_index(names, k);
            assert(names[k] == n);
            lemma_precedes_asymmetric(n, name);
        } else if k > pos {
            lemma_ascending_index(names, k - 1);
            assert(names[k - 1] == n);
            lemma_precedes_asymmetric(name, n);
        }
    }
    assert(left =~= right);
}

/// The set of one name of an ascending list replaced.
proof fn lemma_assoc_update(names: Seq<Seq<u8>>, sets: Seq<Set<int>>, pos: int, set: Set<int>)
    requires
        ascending(names),
        names.len() == sets.len(),
        0 <= pos < names.len(),
    ensures
        assoc(names, sets.update(pos, set)) == assoc(names, sets).insert(names[pos], set),
{
    let left = assoc(names, sets.update(pos, set));
    let right = assoc(names, sets).insert(names[pos], set);
    lemma_ascending_index(names, pos);
    assert forall|n: Seq<u8>| left.contains_key(n) implies left[n] == right[n] by {
        let k = choose|k: int| 0 <= k < names.len() && names[k] == n;
        lemma_ascending_index(names, k);
    }
    assert(left =~= right);
}

/// A set of codepoints under a name.
#[derive(Debug)]
pub struct Bucket {
    name: Vec<u8>,
    set: RangeSet,
}

/// Sets of codepoints by name. The names ascend, so the buckets are walked
/// in the same order whatever order they were filled in.
#[derive(Debug)]
pub struct Buckets {
    entries: Vec<Bucket>,
}

impl Buckets {
    /// The names, in order.
    pub closed spec fn names(&self) -> Seq<Seq<u8>> {
        Seq::new(self.entries@.len(), |i: int| self.entries@[i].name@)
    }

    /// The sets, each at the place of its name.
    pub closed spec fn sets(&self) -> Seq<Set<int>> {
        Seq::new(self.entries@.len(), |i: int| self.entries@[i].set@)
    }

    /// The names ascend and every set is held as its minimal list of ranges.
    pub closed spec fn wf(&self) -> bool {
        &&& ascending(self.names())
        &&& forall|i: int| 0 <= i < self.entries@.len() ==> (#[trigger] self.entries@[i]).set.wf()
    }

    /// The set of each name.
    pub open spec fn view(&self) -> Map<Seq<u8>, Set<int>> {
        assoc(self.names(), self.sets())
    }

    /// How the list of names and sets relates to the map.
    pub proof fn lemma_entries(&self)
        requires
            self.wf(),
        ensures
            ascending(self.names()),
            self.names().len() == self.sets().len(),
            forall|i: int|
                0 <= i < self.names().len() ==> self@.contains_key(#[trigger] self.names()[i])
                    && self@[self.names()[i]] == self.sets()[i],
            forall|n: Seq<u8>| self@.contains_key(n) <==> self.names().contains(n),
    {
        let names = self.names();
        assert forall|i: int| 0 <= i < names.len() implies self@.contains_key(#[trigger] names[i])
            && self@[names[i]] == self.sets()[i] by {
            lemma_ascending_index(names, i);
        }
    }

    /// No buckets.
    pub fn new() -> (r: Buckets)
        ensures
            r.wf(),
            r@ == Map::<Seq<u8>, Set<int>>::empty(),
            r.names().len() == 0,
    {
        let r = Buckets { entries: Vec::new() };
        assert(r@ =~= Map::<Seq<u8>, Set<int>>::empty());
        r
    }

    /// How many buckets there are.
    pub fn len(&self) -> (n: usize)
        ensures
            n == self.names().len(),
    {
        self.entries.len()
    }

    /// The name of the bucket at place `i`.
    pub fn name(&self, i: usize) -> (r: &Vec<u8>)
        requires
            i < self.names().len(),
        ensures
            r@ == self.names()[i as int],
    {
        &self.entries[i].name
    }

    /// The set of the bucket at place `i`.
    pub fn set(&self, i: usize) -> (r: &RangeSet)
        requires
            self.wf(),
            i < self.names().len(),
        ensures
            r@ == self.sets()[i as int],
            r.wf(),
    {
        &self.entries[i].set
    }

    /// Where `name` stands or would stand, and whether it is there.
    fn position(&self, name: &[u8]) -> (r: (usize, bool))
        requires
            self.wf(),
        ensures
            r.0 <= self.names().len(),
            forall|k: int| 0 <= k < r.0 ==> precedes(#[trigger] self.names()[k], name@),
            r.1 ==> r.0 < self.names().len() && self.names()[r.0 as int] == name@,
            !r.1 ==> forall|k: int|
                r.0 <= k < self.names().len() ==> precedes(name@, #[trigger] self.names()[k]),
    {
        let ghost names = self.names();
        let mut pos: usize = 0;
        while pos < self.entries.len() && comes_before(self.entries[pos].name.as_slice(), name)
            invariant
                pos <= self.entries.len(),
                names == self.names(),
                forall|k: int| 0 <= k < pos ==> precedes(#[trigger] names[k], name@),
            decreases self.entries.len() - pos,
        {
            pos += 1;
        }
        if pos < self.entries.len() && same(self.entries[pos].name.as_slice(), name) {
            (pos, true)
        } else {
            proof {
                assert forall|k: int| pos <= k < names.len() implies precedes(
                    name@,
                    #[trigger] names[k],
                ) by {
                    lemma_precedes_total(names[pos as int], name@);
                    if k > pos {
                        assert(precedes(names[pos as int], names[k]));
                        lemma_precedes_transitive(name@, names[pos as int], names[k]);
                    }
                }
            }
            (pos, false)
        }
    }

    /// The set under `name`, if there is one.
    pub fn get(&self, name: &[u8]) -> (r: Option<&RangeSet>)
        requires
            self.wf(),
        ensures
            match r {
                Some(set) => self@.contains_key(name@) && set@ == self@[name@] && set.wf(),
                None => !self@.contains_key(name@),
            },
    {
        let (pos, found) = self.position(name);
        if found {
            proof {
                lemma_ascending_index(self.names(), pos as int);
            }
            Some(&self.entries[pos].set)
        } else {
            proof {
                if self.names().contains(name@) {
                    let k = choose|k: int| 0 <= k < self.names().len() && self.names()[k] == name@;
                    lemma_precedes_irreflexive(name@);
                    assert(precedes(self.names()[k], name@) || precedes(name@, self.names()[k]));
                }
            }
            None
        }
    }

    /// Puts `set` under `name`, in place of any set that was there.
    pub fn insert(&mut self, name: &[u8], set: RangeSet)
        requires
            old(self).wf(),
            set.wf(),
        ensures
            final(self).wf(),
            final(self)@ == old(self)@.insert(name@, set@),
    {
        let ghost names = self.names();
        let ghost sets = self.sets();
        let (pos, found) = self.position(name);
        if found {
            proof {
                lemma_assoc_update(names, sets, pos as int, set@);
            }
            self.entries[pos].set = set;
            assert(self.names() =~= names);
            assert(self.sets() =~= sets.update(pos as int, set@));
        } else {
            proof {
                lemma_assoc_insert(names, sets, pos as int, name@, set@);
            }
            let copy = copy_range(name, 0, name.len());
            assert(name@.subrange(0, name.len() as int) =~= name@);
            self.entries.insert(pos, Bucket { name: copy, set });
            assert(self.names() =~= names.insert(pos as int, name@));
            assert(self.sets() =~= sets.insert(pos as int, set@));
        }
    }

    /// Adds the codepoints from `lo` to `hi` to the set under `name`, which
    /// starts empty where there is none yet.
    pub fn add_range(&mut self, name: &[u8], lo: u32, hi: u32)
        requires
            old(self).wf(),
            lo <= hi <= MAX_CODEPOINT,
        ensures
            final(self).wf(),
            final(self)@ == old(self)@.insert(
                name@,
                (if old(self)@.contains_key(name@) {
                    old(self)@[name@]
                } else {
                    Set::<int>::empty()
                }).union(interval(lo as int, hi as int)),
            ),
    {
        let ghost names = self.names();
        let ghost sets = self.sets();
        let (pos, found) = self.position(name);
        if found {
            proof {
                lemma_ascending_index(names, pos as int);
                lemma_assoc_update(
                    names,
                    sets,
                    pos as int,
                    sets[pos as int].union(interval(lo as int, hi as int)),
                );
            }
            self.entries[pos].set.insert_range(lo, hi);
            assert(self.names() =~= names);
            assert(self.sets() =~= sets.update(
                pos as int,
                sets[pos as int].union(interval(lo as int, hi as int)),
            ));
        } else {
            proof {
                if names.contains(name@) {
                    let k = choose|k: int| 0 <= k < names.len() && names[k] == name@;
                    lemma_precedes_irreflexive(name@);
                    assert(precedes(names[k], name@) || precedes(name@, names[k]));
                }
            }
            let mut set = RangeSet::new();
            set.insert_range(lo, hi);
            self.insert(name, set);
        }
    }

    /// Puts every bucket of `other` into this collection, in place of any
    /// bucket of the same name.
    pub fn merge(&mut self, other: &Buckets)
        requires
            old(self).wf(),
            other.wf(),
        ensures
            final(self).wf(),
            final(self)@ == old(self)@.union_prefer_right(other@),
    {
        let ghost start = self@;
        let ghost names = other.names();
        let mut i: usize = 0;
        proof {
            other.lemma_entries();
            assert(self@ =~= start.union_prefer_right(
                other@.restrict(Set::new(|n: Seq<u8>| names.take(0).contains(n))),
            ));
        }
        while i < other.len()
            invariant
                i <= other.names().len(),
                names == other.names(),
                self.wf(),
                other.wf(),
                self@ == start.union_prefer_right(
                    other@.restrict(Set::new(|n: Seq<u8>| names.take(i as int).contains(n))),
                ),
            decreases other.names().len() - i,
        {
            let ghost before = self@;
            let set = other.set(i).duplicate();
            self.insert(other.name(i).as_slice(), set);
            proof {
                other.lemma_entries();
                let t0 = names.take(i as int);
                let t1 = names.take(i + 1);
                let head = Set::new(|n: Seq<u8>| t0.contains(n));
                let more = Set::new(|n: Seq<u8>| t1.contains(n));
                assert forall|n: Seq<u8>| more.contains(n) <==> (head.contains(n) || n
                    == names[i as int]) by {
                    if t1.contains(n) {
                        let k = choose|k: int| 0 <= k < t1.len() && t1[k] == n;
                        if k < i {
                            assert(t0[k] == n);
                        }
                    }
                    if t0.contains(n) {
                        let k = choose|k: int| 0 <= k < t0.len() && t0[k] == n;
                        assert(t1[k] == n);
                    }
                    if n == names[i as int] {
                        assert(t1[i as int] == n);
                    }
                }
                assert(self@ =~= start.union_prefer_right(other@.restrict(more)));
            }
            i += 1;
        }
        proof {
            other.lemma_entries();
            assert(names.take(i as int) =~= names);
            assert(other@.restrict(Set::new(|n: Seq<u8>| names.contains(n))) =~= other@);
        }
    }
}

} // verus!
