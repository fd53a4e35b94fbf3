//! Codepoints, closed ranges of them, and sets kept as minimal sorted ranges.

use crate::error::Error;
use vstd::prelude::*;

verus! {

/// The largest codepoint.
pub const MAX_CODEPOINT: u32 = 0x10FFFF;

/// A closed interval of codepoints.
#[derive(Clone, Copy, Debug, PartialEq, Eq, Structural)]
pub struct CodepointRange {
    pub lo: u32,
    pub hi: u32,
}

/// The integers from `lo` to `hi`, both included.
pub open spec fn interval(lo: int, hi: int) -> Set<int> {
    Set::new(|cp: int| lo <= cp <= hi)
}

/// Every codepoint.
pub open spec fn all_codepoints() -> Set<int> {
    interval(0, MAX_CODEPOINT as int)
}

impl CodepointRange {
    /// The bounds are in order and inside the codepoint domain.
    pub open spec fn wf(self) -> bool {
        self.lo <= self.hi <= MAX_CODEPOINT
    }

    /// Whether `cp` lies in the range.
    pub open spec fn contains(self, cp: int) -> bool {
        self.lo <= cp <= self.hi
    }

    /// The range from `lo` to `hi`, refused where the bounds are reversed or
    /// leave the codepoint domain.
    pub fn new(lo: u32, hi: u32) -> (r: Result<CodepointRange, Error>)
        ensures
            lo <= hi <= MAX_CODEPOINT ==> r == Ok::<CodepointRange, Error>(
                CodepointRange { lo, hi },
            ),
            !(lo <= hi <= MAX_CODEPOINT) ==> r == Err::<CodepointRange, Error>(Error::InvalidRange),
    {
        if lo <= hi && hi <= MAX_CODEPOINT {
            Ok(CodepointRange { lo, hi })
        } else {
            Err(Error::InvalidRange)
        }
    }

    /// How many codepoints the range holds.
    pub fn count(&self) -> (n: u32)
        requires
            self.wf(),
        ensures
            n == self.hi - self.lo + 1,
    {
        self.hi - self.lo + 1
    }
}

/// Whether one of the first `n` ranges of `rs` holds `cp`.
pub open spec fn covered_upto(rs: Seq<CodepointRange>, n: int, cp: int) -> bool {
    exists|k: int| 0 <= k < n && k < rs.len() && #[trigger] rs[k].contains(cp)
}

/// Whether one of the ranges of `rs` holds `cp`.
pub open spec fn covered(rs: Seq<CodepointRange>, cp: int) -> bool {
    covered_upto(rs, rs.len() as int, cp)
}

/// The codepoints that the ranges of `rs` hold.
pub open spec fn cover(rs: Seq<CodepointRange>) -> Set<int> {
    Set::new(|cp: int| covered(rs, cp))
}

/// The ranges are well formed, ascending, and no two of them touch: between
/// any two lies a codepoint that neither holds. No shorter list of ranges
/// covers the same set.
pub open spec fn minimal(rs: Seq<CodepointRange>) -> bool {
    &&& forall|i: int| 0 <= i < rs.len() ==> #[trigger] rs[i].wf()
    &&& forall|i: int, j: int|
        #![trigger rs[i], rs[j]]
        0 <= i < j < rs.len() ==> rs[i].hi + 1 < rs[j].lo
}

/// A set of codepoints, held as its minimal list of ranges.
#[derive(Debug)]
pub struct RangeSet {
    ranges: Vec<CodepointRange>,
}

/// What replacing the ranges `first..last` of `old` by `cur` covers, where
/// `cur` is the union of those ranges and `lo..=hi`.
proof fn lemma_splice(
    old: Seq<CodepointRange>,
    first: int,
    last: int,
    lo: int,
    hi: int,
    cur: CodepointRange,
    out: Seq<CodepointRange>,
)
    requires
        minimal(old),
        0 <= first <= last <= old.len(),
        0 <= lo <= hi <= MAX_CODEPOINT,
        out == old.take(first).push(cur) + old.skip(last),
        forall|k: int| 0 <= k < first ==> (#[trigger] old[k]).hi + 1 < lo,
        forall|k: int| last <= k < old.len() ==> hi + 1 < (#[trigger] old[k]).lo,
        forall|cp: int|
            cur.contains(cp) <==> (lo <= cp <= hi || exists|k: int|
                first <= k < last && #[trigger] old[k].contains(cp)),
        cur.wf(),
        cur.lo == lo || (first < last && cur.lo == old[first].lo),
        cur.hi == hi || (first < last && cur.hi == old[last - 1].hi),
    ensures
        minimal(out),
        cover(out) == cover(old).union(interval(lo, hi)),
{
    assert(out.len() == first + 1 + old.len() - last);
    assert forall|i: int| 0 <= i < out.len() implies #[trigger] out[i].wf() by {
        if i < first {
            assert(out[i] == old[i]);
        } else if i == first {
            assert(out[i] == cur);
        } else {
            assert(out[i] == old[last + i - first - 1]);
        }
    }
    assert forall|i: int, j: int| 0 <= i < j < out.len() implies (#[trigger] out[i]).hi + 1 < (
    #[trigger] out[j]).lo by {
        if j < first {
            assert(out[i] == old[i] && out[j] == old[j]);
        } else if j == first {
            assert(out[i] == old[i] && out[j] == cur);
            if cur.lo != lo {
                assert(old[i].hi + 1 < old[first].lo);
            }
        } else {
            let m = last + j - first - 1;
            assert(out[j] == old[m]);
            if i < first {
                assert(out[i] == old[i]);
                assert(old[i].hi + 1 < old[m].lo);
            } else if i == first {
                assert(out[i] == cur);
                if cur.hi != hi {
                    assert(old[last - 1].hi + 1 < old[m].lo);
                }
            } else {
                let l = last + i - first - 1;
                assert(out[i] == old[l]);
                assert(old[l].hi + 1 < old[m].lo);
            }
        }
    }
    assert forall|cp: int| covered(out, cp) <==> (covered(old, cp) || lo <= cp <= hi) by {
        if covered(out, cp) {
            let k = choose|k: int| 0 <= k < out.len() && #[trigger] out[k].contains(cp);
            if k < first {
                assert(old[k].contains(cp));
            } else if k == first {
                assert(cur.contains(cp));
                if !(lo <= cp <= hi) {
                    let m = choose|m: int| first <= m < last && #[trigger] old[m].contains(cp);
                    assert(old[m].contains(cp));
                }
            } else {
                assert(old[last + k - first - 1].contains(cp));
            }
        }
        if lo <= cp <= hi {
            assert(out[first].contains(cp));
        }
        if covered(old, cp) {
            let k = choose|k: int| 0 <= k < old.len() && #[trigger] old[k].contains(cp);
            if k < first {
                assert(out[k].contains(cp));
            } else if k < last {
                assert(cur.contains(cp));
                assert(out[first].contains(cp));
            } else {
                assert(out[first + 1 + k - last] == old[k]);
                assert(out[first + 1 + k - last].contains(cp));
            }
        }
    }
    assert(cover(out) =~= cover(old).union(interval(lo, hi)));
}

/// Two minimal lists that cover the same set start with the same range.
proof fn lemma_first_range(a: Seq<CodepointRange>, b: Seq<CodepointRange>)
    requires
        minimal(a),
        minimal(b),
        a.len() > 0,
        b.len() > 0,
        cover(a) == cover(b),
    ensures
        a[0] == b[0],
{
    assert(a[0].wf() && b[0].wf());
    assert(a[0].contains(a[0].lo as int));
    assert(b[0].contains(b[0].lo as int));
    assert(cover(a).contains(a[0].lo as int));
    assert(cover(b).contains(b[0].lo as int));
    assert(b[0].lo <= a[0].lo) by {
        assert(covered(b, a[0].lo as int));
        let m = choose|m: int| 0 <= m < b.len() && #[trigger] b[m].contains(a[0].lo as int);
        if m > 0 {
            assert(b[0].hi + 1 < b[m].lo);
        }
    }
    assert(a[0].lo <= b[0].lo) by {
        assert(covered(a, b[0].lo as int));
        let m = choose|m: int| 0 <= m < a.len() && #[trigger] a[m].contains(b[0].lo as int);
        if m > 0 {
            assert(a[0].hi + 1 < a[m].lo);
        }
    }
    if a[0].hi < b[0].hi {
        let cp = a[0].hi + 1;
        assert(b[0].contains(cp));
        assert(cover(b).contains(cp));
        assert(covered(a, cp));
        let k = choose|k: int| 0 <= k < a.len() && #[trigger] a[k].contains(cp);
        if k > 0 {
            assert(a[0].hi + 1 < a[k].lo);
        }
    }
    if b[0].hi < a[0].hi {
        let cp = b[0].hi + 1;
        assert(a[0].contains(cp));
        assert(cover(a).contains(cp));
        assert(covered(b, cp));
        let k = choose|k: int| 0 <= k < b.len() && #[trigger] b[k].contains(cp);
        if k > 0 {
            assert(b[0].hi + 1 < b[k].lo);
        }
    }
}

/// What the ranges after the first cover: what the whole list covers, but
/// for the first range.
proof fn lemma_tail_cover(a: Seq<CodepointRange>, cp: int)
    requires
        minimal(a),
        a.len() > 0,
    ensures
        covered(a.skip(1), cp) <==> (covered(a, cp) && !a[0].contains(cp)),
        minimal(a.skip(1)),
{
    let t = a.skip(1);
    assert forall|i: int| 0 <= i < t.len() implies #[trigger] t[i].wf() by {
        assert(t[i] == a[i + 1]);
    }
    assert forall|i: int, j: int| 0 <= i < j < t.len() implies (#[trigger] t[i]).hi + 1 < (
    #[trigger] t[j]).lo by {
        assert(t[i] == a[i + 1] && t[j] == a[j + 1]);
    }
    if covered(t, cp) {
        let k = choose|k: int| 0 <= k < t.len() && #[trigger] t[k].contains(cp);
        assert(t[k] == a[k + 1]);
        assert(a[k + 1].contains(cp));
        assert(a[0].hi + 1 < a[k + 1].lo);
    }
    if covered(a, cp) && !a[0].contains(cp) {
        let k = choose|k: int| 0 <= k < a.len() && #[trigger] a[k].contains(cp);
        assert(t[k - 1] == a[k]);
        assert(t[k - 1].contains(cp));
    }
}

/// A set has one minimal list of ranges only: what is emitted for a set
/// does not depend on how the set came about.
pub proof fn lemma_minimal_unique(a: Seq<CodepointRange>, b: Seq<CodepointRange>)
    requires
        minimal(a),
        minimal(b),
        cover(a) == cover(b),
    ensures
        a == b,
    decreases a.len(),
{
    if a.len() == 0 || b.len() == 0 {
        if a.len() > 0 {
            assert(a[0].wf());
            assert(a[0].contains(a[0].lo as int));
            assert(cover(a).contains(a[0].lo as int));
            assert(covered(b, a[0].lo as int));
        }
        if b.len() > 0 {
            assert(b[0].wf());
            assert(b[0].contains(b[0].lo as int));
            assert(cover(b).contains(b[0].lo as int));
            assert(covered(a, b[0].lo as int));
        }
        assert(a =~= b);
    } else {
        lemma_first_range(a, b);
        let ta = a.skip(1);
        let tb = b.skip(1);
        assert forall|cp: int| covered(ta, cp) <==> covered(tb, cp) by {
            lemma_tail_cover(a, cp);
            lemma_tail_cover(b, cp);
            assert(cover(a).contains(cp) == covered(a, cp));
            assert(cover(b).contains(cp) == covered(b, cp));
            assert(a[0].contains(cp) == b[0].contains(cp));
        }
        lemma_tail_cover(a, 0);
        lemma_tail_cover(b, 0);
        assert(cover(ta) =~= cover(tb));
        lemma_minimal_unique(ta, tb);
        assert forall|i: int| 0 <= i < a.len() implies a[i] == b[i] by {
            if i > 0 {
                assert(ta[i - 1] == a[i]);
                assert(tb[i - 1] == b[i]);
            }
        }
        assert(a.len() == ta.len() + 1 && b.len() == tb.len() + 1);
        assert(a =~= b);
    }
}

impl RangeSet {
    /// The ranges held, in order.
    pub closed spec fn spec_ranges(&self) -> Seq<CodepointRange> {
        self.ranges@
    }

    /// The list of ranges is minimal.
    pub open spec fn wf(&self) -> bool {
        minimal(self.spec_ranges())
    }

    /// The codepoints in the set.
    pub open spec fn view(&self) -> Set<int> {
        cover(self.spec_ranges())
    }

    /// The empty set.
    pub fn new() -> (s: RangeSet)
        ensures
            s.wf(),
            s@ == Set::<int>::empty(),
            s.spec_ranges().len() == 0,
    {
        let s = RangeSet { ranges: Vec::new() };
        assert(s@ =~= Set::<int>::empty());
        s
    }

    /// The ranges of the set: ascending, and as few as can cover it.
    pub fn ranges(&self) -> (r: &Vec<CodepointRange>)
        ensures
            r@ == self.spec_ranges(),
    {
        &self.ranges
    }

    /// Whether the set holds no codepoint.
    pub fn is_empty(&self) -> (b: bool)
        requires
            self.wf(),
        ensures
            b == (self@ == Set::<int>::empty()),
    {
        let b = self.ranges.len() == 0;
        proof {
            if b {
                assert(self@ =~= Set::<int>::empty());
            } else {
                let r = self.ranges@[0];
                assert(r.wf());
                assert(r.contains(r.lo as int));
                assert(self@.contains(r.lo as int));
            }
        }
        b
    }

    /// A set equal to this one.
    pub fn duplicate(&self) -> (s: RangeSet)
        ensures
            s.spec_ranges() == self.spec_ranges(),
    {
        let mut out: Vec<CodepointRange> = Vec::new();
        let mut i: usize = 0;
        while i < self.ranges.len()
            invariant
                i <= self.ranges.len(),
                out@ == self.ranges@.take(i as int),
            decreases self.ranges.len() - i,
        {
            out.push(self.ranges[i]);
            assert(out@ =~= self.ranges@.take(i + 1));
            i += 1;
        }
        assert(out@ =~= self.ranges@);
        RangeSet { ranges: out }
    }

    /// Whether the set holds `cp`.
    pub fn contains(&self, cp: u32) -> (b: bool)
        requires
            self.wf(),
        ensures
            b == self@.contains(cp as int),
    {
        let mut i: usize = 0;
        while i < self.ranges.len()
            invariant
                i <= self.ranges.len(),
                !covered_upto(self.ranges@, i as int, cp as int),
            decreases self.ranges.len() - i,
        {
            let r = self.ranges[i];
            if r.lo <= cp && cp <= r.hi {
                assert(self.ranges@[i as int].contains(cp as int));
                return true;
            }
            i += 1;
        }
        false
    }

    /// Adds every codepoint from `lo` to `hi`. Ranges that the new one
    /// overlaps or touches are merged with it.
    pub fn insert_range(&mut self, lo: u32, hi: u32)
        requires
            old(self).wf(),
            lo <= hi <= MAX_CODEPOINT,
        ensures
            final(self).wf(),
            final(self)@ == old(self)@.union(interval(lo as int, hi as int)),
    {
        let ghost prev = self.ranges@;
        let n = self.ranges.len();
        let mut out: Vec<CodepointRange> = Vec::new();
        let mut i: usize = 0;
        while i < n && lo > 0 && self.ranges[i].hi < lo - 1
            invariant
                i <= n,
                n == self.ranges.len(),
                self.ranges@ == prev,
                minimal(prev),
                out@ == prev.take(i as int),
                forall|k: int| 0 <= k < i ==> (#[trigger] prev[k]).hi + 1 < lo,
            decreases n - i,
        {
            out.push(self.ranges[i]);
            assert(out@ =~= prev.take(i + 1));
            i += 1;
        }
        let first = i;
        let mut cur = CodepointRange { lo, hi };
        proof {
            assert forall|k: int| first <= k < n implies lo <= (#[trigger] prev[k]).hi + 1 by {
                if k > first {
                    assert(prev[first as int].hi + 1 < prev[k].lo);
                    assert(prev[k].wf());
                }
            }
        }
        while i < n && self.ranges[i].lo <= hi + 1
            invariant
                first <= i <= n,
                n == self.ranges.len(),
                self.ranges@ == prev,
                minimal(prev),
                lo <= hi <= MAX_CODEPOINT,
                cur.wf(),
                cur.lo <= lo,
                hi <= cur.hi,
                forall|k: int| first <= k < n ==> lo <= (#[trigger] prev[k]).hi + 1,
                forall|cp: int|
                    cur.contains(cp) <==> (lo <= cp <= hi || exists|k: int|
                        first <= k < i && #[trigger] prev[k].contains(cp)),
                cur.lo == lo || (first < i && cur.lo == prev[first as int].lo),
                cur.hi == hi || (first < i && cur.hi == prev[i - 1].hi),
            decreases n - i,
        {
            let r = self.ranges[i];
            let ghost before = cur;
            assert(prev[i as int].wf());
            if i > first {
                assert(prev[first as int].hi + 1 < prev[i as int].lo);
                assert(prev[i - 1].hi + 1 < prev[i as int].lo || i - 1 == first);
            }
            if r.lo < cur.lo {
                cur.lo = r.lo;
            }
            if r.hi > cur.hi {
                cur.hi = r.hi;
            }
            proof {
                assert forall|cp: int|
                    cur.contains(cp) <==> (lo <= cp <= hi || exists|k: int|
                        first <= k < i + 1 && #[trigger] prev[k].contains(cp)) by {
                    if cur.contains(cp) {
                        if !before.contains(cp) {
                            assert(prev[i as int].contains(cp));
                        } else if !(lo <= cp <= hi) {
                            let k = choose|k: int|
                                first <= k < i && #[trigger] prev[k].contains(cp);
                            assert(prev[k].contains(cp));
                        }
                    }
                    if exists|k: int| first <= k < i + 1 && #[trigger] prev[k].contains(cp) {
                        let k = choose|k: int|
                            first <= k < i + 1 && #[trigger] prev[k].contains(cp);
                        if k < i {
                            assert(before.contains(cp));
                        }
                    }
                }
            }
            i += 1;
        }
        let last = i;
        out.push(cur);
        proof {
            assert forall|k: int| last <= k < n implies hi + 1 < (#[trigger] prev[k]).lo by {
                if k > last {
                    assert(prev[last as int].hi + 1 < prev[k].lo);
                    assert(prev[last as int].wf());
                }
            }
            assert(out@ =~= prev.take(first as int).push(cur) + prev.skip(last as int).take(0));
        }
        while i < n
            invariant
                last <= i <= n,
                n == self.ranges.len(),
                self.ranges@ == prev,
                out@ == prev.take(first as int).push(cur) + prev.skip(last as int).take(i - last),
            decreases n - i,
        {
            out.push(self.ranges[i]);
            assert(out@ =~= prev.take(first as int).push(cur) + prev.skip(last as int).take(
                i + 1 - last,
            ));
            i += 1;
        }
        proof {
            assert(prev.skip(last as int).take(n - last) =~= prev.skip(last as int));
            lemma_splice(prev, first as int, last as int, lo as int, hi as int, cur, out@);
        }
        self.ranges = out;
    }

    /// Adds every codepoint of `other`.
    pub fn union_with(&mut self, other: &RangeSet)
        requires
            old(self).wf(),
            other.wf(),
        ensures
            final(self).wf(),
            final(self)@ == old(self)@.union(other@),
    {
        let ghost start = self@;
        let mut i: usize = 0;
        assert(self@ =~= start.union(cover(other.ranges@.take(0))));
        while i < other.ranges.len()
            invariant
                i <= other.ranges.len(),
                self.wf(),
                other.wf(),
                self@ == start.union(cover(other.ranges@.take(i as int))),
            decreases other.ranges.len() - i,
        {
            let r = other.ranges[i];
            let ghost before = self@;
            assert(other.ranges@[i as int].wf());
            self.insert_range(r.lo, r.hi);
            proof {
                let head = other.ranges@.take(i as int);
                let more = other.ranges@.take(i + 1);
                assert forall|cp: int| covered(more, cp) <==> (covered(head, cp) || r.contains(
                    cp,
                )) by {
                    if covered(more, cp) {
                        let k = choose|k: int|
                            0 <= k < more.len() && #[trigger] more[k].contains(cp);
                        if k < i {
                            assert(head[k].contains(cp));
                        }
                    }
                    if covered(head, cp) {
                        let k = choose|k: int|
                            0 <= k < head.len() && #[trigger] head[k].contains(cp);
                        assert(more[k].contains(cp));
                    }
                    if r.contains(cp) {
                        assert(more[i as int].contains(cp));
                    }
                }
                assert(self@ =~= start.union(cover(more)));
            }
            i += 1;
        }
        assert(other.ranges@.take(i as int) =~= other.ranges@);
    }

    /// The codepoints that the set does not hold.
    pub fn complement(&self) -> (s: RangeSet)
        requires
            self.wf(),
        ensures
            s.wf(),
            s@ == all_codepoints().difference(self@),
    {
        let ghost rs = self.ranges@;
        let n = self.ranges.len();
        let mut out: Vec<CodepointRange> = Vec::new();
        let mut next: u32 = 0;
        let mut i: usize = 0;
        while i < n
            invariant
                i <= n,
                n == self.ranges.len(),
                rs == self.ranges@,
                minimal(rs),
                minimal(out@),
                next <= MAX_CODEPOINT + 1,
                i == 0 ==> next == 0,
                i > 0 ==> next == rs[i - 1].hi + 1,
                forall|k: int| 0 <= k < out@.len() ==> (#[trigger] out@[k]).hi + 1 < next,
                forall|cp: int|
                    covered(out@, cp) <==> (0 <= cp < next && !covered_upto(rs, i as int, cp)),
            decreases n - i,
        {
            let r = self.ranges[i];
            let ghost before = out@;
            let ghost next_before = next;
            assert(rs[i as int].wf());
            if i > 0 {
                assert(rs[i - 1].hi + 1 < rs[i as int].lo);
            }
            if r.lo > next {
                let gap = CodepointRange { lo: next, hi: r.lo - 1 };
                out.push(gap);
                proof {
                    assert forall|a: int, b: int| 0 <= a < b < out@.len() implies (
                    #[trigger] out@[a]).hi + 1 < (#[trigger] out@[b]).lo by {
                        if b < before.len() {
                            assert(out@[a] == before[a] && out@[b] == before[b]);
                        } else {
                            assert(out@[a] == before[a]);
                        }
                    }
                    assert forall|k: int| 0 <= k < out@.len() implies (#[trigger] out@[k]).wf() by {
                        if k < before.len() {
                            assert(out@[k] == before[k]);
                        }
                    }
                }
            }
            next = r.hi + 1;
            proof {
                assert forall|k: int| 0 <= k < out@.len() implies (#[trigger] out@[k]).hi + 1
                    < next by {
                    if k < before.len() {
                        assert(out@[k] == before[k]);
                    }
                }
                assert forall|cp: int|
                    covered(out@, cp) <==> (0 <= cp < next && !covered_upto(rs, i + 1, cp)) by {
                    if covered(out@, cp) {
                        let k = choose|k: int|
                            0 <= k < out@.len() && #[trigger] out@[k].contains(cp);
                        if k < before.len() {
                            assert(before[k].contains(cp));
                            assert(covered(before, cp));
                        }
                        if covered_upto(rs, i + 1, cp) {
                            let m = choose|m: int|
                                0 <= m < i + 1 && m < rs.len() && #[trigger] rs[m].contains(cp);
                            if m < i {
                                assert(covered_upto(rs, i as int, cp));
                                if k >= before.len() {
                                    if i > 0 && m < i - 1 {
                                        assert(rs[m].hi + 1 < rs[i - 1].lo);
                                        assert(rs[i - 1].wf());
                                    }
                                }
                            }
                        }
                    }
                    if 0 <= cp < next && !covered_upto(rs, i + 1, cp) {
                        assert(!rs[i as int].contains(cp));
                        if !covered_upto(rs, i as int, cp) {
                        } else {
                            let m = choose|m: int|
                                0 <= m < i && m < rs.len() && #[trigger] rs[m].contains(cp);
                            assert(rs[m].contains(cp));
                        }
                        if cp < next_before {
                            assert(covered(before, cp));
                            let k = choose|k: int|
                                0 <= k < before.len() && #[trigger] before[k].contains(cp);
                            assert(out@[k] == before[k]);
                            assert(out@[k].contains(cp));
                        } else {
                            assert(out@[out@.len() - 1].contains(cp));
                        }
                    }
                }
            }
            i += 1;
        }
        if next <= MAX_CODEPOINT {
            let ghost before = out@;
            let tail = CodepointRange { lo: next, hi: MAX_CODEPOINT };
            out.push(tail);
            proof {
                assert forall|a: int, b: int| 0 <= a < b < out@.len() implies (#[trigger] out@[a]).hi
                    + 1 < (#[trigger] out@[b]).lo by {
                    if b < before.len() {
                        assert(out@[a] == before[a] && out@[b] == before[b]);
                    } else {
                        assert(out@[a] == before[a]);
                    }
                }
                assert forall|k: int| 0 <= k < out@.len() implies (#[trigger] out@[k]).wf() by {
                    if k < before.len() {
                        assert(out@[k] == before[k]);
                    }
                }
                assert forall|cp: int|
                    covered(out@, cp) <==> (0 <= cp <= MAX_CODEPOINT && !covered(rs, cp)) by {
                    if covered(out@, cp) {
                        let k = choose|k: int|
                            0 <= k < out@.len() && #[trigger] out@[k].contains(cp);
                        if k < before.len() {
                            assert(before[k].contains(cp));
                            assert(covered(before, cp));
                        } else if covered(rs, cp) {
                            let m = choose|m: int|
                                0 <= m < n && m < rs.len() && #[trigger] rs[m].contains(cp);
                            if m < n - 1 {
                                assert(rs[m].hi + 1 < rs[n - 1].lo);
                                assert(rs[n - 1].wf());
                            }
                        }
                    }
                    if 0 <= cp <= MAX_CODEPOINT && !covered(rs, cp) {
                        if cp < next {
                            assert(covered(before, cp));
                            let k = choose|k: int|
                                0 <= k < before.len() && #[trigger] before[k].contains(cp);
                            assert(out@[k] == before[k]);
                            assert(out@[k].contains(cp));
                        } else {
                            assert(out@[out@.len() - 1].contains(cp));
                        }
                    }
                }
            }
        } else {
            proof {
                assert forall|cp: int|
                    covered(out@, cp) <==> (0 <= cp <= MAX_CODEPOINT && !covered(rs, cp)) by {
                    if covered(rs, cp) {
                        let m = choose|m: int|
                            0 <= m < n && m < rs.len() && #[trigger] rs[m].contains(cp);
                        assert(rs[m].wf());
                    }
                }
            }
        }
        let s = RangeSet { ranges: out };
        assert(s@ =~= all_codepoints().difference(self@));
        s
    }
}

/// Two sets with the same codepoints have the same ranges.
pub proof fn lemma_same_set_same_ranges(a: RangeSet, b: RangeSet)
    requires
        a.wf(),
        b.wf(),
        a@ == b@,
    ensures
        a.spec_ranges() == b.spec_ranges(),
{
    lemma_minimal_unique(a.spec_ranges(), b.spec_ranges());
}

} // verus!
