use vstd::prelude::*;
use crate::sector::Sector;
use crate::stack::linear;
use vstd::relations::{sorted_by, total_ordering};
use crate::env::pool_laws::{
    lemma_acquire_canonical, lemma_acquire_fits, lemma_release_canonical, lemma_single_canonical,
    returnable,
};

verus! {

broadcast use vstd::seq_lib::group_seq_properties, vstd::seq_lib::group_to_multiset_ensures;

/// A half-open interval `[start, end)` of sectors on the backing device.
#[derive(Clone, Copy, Debug, PartialEq, Eq, Structural)]
pub struct Range {
    pub(crate) start: Sector,
    pub(crate) end: Sector,
}

impl Range {
    /// First sector of the interval.
    pub closed spec fn lo(self) -> int {
        self.start.0 as int
    }

    /// First sector past the interval.
    pub closed spec fn hi(self) -> int {
        self.end.0 as int
    }

    #[verifier::type_invariant]
    spec fn ordered(self) -> bool {
        self.start.0 <= self.end.0
    }

    /// Both bounds are sector numbers that fit in a `u64`.
    pub proof fn lemma_bounds(self)
        ensures
            0 <= self.lo() <= u64::MAX,
            0 <= self.hi() <= u64::MAX,
    {
    }

    /// A range is determined by its two bounds.
    pub proof fn lemma_bounds_determine(self, other: Range)
        requires
            self.lo() == other.lo(),
            self.hi() == other.hi(),
        ensures
            self == other,
    {
        assert(self.start == other.start);
        assert(self.end == other.end);
    }

    /// First sector of the interval.
    pub fn start(&self) -> (s: Sector)
        ensures
            s.0 == self.lo(),
    {
        self.start
    }

    /// First sector past the interval.
    pub fn end(&self) -> (s: Sector)
        ensures
            s.0 == self.hi(),
    {
        self.end
    }

    /// Number of sectors in the interval.
    pub fn len(&self) -> (n: Sector)
        ensures
            n.0 == self.hi() - self.lo(),
            self.lo() <= self.hi(),
    {
        proof {
            use_type_invariant(self);
        }
        self.end - self.start
    }

    /// Cuts the interval in two after its first `len` sectors.
    fn split(self, len: Sector) -> (pieces: (Range, Range))
        requires
            len.0 <= self.hi() - self.lo(),
        ensures
            pieces.0 == mk_range(self.lo(), self.lo() + len.0),
            pieces.1 == mk_range(self.lo() + len.0, self.hi()),
    {
        proof {
            use_type_invariant(&self);
        }
        let a = Range { start: self.start, end: self.start + len };
        let b = Range { start: a.end, end: self.end };
        proof {
            a.lemma_bounds_determine(mk_range(self.lo(), self.lo() + len.0));
            b.lemma_bounds_determine(mk_range(self.lo() + len.0, self.hi()));
        }
        (a, b)
    }
}

/// The range `[lo, hi)`; meaningful for bounds in `0..=u64::MAX`.
pub closed spec fn mk_range(lo: int, hi: int) -> Range {
    Range { start: Sector(lo as u64), end: Sector(hi as u64) }
}

/// `mk_range` keeps the bounds it is given.
pub broadcast proof fn lemma_mk_range(lo: int, hi: int)
    requires
        0 <= lo <= u64::MAX,
        0 <= hi <= u64::MAX,
    ensures
        #[trigger] mk_range(lo, hi).lo() == lo,
        mk_range(lo, hi).hi() == hi,
{
}

/// The order of ranges: by first sector, then by end.
pub open spec fn lex_lt(a: Range, b: Range) -> bool {
    a.lo() < b.lo() || (a.lo() == b.lo() && a.hi() < b.hi())
}

/// The reflexive closure of `lex_lt`.
pub open spec fn lex_le(a: Range, b: Range) -> bool {
    lex_lt(a, b) || a == b
}

/// Strictly increasing in the order of ranges: the enumeration of a set.
pub open spec fn strictly_sorted(s: Seq<Range>) -> bool {
    forall|i: int, j: int| 0 <= i < j < s.len() ==> lex_lt(#[trigger] s[i], #[trigger] s[j])
}

/// The strictly increasing enumeration of a finite set of ranges.
pub open spec fn sorted_enum(set: Set<Range>) -> Seq<Range> {
    choose|s: Seq<Range>| strictly_sorted(s) && s.to_set() == set
}

/// Whether sector `p` lies in some range of `set`.
pub open spec fn covered(set: Set<Range>, p: int) -> bool {
    exists|r: Range| #[trigger] set.contains(r) && r.lo() <= p < r.hi()
}

/// The sectors that the ranges of `set` cover.
pub open spec fn sectors_of(set: Set<Range>) -> Set<int> {
    Set::new(|p: int| covered(set, p))
}

/// The sectors of a single range.
pub open spec fn span(r: Range) -> Set<int> {
    Set::new(|p: int| r.lo() <= p < r.hi())
}

/// No range is empty, and two different ranges neither overlap nor touch:
/// each free extent is held by exactly one range.
pub open spec fn canonical(set: Set<Range>) -> bool {
    &&& forall|r: Range| #[trigger] set.contains(r) ==> r.lo() < r.hi()
    &&& forall|r1: Range, r2: Range|
        #[trigger] set.contains(r1) && #[trigger] set.contains(r2) && r1 != r2 ==> r1.hi() < r2.lo()
            || r2.hi() < r1.lo()
}

/// `lex_lt` is a strict total order.
pub proof fn lemma_lex_lt_facts(a: Range, b: Range, c: Range)
    ensures
        !lex_lt(a, a),
        lex_lt(a, b) ==> !lex_lt(b, a),
        lex_lt(a, b) && lex_lt(b, c) ==> lex_lt(a, c),
        lex_lt(a, b) || lex_lt(b, a) || a == b,
{
    if !lex_lt(a, b) && !lex_lt(b, a) {
        a.lemma_bounds_determine(b);
    }
}

/// Two strictly increasing enumerations of the same set are the same sequence.
pub proof fn lemma_sorted_unique(s: Seq<Range>, t: Seq<Range>)
    requires
        strictly_sorted(s),
        strictly_sorted(t),
        s.to_set() == t.to_set(),
    ensures
        s == t,
    decreases s.len(),
{
    if s.len() == 0 {
        if t.len() > 0 {
            assert(t.to_set().contains(t[0]));
            assert(false);
        }
        assert(s =~= t);
    } else {
        if t.len() == 0 {
            assert(s.to_set().contains(s[0]));
            assert(false);
        }
        assert(t.to_set().contains(s[0]));
        assert(s.to_set().contains(t[0]));
        let j = choose|j: int| 0 <= j < t.len() && t[j] == s[0];
        let i = choose|i: int| 0 <= i < s.len() && s[i] == t[0];
        if j > 0 {
            lemma_lex_lt_facts(t[0], t[j], t[0]);
            if i > 0 {
                lemma_lex_lt_facts(s[0], s[i], s[0]);
            }
            assert(false);
        }
        let s1 = s.drop_first();
        let t1 = t.drop_first();
        assert forall|x: Range| s1.to_set().contains(x) implies t1.to_set().contains(x) by {
            let a = choose|a: int| 0 <= a < s1.len() && s1[a] == x;
            assert(s.to_set().contains(s[a + 1]));
            let b = choose|b: int| 0 <= b < t.len() && t[b] == x;
            if b == 0 {
                lemma_lex_lt_facts(s[0], s[a + 1], s[0]);
                assert(false);
            }
            assert(t1[b - 1] == x);
        }
        assert forall|x: Range| t1.to_set().contains(x) implies s1.to_set().contains(x) by {
            let a = choose|a: int| 0 <= a < t1.len() && t1[a] == x;
            assert(t.to_set().contains(t[a + 1]));
            let b = choose|b: int| 0 <= b < s.len() && s[b] == x;
            if b == 0 {
                lemma_lex_lt_facts(t[0], t[a + 1], t[0]);
                assert(false);
            }
            assert(s1[b - 1] == x);
        }
        assert(s1.to_set() =~= t1.to_set());
        lemma_sorted_unique(s1, t1);
        assert(t[0] == s[0]);
        assert(s1.len() == t1.len());
        assert(s.len() == t.len());
        assert forall|k: int| 0 <= k < s.len() implies s[k] == t[k] by {
            if k > 0 {
                assert(s[k] == s1[k - 1]);
                assert(t[k] == t1[k - 1]);
            }
        }
        assert(s =~= t);
    }
}

/// Every finite set of ranges has a strictly increasing enumeration.
pub proof fn lemma_enum_exists(set: Set<Range>)
    requires
        set.finite(),
    ensures
        strictly_sorted(sorted_enum(set)),
        sorted_enum(set).to_set() == set,
    decreases set.len(),
{
    let s = enum_of(set);
    lemma_sorted_enum(s);
}

/// A strictly increasing enumeration of `set`, built from its least element up.
proof fn enum_of(set: Set<Range>) -> (s: Seq<Range>)
    requires
        set.finite(),
    ensures
        strictly_sorted(s),
        s.to_set() == set,
    decreases set.len(),
{
    if set.len() == 0 {
        assert(set =~= Set::<Range>::empty());
        assert(Seq::<Range>::empty().to_set() =~= set);
        Seq::empty()
    } else {
        lemma_range_le_total();
        let m = set.find_unique_minimal(range_le());
        set.find_unique_minimal_ensures(range_le());
        let rest = set.remove(m);
        let t = enum_of(rest);
        let s = seq![m] + t;
        assert forall|i: int, j: int| 0 <= i < j < s.len() implies lex_lt(#[trigger] s[i], #[trigger] s[j]) by {
            if i == 0 {
                assert(t.to_set().contains(t[j - 1]));
                assert(s[j] == t[j - 1]);
                assert(set.contains(s[j]) && s[j] != m);
                lemma_lex_lt_facts(m, s[j], m);
                if !lex_lt(m, s[j]) {
                    assert(lex_lt(s[j], m));
                    assert(range_le()(s[j], m));
                    assert(range_le()(m, s[j]));
                    assert(false);
                }
            } else {
                assert(s[i] == t[i - 1] && s[j] == t[j - 1]);
            }
        }
        assert forall|r: Range| #[trigger] s.to_set().contains(r) <==> set.contains(r) by {
            if set.contains(r) && r != m {
                assert(t.to_set().contains(r));
                let k = choose|k: int| 0 <= k < t.len() && t[k] == r;
                assert(s[k + 1] == r);
            }
            if s.to_set().contains(r) {
                let k = choose|k: int| 0 <= k < s.len() && s[k] == r;
                if k > 0 {
                    assert(s[k] == t[k - 1]);
                    assert(t.to_set().contains(t[k - 1]));
                }
            }
            if r == m {
                assert(s[0] == m);
            }
        }
        assert(s.to_set() =~= set);
        s
    }
}

/// A strictly increasing sequence is the enumeration of its own elements.
pub proof fn lemma_sorted_enum(s: Seq<Range>)
    requires
        strictly_sorted(s),
    ensures
        sorted_enum(s.to_set()) == s,
{
    let t = sorted_enum(s.to_set());
    assert(strictly_sorted(t) && t.to_set() == s.to_set());
    lemma_sorted_unique(s, t);
}

/// `lex_lt` computed on concrete ranges.
fn lex_lt_exec(a: &Range, b: &Range) -> (r: bool)
    ensures
        r == lex_lt(*a, *b),
{
    a.start.0 < b.start.0 || (a.start.0 == b.start.0 && a.end.0 < b.end.0)
}

/// Every range of the sequence has its start at or before its end.
pub open spec fn all_ordered(s: Seq<Range>) -> bool {
    forall|i: int| 0 <= i < s.len() ==> (#[trigger] s[i]).lo() <= s[i].hi()
}

/// Inserts `x` into the strictly increasing sequence `m`, as a set does:
/// nothing changes when `x` is already there.
fn insert_sorted(m: &mut Vec<Range>, x: Range)
    requires
        strictly_sorted(old(m)@),
    ensures
        strictly_sorted(final(m)@),
        final(m)@.to_set() == old(m)@.to_set().insert(x),
        all_ordered(old(m)@) ==> all_ordered(final(m)@),
{
    proof {
        use_type_invariant(&x);
    }
    let ghost s = m@;
    let mut k: usize = 0;
    while k < m.len() && lex_lt_exec(&m[k], &x)
        invariant
            m@ == s,
            k <= m.len(),
            strictly_sorted(s),
            forall|j: int| 0 <= j < k ==> lex_lt(#[trigger] s[j], x),
        decreases m.len() - k,
    {
        k = k + 1;
    }
    if k < m.len() && m[k] == x {
        assert(s.to_set().insert(x) =~= s.to_set());
        return;
    }
    proof {
        if k < s.len() {
            lemma_lex_lt_facts(s[k as int], x, s[k as int]);
            assert(lex_lt(x, s[k as int]));
        }
    }
    m.insert(k, x);
    proof {
        let t = m@;
        assert forall|i: int, j: int| 0 <= i < j < t.len() implies lex_lt(#[trigger] t[i], #[trigger] t[j]) by {
            if j < k {
            } else if i < k && j == k {
            } else if i < k {
                lemma_lex_lt_facts(t[i], s[k as int], t[j]);
                if k < s.len() {
                    lemma_lex_lt_facts(s[i], x, s[k as int]);
                    lemma_lex_lt_facts(s[i], s[k as int], s[j - 1]);
                }
            } else if i == k {
                if k < s.len() {
                    lemma_lex_lt_facts(x, s[k as int], s[j - 1]);
                }
            } else {
            }
        }
        assert forall|r: Range| #[trigger] t.to_set().contains(r) <==> s.to_set().insert(x).contains(r) by {
            if t.to_set().contains(r) {
                let i = choose|i: int| 0 <= i < t.len() && t[i] == r;
                if i < k {
                    assert(s[i] == r);
                } else if i > k {
                    assert(s[i - 1] == r);
                }
            }
            if s.to_set().contains(r) {
                let i = choose|i: int| 0 <= i < s.len() && s[i] == r;
                if i < k {
                    assert(t[i] == r);
                } else {
                    assert(t[i + 1] == r);
                }
            }
            if r == x {
                assert(t[k as int] == x);
            }
        }
        assert(t.to_set() =~= s.to_set().insert(x));
    }
}

/// Removing the element at `i` from a strictly increasing sequence removes that
/// value from its set and keeps the order.
proof fn lemma_remove_sorted(s: Seq<Range>, i: int)
    requires
        strictly_sorted(s),
        0 <= i < s.len(),
    ensures
        strictly_sorted(s.remove(i)),
        s.remove(i).to_set() == s.to_set().remove(s[i]),
        all_ordered(s) ==> all_ordered(s.remove(i)),
{
    let t = s.remove(i);
    assert forall|a: int, b: int| 0 <= a < b < t.len() implies lex_lt(#[trigger] t[a], #[trigger] t[b]) by {
        let a1 = if a < i { a } else { a + 1 };
        let b1 = if b < i { b } else { b + 1 };
        assert(t[a] == s[a1] && t[b] == s[b1]);
    }
    assert forall|r: Range| #[trigger] t.to_set().contains(r) <==> s.to_set().remove(s[i]).contains(r) by {
        if t.to_set().contains(r) {
            let a = choose|a: int| 0 <= a < t.len() && t[a] == r;
            let a1 = if a < i { a } else { a + 1 };
            assert(s[a1] == r);
            lemma_lex_lt_facts(s[a1], s[i], s[a1]);
        }
        if s.to_set().remove(s[i]).contains(r) {
            let a = choose|a: int| 0 <= a < s.len() && s[a] == r;
            if a < i {
                assert(t[a] == r);
            } else {
                assert(t[a - 1] == r);
            }
        }
    }
    assert(t.to_set() =~= s.to_set().remove(s[i]));
    if all_ordered(s) {
        assert forall|a: int| 0 <= a < t.len() implies (#[trigger] t[a]).lo() <= t[a].hi() by {
            let a1 = if a < i { a } else { a + 1 };
            assert(t[a] == s[a1]);
        }
    }
}

/// The order `lex_le` as a relation value, for sorting.
pub open spec fn range_le() -> spec_fn(Range, Range) -> bool {
    |a: Range, b: Range| lex_le(a, b)
}

/// `range_le` is a total order, as sorting needs.
pub proof fn lemma_range_le_total()
    ensures
        total_ordering(range_le()),
{
    assert forall|x: Range, y: Range, z: Range|
        #[trigger] range_le()(x, y) && #[trigger] range_le()(y, z) implies range_le()(x, z) by {
        lemma_lex_lt_facts(x, y, z);
    }
    assert forall|x: Range, y: Range|
        #[trigger] range_le()(x, y) && #[trigger] range_le()(y, x) implies x == y by {
        lemma_lex_lt_facts(x, y, x);
    }
    assert forall|x: Range, y: Range| #[trigger] range_le()(x, y) || #[trigger] range_le()(y, x) by {
        lemma_lex_lt_facts(x, y, x);
    }
}

/// A strictly increasing sequence is its own sorted permutation.
proof fn lemma_sort_of_sorted(s: Seq<Range>)
    requires
        strictly_sorted(s),
    ensures
        s.sort_by(range_le()) == s,
{
    lemma_range_le_total();
    s.lemma_sort_by_ensures(range_le());
    assert(sorted_by(s, range_le()));
    vstd::seq_lib::lemma_sorted_unique(s, s.sort_by(range_le()), range_le());
}

/// Sorts the ranges in increasing order (by start, then by end).
fn sort_ranges(xs: Vec<Range>) -> (out: Vec<Range>)
    ensures
        out@ == xs@.sort_by(range_le()),
{
    let mut out: Vec<Range> = Vec::new();
    let mut idx: usize = 0;
    while idx < xs.len()
        invariant
            idx <= xs.len(),
            sorted_by(out@, range_le()),
            out@.to_multiset() == xs@.take(idx as int).to_multiset(),
        decreases xs.len() - idx,
    {
        let x = xs[idx];
        let mut k: usize = 0;
        while k < out.len() && !lex_lt_exec(&x, &out[k])
            invariant
                k <= out.len(),
                forall|j: int| 0 <= j < k ==> lex_le(#[trigger] out@[j], x),
            decreases out.len() - k,
        {
            proof {
                lemma_lex_lt_facts(x, out@[k as int], x);
            }
            k = k + 1;
        }
        let ghost before = out@;
        out.insert(k, x);
        proof {
            let t = out@;
            assert forall|i: int, j: int| 0 <= i < j < t.len() implies #[trigger] range_le()(t[i], t[j]) by {
                if j < k {
                    assert(range_le()(before[i], before[j]));
                } else if j == k {
                } else if i < k {
                    assert(range_le()(before[i], before[j - 1]));
                    lemma_lex_lt_facts(before[i], x, before[j - 1]);
                    if k < before.len() {
                        assert(range_le()(before[k as int], before[j - 1]));
                        lemma_lex_lt_facts(x, before[k as int], before[j - 1]);
                    }
                } else if i == k {
                    assert(lex_lt(x, before[k as int]));
                    assert(range_le()(before[k as int], before[j - 1]));
                    lemma_lex_lt_facts(x, before[k as int], before[j - 1]);
                } else {
                    assert(range_le()(before[i - 1], before[j - 1]));
                }
            }
            assert(xs@.take(idx + 1) =~= xs@.take(idx as int).push(x));
        }
        idx = idx + 1;
    }
    proof {
        assert(xs@.take(xs@.len() as int) =~= xs@);
        lemma_range_le_total();
        xs@.lemma_sort_by_ensures(range_le());
        vstd::seq_lib::lemma_sorted_unique(out@, xs@.sort_by(range_le()), range_le());
    }
    out
}

/// `a` ends where `b` starts.
pub open spec fn touches(a: Range, b: Range) -> bool {
    a.hi() == b.lo()
}

/// Index of the first neighbour pair `s[i], s[i + 1]` that touch, or -1.
pub open spec fn first_touch(s: Seq<Range>) -> int
    decreases s.len(),
{
    if s.len() < 2 {
        -1
    } else if touches(s[0], s[1]) {
        0
    } else {
        let k = first_touch(s.drop_first());
        if k < 0 {
            -1
        } else {
            k + 1
        }
    }
}

/// `s` with the neighbours `s[i]` and `s[i + 1]` replaced by one range from
/// the start of the first to the end of the second.
pub open spec fn join_at(s: Seq<Range>, i: int) -> Seq<Range> {
    s.take(i) + seq![mk_range(s[i].lo(), s[i + 1].hi())] + s.skip(i + 2)
}

/// Joins the first pair of neighbours that touch, again and again, until no
/// two neighbours touch.
pub open spec fn merge_touching(s: Seq<Range>) -> Seq<Range>
    decreases s.len(),
{
    let i = first_touch(s);
    if 0 <= i && i + 1 < s.len() {
        merge_touching(join_at(s, i))
    } else {
        s
    }
}

/// `first_touch` finds the first neighbour pair that touch, if there is one.
pub proof fn lemma_first_touch(s: Seq<Range>)
    ensures
        -1 <= first_touch(s) < s.len() - 1 || first_touch(s) == -1,
        first_touch(s) >= 0 ==> touches(s[first_touch(s)], s[first_touch(s) + 1]),
        forall|j: int|
            0 <= j < s.len() - 1 && (first_touch(s) < 0 || j < first_touch(s)) ==> !touches(
                #[trigger] s[j],
                s[j + 1],
            ),
    decreases s.len(),
{
    if s.len() >= 2 && !touches(s[0], s[1]) {
        let t = s.drop_first();
        lemma_first_touch(t);
        assert forall|j: int|
            0 <= j < s.len() - 1 && (first_touch(s) < 0 || j < first_touch(s)) implies !touches(
            #[trigger] s[j],
            s[j + 1],
        ) by {
            if j > 0 {
                assert(s[j] == t[j - 1] && s[j + 1] == t[j]);
            }
        }
    }
}

/// Joins neighbouring ranges where one ends and the next starts, after
/// sorting them.
fn merge(xs: Vec<Range>) -> (r: Vec<Range>)
    requires
        xs.len() > 0,
    ensures
        r@ == merge_touching(xs@.sort_by(range_le())),
{
    let ghost input = xs@;
    let mut xs = sort_ranges(xs);
    proof {
        lemma_range_le_total();
        input.lemma_sort_by_ensures(range_le());
        assert(xs@.to_multiset().len() == input.to_multiset().len());
    }
    let ghost target = merge_touching(xs@);
    loop
        invariant
            xs.len() > 0,
            merge_touching(xs@) == target,
        ensures
            xs@ == target,
        decreases xs.len(),
    {
        let n = xs.len();
        let mut i: usize = 0;
        let mut hit = false;
        while !hit && i + 1 < n
            invariant
                n == xs.len(),
                n > 0,
                i + 1 <= n,
                hit ==> i + 1 < n && touches(xs@[i as int], xs@[i + 1]),
                forall|j: int| 0 <= j < i ==> !touches(#[trigger] xs@[j], xs@[j + 1]),
            decreases n - i + (if hit { 0int } else { 1int }),
        {
            if xs[i].end == xs[i + 1].start {
                hit = true;
            } else {
                i = i + 1;
            }
        }
        proof {
            lemma_first_touch(xs@);
        }
        if !hit {
            assert(first_touch(xs@) < 0);
            assert(merge_touching(xs@) == xs@);
            break;
        }
        assert(first_touch(xs@) == i);
        let j = i + 1;
        let a = xs[i];
        let b = xs[j];
        proof {
            use_type_invariant(&a);
            use_type_invariant(&b);
        }
        let mut new_xs: Vec<Range> = Vec::new();
        let mut k: usize = 0;
        while k < i
            invariant
                k <= i,
                i + 1 < n,
                n == xs.len(),
                new_xs@ == xs@.take(k as int),
            decreases i - k,
        {
            new_xs.push(xs[k]);
            assert(xs@.take(k + 1) =~= xs@.take(k as int).push(xs@[k as int]));
            k = k + 1;
        }
        let joined = Range { start: a.start, end: b.end };
        proof {
            joined.lemma_bounds_determine(mk_range(a.lo(), b.hi()));
        }
        new_xs.push(joined);
        let ghost head = new_xs@;
        let mut k: usize = j + 1;
        while k < n
            invariant
                j + 1 <= k <= n,
                n == xs.len(),
                new_xs@ == head + xs@.subrange(j + 1, k as int),
            decreases n - k,
        {
            new_xs.push(xs[k]);
            assert(xs@.subrange(j + 1, k + 1) =~= xs@.subrange(j + 1, k as int).push(xs@[k as int]));
            k = k + 1;
        }
        assert(new_xs@ =~= join_at(xs@, i as int));
        xs = new_xs;
    }
    xs
}

/// Whether `r` holds at least `n` sectors.
pub open spec fn fits(r: Range, n: int) -> bool {
    r.hi() - r.lo() >= n
}

/// Whether some range of `set` holds at least `n` sectors.
pub open spec fn room_for(set: Set<Range>, n: int) -> bool {
    exists|r: Range| #[trigger] set.contains(r) && fits(r, n)
}

/// Index of the last range of `s` that holds at least `n` sectors, or -1.
pub open spec fn last_fit(s: Seq<Range>, n: int) -> int
    decreases s.len(),
{
    if s.len() == 0 {
        -1
    } else if fits(s.last(), n) {
        s.len() - 1
    } else {
        last_fit(s.drop_last(), n)
    }
}

/// The index that `last_fit` picks holds `n` sectors, and none after it does.
pub proof fn lemma_last_fit_bounds(s: Seq<Range>, n: int)
    ensures
        -1 <= last_fit(s, n) < s.len(),
        last_fit(s, n) >= 0 ==> fits(s[last_fit(s, n)], n),
        forall|j: int| last_fit(s, n) < j < s.len() ==> !fits(#[trigger] s[j], n),
    decreases s.len(),
{
    if s.len() > 0 && !fits(s.last(), n) {
        lemma_last_fit_bounds(s.drop_last(), n);
        assert forall|j: int| last_fit(s, n) < j < s.len() implies !fits(#[trigger] s[j], n) by {
            if j < s.len() - 1 {
                assert(s[j] == s.drop_last()[j]);
            }
        }
    }
}

/// What `Pool::acquire` does to a pool whose ranges are `set`, asked for `n`
/// sectors: the last range (in order) that holds `n` sectors gives up its first
/// `n` sectors, and keeps the rest if there is any rest.
pub open spec fn acquire_spec(set: Set<Range>, n: int) -> (Option<Range>, Set<Range>) {
    let s = sorted_enum(set);
    let i = last_fit(s, n);
    if i < 0 {
        (None, set)
    } else {
        let r = s[i];
        let rest = mk_range(r.lo() + n, r.hi());
        (
            Some(mk_range(r.lo(), r.lo() + n)),
            if r.lo() + n < r.hi() {
                set.remove(r).insert(rest)
            } else {
                set.remove(r)
            },
        )
    }
}

/// What `Pool::release` does to a pool whose ranges are `set`: `x` joins the
/// set, then neighbours that touch are joined.
pub open spec fn release_spec(set: Set<Range>, x: Range) -> Set<Range> {
    merge_touching(sorted_enum(set.insert(x))).to_set()
}

/// Free space of a backing device: a set of ranges, kept as their increasing
/// enumeration.
pub struct Pool {
    m: Vec<Range>,
}

impl View for Pool {
    type V = Set<Range>;

    closed spec fn view(&self) -> Set<Range> {
        self.m@.to_set()
    }
}

impl Pool {
    #[verifier::type_invariant]
    spec fn wf(self) -> bool {
        strictly_sorted(self.m@) && all_ordered(self.m@)
    }

    /// A pool holding the single range `[start, start + len)`.
    pub fn new(start: Sector, len: Sector) -> (pool: Pool)
        requires
            start.0 + len.0 <= u64::MAX,
        ensures
            pool@ == set![mk_range(start.0 as int, start.0 + len.0)],
            pool@.finite(),
    {
        let r = Range { start, end: start + len };
        proof {
            r.lemma_bounds_determine(mk_range(start.0 as int, start.0 + len.0));
        }
        let mut m: Vec<Range> = Vec::new();
        m.push(r);
        assert(m@.to_set() =~= set![r]);
        Pool { m }
    }

    /// A pool holds finitely many ranges.
    pub proof fn lemma_finite(&self)
        ensures
            self@.finite(),
    {
    }

    /// Number of ranges in the pool.
    pub fn len(&self) -> (n: usize)
        ensures
            n == self@.len(),
    {
        proof {
            use_type_invariant(self);
            self.m@.unique_seq_to_set();
        }
        self.m.len()
    }

    /// Gives `x` back to the pool and joins ranges that touch.
    pub fn release(&mut self, x: Range)
        ensures
            final(self)@ == release_spec(old(self)@, x),
            final(self)@.finite(),
    {
        proof {
            use_type_invariant(&*self);
        }
        let mut m: Vec<Range> = Vec::new();
        core::mem::swap(&mut m, &mut self.m);
        insert_sorted(&mut m, x);
        proof {
            lemma_sorted_enum(m@);
            lemma_sort_of_sorted(m@);
        }
        let mut xs: Vec<Range> = Vec::new();
        let mut k: usize = 0;
        while k < m.len()
            invariant
                k <= m.len(),
                xs@ == m@.take(k as int),
            decreases m.len() - k,
        {
            xs.push(m[k]);
            assert(m@.take(k + 1) =~= m@.take(k as int).push(m@[k as int]));
            k = k + 1;
        }
        assert(xs@ =~= m@);
        assert(m@.to_set().contains(x));
        let merged = merge(xs);
        let mut new_m: Vec<Range> = Vec::new();
        let mut k: usize = 0;
        while k < merged.len()
            invariant
                k <= merged.len(),
                strictly_sorted(new_m@),
                all_ordered(new_m@),
                new_m@.to_set() == merged@.take(k as int).to_set(),
            decreases merged.len() - k,
        {
            insert_sorted(&mut new_m, merged[k]);
            assert(merged@.take(k + 1) =~= merged@.take(k as int).push(merged@[k as int]));
            k = k + 1;
        }
        assert(merged@.take(merged@.len() as int) =~= merged@);
        self.m = new_m;
    }

    /// Takes `len` sectors from the pool: from the start of the last range
    /// (in order) that holds at least `len` sectors.
    pub fn acquire(&mut self, len: Sector) -> (ret: Option<Range>)
        ensures
            (ret, final(self)@) == acquire_spec(old(self)@, len.0 as int),
            final(self)@.finite(),
    {
        proof {
            use_type_invariant(&*self);
            lemma_sorted_enum(self.m@);
        }
        let ghost s = self.m@;
        let mut found: Option<usize> = None;
        let mut k: usize = 0;
        while k < self.m.len()
            invariant
                self.m@ == s,
                k <= s.len(),
                match found {
                    None => last_fit(s.take(k as int), len.0 as int) < 0,
                    Some(i) => i == last_fit(s.take(k as int), len.0 as int) && i < k,
                },
            decreases s.len() - k,
        {
            let x = self.m[k];
            assert(s.take(k + 1).drop_last() =~= s.take(k as int));
            assert(s.take(k + 1).last() == x);
            if x.len().sectors() >= len.sectors() {
                found = Some(k);
            }
            k = k + 1;
        }
        assert(s.take(s.len() as int) =~= s);
        match found {
            None => None,
            Some(i) => {
                proof {
                    lemma_last_fit_bounds(s, len.0 as int);
                }
                let mut m: Vec<Range> = Vec::new();
                core::mem::swap(&mut m, &mut self.m);
                let x = m.remove(i);
                proof {
                    lemma_remove_sorted(s, i as int);
                }
                let (a, b) = x.split(len);
                if b.len().sectors() > 0 {
                    insert_sorted(&mut m, b);
                }
                self.m = m;
                Some(a)
            },
        }
    }
}

/// The backing device of a test and the part of it that is still free.
pub struct DevicePool {
    backing_dev: String,
    pool: Pool,
}

impl DevicePool {
    /// The path of the backing device.
    pub closed spec fn backing(&self) -> Seq<char> {
        self.backing_dev@
    }

    /// The free ranges of the backing device.
    pub closed spec fn free(&self) -> Set<Range> {
        self.pool@
    }

    /// A pool over the whole of the backing device at `path`, which holds
    /// `size` sectors: all of them are free, and for a device that is not
    /// empty the free ranges are canonical.
    pub fn new(path: &str, size: Sector) -> (p: DevicePool)
        ensures
            p.backing() == path@,
            p.free() == set![mk_range(0, size.0 as int)],
            p.free().finite(),
            sectors_of(p.free()) == span(mk_range(0, size.0 as int)),
            size.0 > 0 ==> canonical(p.free()),
    {
        let start = Sector::GB(0);
        proof {
            lemma_single_canonical(mk_range(0, size.0 as int));
        }
        DevicePool { backing_dev: path.to_owned(), pool: Pool::new(start, size) }
    }

    /// The free ranges are finitely many.
    pub proof fn lemma_free_finite(&self)
        ensures
            self.free().finite(),
    {
        self.pool.lemma_finite();
    }

    /// Whether some free range holds `len` sectors, so that `acquire` may be
    /// asked for them.
    pub fn has_room(&self, len: Sector) -> (b: bool)
        ensures
            b == room_for(self.free(), len.0 as int),
    {
        let ghost m = self.pool.m@;
        let mut k: usize = 0;
        while k < self.pool.m.len()
            invariant
                m == self.pool.m@,
                k <= m.len(),
                forall|j: int| 0 <= j < k ==> !fits(#[trigger] m[j], len.0 as int),
            decreases m.len() - k,
        {
            let x = self.pool.m[k];
            if x.len().sectors() >= len.sectors() {
                assert(m.to_set().contains(m[k as int]));
                return true;
            }
            k = k + 1;
        }
        assert forall|r: Range| #[trigger] self.free().contains(r) implies !fits(r, len.0 as int) by {
            let j = choose|j: int| 0 <= j < m.len() && m[j] == r;
        }
        false
    }

    /// Takes `len` sectors for a new device: the range they occupy, and the
    /// linear table that maps a device of `len` sectors onto them. Some free
    /// range must hold `len` sectors. The range has exactly `len` sectors, all
    /// of them free before the call; from canonical free ranges they leave the
    /// free sectors, which stay canonical, so no later device overlaps it.
    pub fn acquire(&mut self, len: Sector) -> (r: (Range, linear::Table))
        requires
            room_for(old(self).free(), len.0 as int),
        ensures
            r.0.hi() - r.0.lo() == len.0,
            span(r.0).subset_of(sectors_of(old(self).free())),
            canonical(old(self).free()) ==> canonical(final(self).free()),
            canonical(old(self).free()) ==> sectors_of(final(self).free()) == sectors_of(
                old(self).free(),
            ).difference(span(r.0)),
            final(self).backing() == old(self).backing(),
            final(self).free() == acquire_spec(old(self).free(), len.0 as int).1,
            final(self).free().finite(),
            acquire_spec(old(self).free(), len.0 as int).0 == Some(r.0),
            r.1.backing_dev@ == old(self).backing(),
            r.1.offset.0 == r.0.lo(),
            r.1.len == len,
    {
        proof {
            self.lemma_free_finite();
            lemma_acquire_fits(self.free(), len.0 as int);
            if canonical(self.free()) {
                lemma_acquire_canonical(self.free(), len.0 as int);
            }
        }
        match self.pool.acquire(len) {
            Some(range) => {
                let table = linear::Table {
                    backing_dev: self.backing_dev.clone(),
                    offset: range.start(),
                    len,
                };
                (range, table)
            },
            None => vstd::pervasive::unreached(),
        }
    }

    /// Gives the range of a removed device back. Given back to canonical
    /// free ranges, a range that `returnable` admits (as one that `acquire`
    /// handed out is) keeps them canonical and adds exactly its sectors.
    pub fn release(&mut self, range: Range)
        ensures
            final(self).backing() == old(self).backing(),
            final(self).free() == release_spec(old(self).free(), range),
            final(self).free().finite(),
            canonical(old(self).free()) && returnable(old(self).free(), range) ==> canonical(
                final(self).free(),
            ),
            canonical(old(self).free()) && returnable(old(self).free(), range) ==> sectors_of(
                final(self).free(),
            ) == sectors_of(old(self).free()).union(span(range)),
    {
        proof {
            self.lemma_free_finite();
            if canonical(self.free()) && returnable(self.free(), range) {
                lemma_release_canonical(self.free(), range);
            }
        }
        self.pool.release(range);
    }
}

} // verus!
