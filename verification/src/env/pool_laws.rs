//! Properties of the free-space pool that hold across its operations.
use vstd::prelude::*;
use crate::env::pool::{
    all_ordered, first_touch, join_at, lemma_first_touch, lemma_lex_lt_facts, lex_lt, merge_touching,
    release_spec, strictly_sorted, touches, acquire_spec, canonical, covered, fits, last_fit, lemma_enum_exists, lemma_last_fit_bounds,
    lemma_mk_range, mk_range, sectors_of, sorted_enum, span, Range,
};

verus! {

broadcast use vstd::seq_lib::group_seq_properties, lemma_mk_range;

/// In a canonical set, the sector just past a range is free of every range.
proof fn lemma_end_uncovered(set: Set<Range>, r: Range)
    requires
        canonical(set),
        set.contains(r),
    ensures
        !covered(set, r.hi()),
        !covered(set, r.lo() - 1),
{
    if covered(set, r.hi()) {
        let w = choose|w: Range| #[trigger] set.contains(w) && w.lo() <= r.hi() < w.hi();
        assert(w != r);
        assert(false);
    }
    if covered(set, r.lo() - 1) {
        let w = choose|w: Range| #[trigger] set.contains(w) && w.lo() <= r.lo() - 1 < w.hi();
        assert(w != r);
        assert(false);
    }
}

/// Every range of `s` belongs to `t` when both are canonical and cover the
/// same sectors.
proof fn lemma_canonical_subset(s: Set<Range>, t: Set<Range>)
    requires
        canonical(s),
        canonical(t),
        sectors_of(s) == sectors_of(t),
    ensures
        s.subset_of(t),
{
    assert forall|r: Range| s.contains(r) implies t.contains(r) by {
        assert(covered(s, r.lo()));
        assert(sectors_of(s).contains(r.lo()));
        assert(sectors_of(t).contains(r.lo()));
        let z = choose|z: Range| #[trigger] t.contains(z) && z.lo() <= r.lo() < z.hi();
        lemma_end_uncovered(s, r);
        lemma_end_uncovered(t, z);
        if z.lo() < r.lo() {
            assert(covered(t, r.lo() - 1));
            assert(sectors_of(t).contains(r.lo() - 1));
            assert(false);
        }
        if z.hi() < r.hi() {
            assert(covered(s, z.hi()));
            assert(sectors_of(s).contains(z.hi()));
            assert(false);
        }
        if z.hi() > r.hi() {
            assert(covered(t, r.hi()));
            assert(sectors_of(t).contains(r.hi()));
            assert(false);
        }
        r.lemma_bounds_determine(z);
    }
}

/// A canonical set of ranges is determined by the sectors it covers.
pub proof fn lemma_canonical_unique(s: Set<Range>, t: Set<Range>)
    requires
        canonical(s),
        canonical(t),
        sectors_of(s) == sectors_of(t),
    ensures
        s == t,
{
    lemma_canonical_subset(s, t);
    lemma_canonical_subset(t, s);
    assert(s =~= t);
}

/// A pool made of one range is canonical when that range is not empty, and
/// its free sectors are those of the range.
pub proof fn lemma_single_canonical(r: Range)
    ensures
        r.lo() < r.hi() ==> canonical(set![r]),
        sectors_of(set![r]) == span(r),
        set![r].finite(),
{
    assert forall|p: int| #[trigger] sectors_of(set![r]).contains(p) <==> span(r).contains(p) by {
        if span(r).contains(p) {
            assert(set![r].contains(r));
        }
    }
    assert(sectors_of(set![r]) =~= span(r));
}

/// Acquiring `n` sectors from any finite pool: the answer is `None` exactly
/// when no range holds `n` sectors, and then the pool is left as it was;
/// otherwise the range handed out has `n` sectors, all of them free before
/// the call.
pub proof fn lemma_acquire_fits(set: Set<Range>, n: int)
    requires
        set.finite(),
        0 <= n <= u64::MAX,
    ensures
        acquire_spec(set, n).0 is None <==> forall|r: Range| #[trigger] set.contains(r) ==> r.hi() - r.lo() < n,
        acquire_spec(set, n).0 is None ==> acquire_spec(set, n).1 == set,
        acquire_spec(set, n).0 matches Some(a) ==> {
            &&& a.hi() - a.lo() == n
            &&& span(a).subset_of(sectors_of(set))
        },
{
    lemma_enum_exists(set);
    let s = sorted_enum(set);
    lemma_last_fit_bounds(s, n);
    let i = last_fit(s, n);
    if i < 0 {
        assert forall|r: Range| #[trigger] set.contains(r) implies r.hi() - r.lo() < n by {
            assert(s.to_set().contains(r));
            let k = choose|k: int| 0 <= k < s.len() && s[k] == r;
            assert(!fits(s[k], n));
        }
    } else {
        let r = s[i];
        assert(s.to_set().contains(r));
        r.lemma_bounds();
        let a = mk_range(r.lo(), r.lo() + n);
        assert(acquire_spec(set, n).0 == Some(a));
        assert(!(forall|q: Range| #[trigger] set.contains(q) ==> q.hi() - q.lo() < n));
        assert forall|p: int| span(a).contains(p) implies sectors_of(set).contains(p) by {
            assert(covered(set, p));
        }
    }
}

/// Acquiring `n` sectors from a canonical pool keeps it canonical, and its
/// free sectors lose exactly those of the range handed out. Acquiring
/// nothing leaves the pool as it was and hands out an empty range at the
/// start of one of its ranges.
pub proof fn lemma_acquire_canonical(set: Set<Range>, n: int)
    requires
        canonical(set),
        set.finite(),
        0 <= n <= u64::MAX,
    ensures
        acquire_spec(set, n).0 matches Some(a) ==> {
            let after = acquire_spec(set, n).1;
            &&& canonical(after)
            &&& after.finite()
            &&& sectors_of(after) == sectors_of(set).difference(span(a))
            &&& (n == 0 ==> after == set && exists|r: Range| #[trigger] set.contains(r) && r.lo() == a.lo())
        },
{
    lemma_acquire_fits(set, n);
    lemma_enum_exists(set);
    let s = sorted_enum(set);
    lemma_last_fit_bounds(s, n);
    let i = last_fit(s, n);
    if i >= 0 {
        let r = s[i];
        assert(s.to_set().contains(r));
        r.lemma_bounds();
        let a = mk_range(r.lo(), r.lo() + n);
        let rest = mk_range(r.lo() + n, r.hi());
        let after = acquire_spec(set, n).1;
        assert(acquire_spec(set, n).0 == Some(a));
        assert(after =~= (if r.lo() + n < r.hi() { set.remove(r).insert(rest) } else { set.remove(r) }));
        assert forall|q: Range| #[trigger] after.contains(q) implies q.lo() < q.hi() by {}
        assert forall|q1: Range, q2: Range|
            #[trigger] after.contains(q1) && #[trigger] after.contains(q2) && q1 != q2 implies q1.hi() < q2.lo()
                || q2.hi() < q1.lo() by {
            if q1 == rest {
                assert(set.contains(q2) && q2 != r);
            } else if q2 == rest {
                assert(set.contains(q1) && q1 != r);
            }
        }
        assert forall|p: int| #[trigger] sectors_of(after).contains(p) <==> sectors_of(set).difference(span(a)).contains(p) by {
            if sectors_of(after).contains(p) {
                let q = choose|q: Range| #[trigger] after.contains(q) && q.lo() <= p < q.hi();
                if q == rest {
                    assert(covered(set, p));
                } else {
                    assert(set.contains(q) && q != r);
                    assert(covered(set, p));
                }
            }
            if sectors_of(set).difference(span(a)).contains(p) {
                let q = choose|q: Range| #[trigger] set.contains(q) && q.lo() <= p < q.hi();
                if q == r {
                    assert(after.contains(rest));
                    assert(covered(after, p));
                } else {
                    assert(after.contains(q));
                    assert(covered(after, p));
                }
            }
        }
        assert(sectors_of(after) =~= sectors_of(set).difference(span(a)));
        if n == 0 {
            rest.lemma_bounds_determine(r);
            assert(after =~= set);
        }
    }
}

/// Each range ends at or before the start of the next.
pub open spec fn chain(s: Seq<Range>) -> bool {
    forall|i: int| 0 <= i < s.len() - 1 ==> (#[trigger] s[i]).hi() <= s[i + 1].lo()
}

/// An empty range is followed by a range that starts where it stands.
pub open spec fn empties_touch(s: Seq<Range>) -> bool {
    forall|i: int|
        0 <= i < s.len() && (#[trigger] s[i]).lo() == s[i].hi() ==> i + 1 < s.len() && touches(
            s[i],
            s[i + 1],
        )
}

/// No range is empty and a gap of at least one sector separates neighbours.
pub open spec fn gapped(s: Seq<Range>) -> bool {
    &&& forall|i: int| 0 <= i < s.len() ==> (#[trigger] s[i]).lo() < s[i].hi()
    &&& forall|i: int| 0 <= i < s.len() - 1 ==> (#[trigger] s[i]).hi() < s[i + 1].lo()
}

/// Whether sector `p` lies in some range of the sequence.
pub open spec fn seq_covers(s: Seq<Range>, p: int) -> bool {
    exists|k: int| 0 <= k < s.len() && (#[trigger] s[k]).lo() <= p < s[k].hi()
}

proof fn lemma_seq_covers(s: Seq<Range>)
    ensures
        forall|p: int| #[trigger] sectors_of(s.to_set()).contains(p) <==> seq_covers(s, p),
{
    assert forall|p: int| #[trigger] sectors_of(s.to_set()).contains(p) <==> seq_covers(s, p) by {
        if sectors_of(s.to_set()).contains(p) {
            let r = choose|r: Range| #[trigger] s.to_set().contains(r) && r.lo() <= p < r.hi();
            let k = choose|k: int| 0 <= k < s.len() && s[k] == r;
            assert(s[k].lo() <= p < s[k].hi());
        }
        if seq_covers(s, p) {
            let k = choose|k: int| 0 <= k < s.len() && (#[trigger] s[k]).lo() <= p < s[k].hi();
            assert(s.to_set().contains(s[k]));
            assert(covered(s.to_set(), p));
        }
    }
}

/// Joining one touching pair keeps the shape the merge works on, and keeps
/// the covered sectors.
proof fn lemma_join_step(s: Seq<Range>, i: int)
    requires
        all_ordered(s),
        chain(s),
        empties_touch(s),
        0 <= i,
        i + 1 < s.len(),
        touches(s[i], s[i + 1]),
    ensures
        all_ordered(join_at(s, i)),
        chain(join_at(s, i)),
        empties_touch(join_at(s, i)),
        join_at(s, i).len() == s.len() - 1,
        forall|p: int| seq_covers(join_at(s, i), p) <==> seq_covers(s, p),
{
    let t = join_at(s, i);
    s[i].lemma_bounds();
    s[i + 1].lemma_bounds();
    let m = mk_range(s[i].lo(), s[i + 1].hi());
    assert(t.len() == s.len() - 1);
    assert(t[i] == m);
    assert forall|k: int| 0 <= k < i implies t[k] == s[k] by {}
    assert forall|k: int| i < k < t.len() implies t[k] == s[k + 1] by {}
    assert forall|k: int| 0 <= k < t.len() implies (#[trigger] t[k]).lo() <= t[k].hi() by {
        if k < i {
            assert(t[k] == s[k]);
        } else if k > i {
            assert(t[k] == s[k + 1]);
        }
    }
    assert forall|k: int| 0 <= k < t.len() - 1 implies (#[trigger] t[k]).hi() <= t[k + 1].lo() by {
        if k + 1 < i {
            assert(t[k] == s[k] && t[k + 1] == s[k + 1]);
        } else if k + 1 == i {
            assert(t[k] == s[k]);
        } else if k == i {
            assert(t[k + 1] == s[k + 2]);
        } else {
            assert(t[k] == s[k + 1] && t[k + 1] == s[k + 2]);
        }
    }
    assert forall|k: int|
        0 <= k < t.len() && (#[trigger] t[k]).lo() == t[k].hi() implies k + 1 < t.len() && touches(
        t[k],
        t[k + 1],
    ) by {
        if k + 1 < i {
            assert(t[k] == s[k] && t[k + 1] == s[k + 1]);
        } else if k + 1 == i {
            assert(t[k] == s[k]);
        } else if k == i {
            assert(s[i + 1].lo() == s[i + 1].hi());
            assert(t[k + 1] == s[k + 2]);
        } else {
            assert(t[k] == s[k + 1]);
            assert(t[k + 1] == s[k + 2]);
        }
    }
    assert forall|p: int| seq_covers(t, p) <==> seq_covers(s, p) by {
        if seq_covers(t, p) {
            let k = choose|k: int| 0 <= k < t.len() && (#[trigger] t[k]).lo() <= p < t[k].hi();
            if k < i {
                assert(s[k].lo() <= p < s[k].hi());
            } else if k > i {
                assert(s[k + 1].lo() <= p < s[k + 1].hi());
            } else if p < s[i].hi() {
                assert(s[i].lo() <= p < s[i].hi());
            } else {
                assert(s[i + 1].lo() <= p < s[i + 1].hi());
            }
        }
        if seq_covers(s, p) {
            let k = choose|k: int| 0 <= k < s.len() && (#[trigger] s[k]).lo() <= p < s[k].hi();
            if k < i {
                assert(t[k].lo() <= p < t[k].hi());
            } else if k > i + 1 {
                assert(t[k - 1].lo() <= p < t[k - 1].hi());
            } else {
                assert(t[i].lo() <= p < t[i].hi());
            }
        }
    }
}

/// Joining touching neighbours of a chain of ranges, where every empty range
/// touches the next, leaves a gapped sequence covering the same sectors.
pub proof fn lemma_merge_gapped(s: Seq<Range>)
    requires
        all_ordered(s),
        chain(s),
        empties_touch(s),
    ensures
        gapped(merge_touching(s)),
        forall|p: int| seq_covers(merge_touching(s), p) <==> seq_covers(s, p),
    decreases s.len(),
{
    lemma_first_touch(s);
    let i = first_touch(s);
    if 0 <= i && i + 1 < s.len() {
        lemma_join_step(s, i);
        lemma_merge_gapped(join_at(s, i));
    } else {
        assert(merge_touching(s) == s);
        assert forall|k: int| 0 <= k < s.len() implies (#[trigger] s[k]).lo() < s[k].hi() by {
            if s[k].lo() == s[k].hi() {
                assert(!touches(s[k], s[k + 1]));
            }
        }
        assert forall|k: int| 0 <= k < s.len() - 1 implies (#[trigger] s[k]).hi() < s[k + 1].lo() by {
            assert(!touches(s[k], s[k + 1]));
        }
    }
}

proof fn lemma_gapped_apart(s: Seq<Range>, i: int, j: int)
    requires
        gapped(s),
        0 <= i < j < s.len(),
    ensures
        s[i].hi() < s[j].lo(),
    decreases j - i,
{
    if j > i + 1 {
        lemma_gapped_apart(s, i, j - 1);
    }
}

/// The ranges of a gapped sequence form a canonical set.
pub proof fn lemma_gapped_canonical(s: Seq<Range>)
    requires
        gapped(s),
    ensures
        canonical(s.to_set()),
{
    assert forall|r1: Range, r2: Range|
        #[trigger] s.to_set().contains(r1) && #[trigger] s.to_set().contains(r2) && r1 != r2 implies r1.hi()
            < r2.lo() || r2.hi() < r1.lo() by {
        let i = choose|i: int| 0 <= i < s.len() && s[i] == r1;
        let j = choose|j: int| 0 <= j < s.len() && s[j] == r2;
        if i < j {
            lemma_gapped_apart(s, i, j);
        } else {
            lemma_gapped_apart(s, j, i);
        }
    }
    assert forall|r: Range| #[trigger] s.to_set().contains(r) implies r.lo() < r.hi() by {
        let i = choose|i: int| 0 <= i < s.len() && s[i] == r;
    }
}

/// What may be given back to a canonical pool: a non-empty range of free
/// sectors, or an empty range at the start of one of its ranges (what
/// acquiring nothing hands out).
pub open spec fn returnable(set: Set<Range>, x: Range) -> bool {
    ||| x.lo() < x.hi() && span(x).disjoint(sectors_of(set))
    ||| x.lo() == x.hi() && exists|r: Range| #[trigger] set.contains(r) && r.lo() == x.lo()
}

/// In the enumeration of a canonical set with `x` added, neighbours do not
/// overlap.
proof fn lemma_insert_chain(set: Set<Range>, x: Range, u: Range, v: Range)
    requires
        canonical(set),
        returnable(set, x),
        set.insert(x).contains(u),
        set.insert(x).contains(v),
        lex_lt(u, v),
    ensures
        u.hi() <= v.lo(),
{
    lemma_lex_lt_facts(u, v, u);
    if set.contains(u) && set.contains(v) {
    } else if x.lo() < x.hi() {
        if u.hi() > v.lo() {
            let p = v.lo();
            if u == x {
                assert(covered(set, p));
                assert(sectors_of(set).contains(p));
                assert(span(x).contains(p));
            } else {
                assert(covered(set, p));
                assert(sectors_of(set).contains(p));
                assert(span(x).contains(p));
            }
            assert(false);
        }
    } else {
        let r = choose|r: Range| #[trigger] set.contains(r) && r.lo() == x.lo();
        if v == x && u != x {
            assert(u != r);
        }
    }
}

/// The enumeration of a canonical set with a returnable range added is a
/// chain in which every empty range touches the next.
proof fn lemma_insert_enum_shape(set: Set<Range>, x: Range)
    requires
        canonical(set),
        set.finite(),
        returnable(set, x),
    ensures
        all_ordered(sorted_enum(set.insert(x))),
        chain(sorted_enum(set.insert(x))),
        empties_touch(sorted_enum(set.insert(x))),
        sorted_enum(set.insert(x)).to_set() == set.insert(x),
{
    let all = set.insert(x);
    lemma_enum_exists(all);
    let e = sorted_enum(all);
    assert forall|k: int| 0 <= k < e.len() implies all.contains(#[trigger] e[k]) by {
        assert(e.to_set().contains(e[k]));
    }
    assert forall|k: int| 0 <= k < e.len() implies (#[trigger] e[k]).lo() <= e[k].hi() by {
        assert(all.contains(e[k]));
    }
    assert forall|k: int| 0 <= k < e.len() - 1 implies (#[trigger] e[k]).hi() <= e[k + 1].lo() by {
        assert(all.contains(e[k]) && all.contains(e[k + 1]));
        lemma_insert_chain(set, x, e[k], e[k + 1]);
    }
    lemma_insert_empties_touch(set, x);
}

proof fn lemma_insert_empties_touch(set: Set<Range>, x: Range)
    requires
        canonical(set),
        set.finite(),
        returnable(set, x),
    ensures
        empties_touch(sorted_enum(set.insert(x))),
{
    let all = set.insert(x);
    lemma_enum_exists(all);
    let e = sorted_enum(all);
    assert forall|k: int|
        0 <= k < e.len() && (#[trigger] e[k]).lo() == e[k].hi() implies k + 1 < e.len() && touches(
        e[k],
        e[k + 1],
    ) by {
        assert(e.to_set().contains(e[k]));
        assert(all.contains(e[k]));
        assert(e[k] == x);
        let r = choose|r: Range| #[trigger] set.contains(r) && r.lo() == x.lo();
        assert(all.contains(r));
        assert(e.to_set().contains(r));
        let m = choose|m: int| 0 <= m < e.len() && e[m] == r;
        assert(lex_lt(x, r));
        if m < k {
            lemma_lex_lt_facts(x, r, x);
            assert(false);
        }
        if m > k + 1 {
            let y = e[k + 1];
            assert(lex_lt(x, y) && lex_lt(y, r));
            assert(e.to_set().contains(y));
            assert(all.contains(y));
            lemma_lex_lt_facts(x, y, x);
            assert(y != x);
            assert(set.contains(y));
            assert(y != r);
            assert(false);
        }
    }
}

/// Giving back a returnable range to a canonical pool keeps it canonical and
/// adds exactly the sectors of that range to the free ones.
pub proof fn lemma_release_canonical(set: Set<Range>, x: Range)
    requires
        canonical(set),
        set.finite(),
        returnable(set, x),
    ensures
        canonical(release_spec(set, x)),
        release_spec(set, x).finite(),
        sectors_of(release_spec(set, x)) == sectors_of(set).union(span(x)),
{
    let all = set.insert(x);
    lemma_insert_enum_shape(set, x);
    let e = sorted_enum(all);
    lemma_merge_gapped(e);
    let merged = merge_touching(e);
    lemma_gapped_canonical(merged);
    lemma_seq_covers(merged);
    lemma_seq_covers(e);
    assert forall|p: int| #[trigger] sectors_of(merged.to_set()).contains(p) <==> sectors_of(set).union(span(x)).contains(p) by {
        assert(sectors_of(merged.to_set()).contains(p) <==> sectors_of(all).contains(p));
        if sectors_of(all).contains(p) {
            let r = choose|r: Range| #[trigger] all.contains(r) && r.lo() <= p < r.hi();
            if r != x {
                assert(covered(set, p));
            }
        }
        if sectors_of(set).contains(p) {
            let r = choose|r: Range| #[trigger] set.contains(r) && r.lo() <= p < r.hi();
            assert(all.contains(r));
            assert(covered(all, p));
        }
        if span(x).contains(p) {
            assert(all.contains(x));
            assert(covered(all, p));
        }
    }
    assert(sectors_of(merged.to_set()) =~= sectors_of(set).union(span(x)));
}

/// Acquiring sectors from a canonical pool and giving the range straight back
/// restores the pool exactly.
pub proof fn lemma_acquire_release_roundtrip(set: Set<Range>, n: int)
    requires
        canonical(set),
        set.finite(),
        0 <= n <= u64::MAX,
        acquire_spec(set, n).0 is Some,
    ensures
        release_spec(acquire_spec(set, n).1, acquire_spec(set, n).0->0) == set,
{
    lemma_acquire_fits(set, n);
    lemma_acquire_canonical(set, n);
    let a = acquire_spec(set, n).0->0;
    let after = acquire_spec(set, n).1;
    if n > 0 {
        assert(span(a).disjoint(sectors_of(after)));
    }
    assert(returnable(after, a));
    lemma_release_canonical(after, a);
    let back = release_spec(after, a);
    assert(sectors_of(back) =~= sectors_of(set));
    lemma_canonical_unique(back, set);
}

/// Two successive acquisitions from a canonical pool hand out ranges with no
/// sector in common.
pub proof fn lemma_acquire_disjoint(set: Set<Range>, n1: int, n2: int)
    requires
        canonical(set),
        set.finite(),
        0 <= n1 <= u64::MAX,
        0 <= n2 <= u64::MAX,
        acquire_spec(set, n1).0 is Some,
        acquire_spec(acquire_spec(set, n1).1, n2).0 is Some,
    ensures
        span(acquire_spec(set, n1).0->0).disjoint(
            span(acquire_spec(acquire_spec(set, n1).1, n2).0->0),
        ),
{
    lemma_acquire_canonical(set, n1);
    let after = acquire_spec(set, n1).1;
    lemma_acquire_fits(after, n2);
    let a1 = acquire_spec(set, n1).0->0;
    let a2 = acquire_spec(after, n2).0->0;
    assert forall|p: int| span(a1).contains(p) implies !span(a2).contains(p) by {
        if span(a2).contains(p) {
            assert(sectors_of(after).contains(p));
        }
    }
}

/// Devices never overlap: when the ranges of the live devices all lie
/// outside the free sectors of a canonical pool, the range acquired for a new
/// device shares no sector with any of them, and afterwards the live ranges,
/// the new one among them, all lie outside the free sectors again.
pub proof fn lemma_new_device_disjoint(set: Set<Range>, n: int, live: Set<Range>)
    requires
        canonical(set),
        set.finite(),
        0 <= n <= u64::MAX,
        acquire_spec(set, n).0 is Some,
        forall|a: Range| #[trigger] live.contains(a) ==> span(a).disjoint(sectors_of(set)),
    ensures
        forall|a: Range|
            #[trigger] live.contains(a) ==> span(a).disjoint(span(acquire_spec(set, n).0->0)),
        forall|a: Range|
            #[trigger] live.insert(acquire_spec(set, n).0->0).contains(a) ==> span(a).disjoint(
                sectors_of(acquire_spec(set, n).1),
            ),
{
    lemma_acquire_fits(set, n);
    lemma_acquire_canonical(set, n);
    let r = acquire_spec(set, n).0->0;
    let after = acquire_spec(set, n).1;
    assert forall|a: Range| #[trigger] live.contains(a) implies span(a).disjoint(span(r)) by {
        assert forall|p: int| span(a).contains(p) implies !span(r).contains(p) by {
            if span(r).contains(p) {
                assert(sectors_of(set).contains(p));
            }
        }
    }
    assert forall|a: Range| #[trigger] live.insert(r).contains(a) implies span(a).disjoint(
        sectors_of(after),
    ) by {
        assert forall|p: int| span(a).contains(p) implies !sectors_of(after).contains(p) by {
            if n > 0 && sectors_of(after).contains(p) {
                assert(sectors_of(after).contains(p) == sectors_of(set).difference(span(r)).contains(p));
            }
        }
    }
}

} // verus!
