//! Stable ordering and value-level deduplication of resolved dependencies.
//!
//! Sorting is a stable insertion sort under the dependency ordering: a new
//! element goes after every element it does not compare strictly above, so
//! elements that compare equal keep their original relative order.
//! Deduplication then drops every element identical to its predecessor.

use vstd::prelude::*;

use crate::dependency::{dep_cmp, DepView, Dependency};
use crate::version::{segs_view, Segment};

verus! {

use core::cmp::Ordering;

/// The views of a list of dependencies.
pub open spec fn deps_view(s: Seq<Dependency>) -> Seq<DepView> {
    s.map_values(|d: Dependency| d@)
}

pub proof fn lemma_deps_view_props(s: Seq<Dependency>)
    ensures
        deps_view(s).len() == s.len(),
        forall|i: int| 0 <= i < s.len() ==> #[trigger] deps_view(s)[i] == s[i]@,
{
}

proof fn lemma_deps_view_remove0(s: Seq<Dependency>)
    requires
        s.len() > 0,
    ensures
        deps_view(s.remove(0)) =~= deps_view(s).skip(1),
{
    lemma_deps_view_props(s);
    lemma_deps_view_props(s.remove(0));
    assert forall|x: int|
        0 <= x < deps_view(s.remove(0)).len() implies deps_view(s.remove(0))[x] == deps_view(
        s,
    ).skip(1)[x] by {
        assert(s.remove(0)[x] == s[x + 1]);
        assert(deps_view(s.remove(0))[x] == s.remove(0)[x]@);
        assert(deps_view(s)[x + 1] == s[x + 1]@);
    }
}

/// Insertion of `x` into `s`, after every element that does not compare
/// strictly above `x`.
pub open spec fn dep_sorted_insert(s: Seq<DepView>, x: DepView) -> Seq<DepView>
    decreases s.len(),
{
    if s.len() == 0 {
        seq![x]
    } else if dep_cmp(s[0], x) != Ordering::Greater {
        seq![s[0]] + dep_sorted_insert(s.drop_first(), x)
    } else {
        seq![x] + s
    }
}

/// Stable insertion sort under the dependency ordering.
pub open spec fn dep_sort(s: Seq<DepView>) -> Seq<DepView>
    decreases s.len(),
{
    if s.len() == 0 {
        Seq::empty()
    } else {
        dep_sorted_insert(dep_sort(s.drop_last()), s.last())
    }
}

/// Value-level sameness of two dependencies: same group, same artifact, and
/// the same version segments. The version's original string does not count:
/// two spellings with the same exploded segments are the same value.
pub open spec fn dep_same(a: DepView, b: DepView) -> bool {
    a.group_id == b.group_id && a.artifact_id == b.artifact_id && a.version.parts
        == b.version.parts
}

/// The tail of the deduplicated sequence from position `i` on: an element
/// that is the same value as its predecessor is dropped.
pub open spec fn dedup_from(s: Seq<DepView>, i: int) -> Seq<DepView>
    decreases s.len() - i,
{
    if i < 1 || i >= s.len() {
        Seq::empty()
    } else if dep_same(s[i], s[i - 1]) {
        dedup_from(s, i + 1)
    } else {
        seq![s[i]] + dedup_from(s, i + 1)
    }
}

/// The sequence without adjacent value-level duplicates.
pub open spec fn dedup_adjacent(s: Seq<DepView>) -> Seq<DepView> {
    if s.len() == 0 {
        s
    } else {
        seq![s[0]] + dedup_from(s, 1)
    }
}

/// Whether two segment lists hold the same segments.
fn eq_segments(a: &Vec<Segment>, b: &Vec<Segment>) -> (r: bool)
    ensures
        r == (segs_view(a@) == segs_view(b@)),
{
    let n: usize = a.len();
    if n != b.len() {
        proof {
            assert(segs_view(a@).len() != segs_view(b@).len());
        }
        return false;
    }
    let mut i: usize = 0;
    while i < n
        invariant
            i <= n,
            n == a@.len(),
            n == b@.len(),
            forall|x: int| 0 <= x < i ==> segs_view(a@)[x] == segs_view(b@)[x],
        decreases n - i,
    {
        let same = match (&a[i], &b[i]) {
            (Segment::Number(x), Segment::Number(y)) => *x == *y,
            (Segment::Text(s), Segment::Text(t)) => *s == *t,
            _ => false,
        };
        if !same {
            proof {
                assert(segs_view(a@)[i as int] == a@[i as int]@);
                assert(segs_view(b@)[i as int] == b@[i as int]@);
                assert(segs_view(a@)[i as int] != segs_view(b@)[i as int]);
            }
            return false;
        }
        proof {
            assert(segs_view(a@)[i as int] == a@[i as int]@);
            assert(segs_view(b@)[i as int] == b@[i as int]@);
        }
        i = i + 1;
    }
    proof {
        assert(segs_view(a@) =~= segs_view(b@));
    }
    true
}

/// Whether two dependencies are the same value (`dep_same`).
pub fn same_dependency(a: &Dependency, b: &Dependency) -> (r: bool)
    ensures
        r == dep_same(a@, b@),
{
    if !(a.group_id == b.group_id) {
        return false;
    }
    if !(a.artifact_id == b.artifact_id) {
        return false;
    }
    eq_segments(&a.version.parts, &b.version.parts)
}

/// Sorts dependencies by group, artifact and version; the sort is stable.
pub fn sorted_by_dep(deps: Vec<Dependency>) -> (r: Vec<Dependency>)
    ensures
        deps_view(r@) == dep_sort(deps_view(deps@)),
{
    let ghost orig = deps_view(deps@);
    let mut input = deps;
    let mut r: Vec<Dependency> = Vec::new();
    let ghost mut k: int = 0;
    proof {
        assert(orig.take(0) =~= Seq::<DepView>::empty());
        assert(deps_view(input@) =~= orig.skip(0));
    }
    while input.len() > 0
        invariant
            0 <= k <= orig.len(),
            deps_view(input@) == orig.skip(k),
            deps_view(r@) == dep_sort(orig.take(k)),
        decreases input@.len(),
    {
        let ghost prev = input@;
        proof {
            lemma_deps_view_props(prev);
            assert(input@.len() == orig.len() - k);
        }
        let d = input.remove(0);
        proof {
            lemma_deps_view_remove0(prev);
            assert(deps_view(prev).skip(1) =~= orig.skip(k + 1));
            assert(deps_view(input@) == orig.skip(k + 1));
            assert(d@ == prev[0]@);
            assert(deps_view(prev)[0] == prev[0]@);
            assert(deps_view(prev)[0] == orig.skip(k)[0]);
            assert(d@ == orig[k]);
        }
        let ghost rv = deps_view(r@);
        let mut p: usize = 0;
        proof {
            assert(rv.take(0) =~= Seq::<DepView>::empty());
            assert(rv.skip(0) =~= rv);
            assert(Seq::<DepView>::empty() + dep_sorted_insert(rv, d@) =~= dep_sorted_insert(
                rv,
                d@,
            ));
        }
        loop
            invariant_except_break
                p <= r@.len(),
                rv == deps_view(r@),
                dep_sorted_insert(rv, d@) == rv.take(p as int) + dep_sorted_insert(
                    rv.skip(p as int),
                    d@,
                ),
            ensures
                p <= r@.len(),
                rv == deps_view(r@),
                dep_sorted_insert(rv, d@) == rv.take(p as int) + seq![d@] + rv.skip(p as int),
            decreases r@.len() - p,
        {
            if p >= r.len() {
                proof {
                    assert(rv.skip(p as int).len() == 0);
                    assert(dep_sorted_insert(rv.skip(p as int), d@) == seq![d@]);
                    assert(rv.take(p as int) + seq![d@] + rv.skip(p as int) =~= rv.take(p as int)
                        + seq![d@]);
                }
                break ;
            }
            let above = match r[p].cmp(&d) {
                Ordering::Greater => true,
                _ => false,
            };
            proof {
                assert(rv.skip(p as int)[0] == rv[p as int]);
                assert(rv[p as int] == r@[p as int]@);
            }
            if above {
                proof {
                    assert(dep_sorted_insert(rv.skip(p as int), d@) == seq![d@] + rv.skip(
                        p as int,
                    ));
                    assert(rv.take(p as int) + (seq![d@] + rv.skip(p as int)) =~= rv.take(
                        p as int,
                    ) + seq![d@] + rv.skip(p as int));
                }
                break ;
            }
            proof {
                assert(dep_sorted_insert(rv.skip(p as int), d@) == seq![rv[p as int]]
                    + dep_sorted_insert(rv.skip(p as int).drop_first(), d@));
                assert(rv.skip(p as int).drop_first() =~= rv.skip(p as int + 1));
                assert(rv.take(p as int) + (seq![rv[p as int]] + dep_sorted_insert(
                    rv.skip(p as int + 1),
                    d@,
                )) =~= rv.take(p as int + 1) + dep_sorted_insert(rv.skip(p as int + 1), d@));
            }
            p = p + 1;
        }
        let ghost rbefore = r@;
        r.insert(p, d);
        proof {
            lemma_deps_view_props(rbefore);
            lemma_deps_view_props(r@);
            assert(r@ == rbefore.insert(p as int, d));
            assert forall|x: int|
                0 <= x < r@.len() implies deps_view(r@)[x] == (rv.take(p as int) + seq![d@]
                + rv.skip(p as int))[x] by {
                assert(deps_view(r@)[x] == r@[x]@);
                if x < p as int {
                    assert(r@[x] == rbefore[x]);
                    assert(rv[x] == rbefore[x]@);
                } else if x == p as int {
                    assert(r@[x] == d);
                } else {
                    assert(r@[x] == rbefore[x - 1]);
                    assert(rv[x - 1] == rbefore[x - 1]@);
                }
            }
            assert(deps_view(r@) =~= rv.take(p as int) + seq![d@] + rv.skip(p as int));
            assert(orig.take(k + 1).drop_last() =~= orig.take(k));
            assert(orig.take(k + 1).last() == orig[k]);
            assert(dep_sort(orig.take(k + 1)) == dep_sorted_insert(dep_sort(orig.take(k)), orig[k]));
        }
        proof {
            k = k + 1;
        }
    }
    proof {
        assert(orig.take(k) =~= orig);
    }
    r
}

/// Drops every dependency that is the same value as the one before it.
pub fn dedup_deps(deps: Vec<Dependency>) -> (r: Vec<Dependency>)
    ensures
        deps_view(r@) == dedup_adjacent(deps_view(deps@)),
{
    let ghost orig = deps_view(deps@);
    let mut input = deps;
    let mut r: Vec<Dependency> = Vec::new();
    let ghost mut k: int = 0;
    while input.len() > 0
        invariant
            0 <= k <= orig.len(),
            deps_view(input@) == orig.skip(k),
            k == 0 ==> r@.len() == 0,
            k > 0 ==> r@.len() > 0 && dep_same(r@[r@.len() - 1]@, orig[k - 1]),
            k == 0 ==> deps_view(r@) =~= Seq::<DepView>::empty(),
            k > 0 ==> dedup_adjacent(orig) == deps_view(r@) + dedup_from(orig, k),
        decreases input@.len(),
    {
        let ghost prev = input@;
        proof {
            lemma_deps_view_props(prev);
            assert(input@.len() == orig.len() - k);
        }
        let d = input.remove(0);
        proof {
            lemma_deps_view_remove0(prev);
            assert(deps_view(prev).skip(1) =~= orig.skip(k + 1));
            assert(deps_view(input@) == orig.skip(k + 1));
            assert(d@ == prev[0]@);
            assert(deps_view(prev)[0] == prev[0]@);
            assert(deps_view(prev)[0] == orig.skip(k)[0]);
            assert(d@ == orig[k]);
        }
        let ghost rv = deps_view(r@);
        if r.len() == 0 {
            r.push(d);
            proof {
                assert(k == 0);
                lemma_deps_view_props(r@);
                assert(deps_view(r@) =~= seq![orig[0]]);
                assert(dedup_adjacent(orig) == seq![orig[0]] + dedup_from(orig, 1));
            }
        } else {
            let last_idx: usize = r.len() - 1;
            let keep = !same_dependency(&r[last_idx], &d);
            proof {
                lemma_deps_view_props(r@);
                assert(rv[rv.len() - 1] == r@[r@.len() - 1]@);
                assert(dep_same(r@[r@.len() - 1]@, orig[k - 1]));
            }
            if keep {
                let ghost rbefore = r@;
                r.push(d);
                proof {
                    lemma_deps_view_props(rbefore);
                    lemma_deps_view_props(r@);
                    assert(!dep_same(orig[k], orig[k - 1]));
                    assert(dedup_from(orig, k) == seq![orig[k]] + dedup_from(orig, k + 1));
                    assert(deps_view(r@) =~= rv.push(orig[k]));
                    assert(rv + (seq![orig[k]] + dedup_from(orig, k + 1)) =~= rv.push(orig[k])
                        + dedup_from(orig, k + 1));
                }
            } else {
                proof {
                    assert(dep_same(orig[k], orig[k - 1]));
                    assert(dedup_from(orig, k) == dedup_from(orig, k + 1));
                }
            }
        }
        proof {
            k = k + 1;
        }
    }
    proof {
        if k == 0 {
            assert(orig.len() == 0);
            assert(dedup_adjacent(orig) == orig);
            assert(deps_view(r@) =~= orig);
        } else {
            assert(dedup_from(orig, k) =~= Seq::<DepView>::empty());
            assert(deps_view(r@) + Seq::<DepView>::empty() =~= deps_view(r@));
        }
    }
    r
}

/// Adjacent-sortedness under the dependency ordering.
pub open spec fn deps_sorted(s: Seq<DepView>) -> bool {
    forall|i: int| 0 <= i < s.len() - 1 ==> dep_cmp(#[trigger] s[i], s[i + 1]) != Ordering::Greater
}

proof fn lemma_cons_to_multiset(a: DepView, t: Seq<DepView>)
    ensures
        (seq![a] + t).to_multiset() =~= t.to_multiset().insert(a),
{
    broadcast use vstd::seq_lib::group_to_multiset_ensures, vstd::multiset::group_multiset_axioms;

    let u = seq![a] + t;
    assert(u.remove(0) =~= t);
    assert(u[0] == a);
    assert(u.contains(a));
    assert(u.remove(0).to_multiset() =~= u.to_multiset().remove(u[0]));
    assert(u.to_multiset().count(a) > 0);
    assert forall|y: DepView|
        u.to_multiset().count(y) == t.to_multiset().insert(a).count(y) by {
        if y == a {
            assert(u.to_multiset().remove(a).count(a) == u.to_multiset().count(a) - 1);
            assert(t.to_multiset().count(a) == u.to_multiset().count(a) - 1);
        } else {
            assert(u.to_multiset().remove(a).count(y) == u.to_multiset().count(y));
        }
    }
}

proof fn lemma_insert_multiset(s: Seq<DepView>, x: DepView)
    ensures
        dep_sorted_insert(s, x).to_multiset() =~= s.to_multiset().insert(x),
        dep_sorted_insert(s, x).len() == s.len() + 1,
    decreases s.len(),
{
    let r = dep_sorted_insert(s, x);
    if s.len() == 0 {
        assert(seq![x] + Seq::<DepView>::empty() =~= seq![x]);
        lemma_cons_to_multiset(x, Seq::empty());
        assert(s =~= Seq::<DepView>::empty());
    } else if dep_cmp(s[0], x) != Ordering::Greater {
        let t = s.drop_first();
        lemma_insert_multiset(t, x);
        let rin = dep_sorted_insert(t, x);
        assert(r == seq![s[0]] + rin);
        lemma_cons_to_multiset(s[0], rin);
        lemma_cons_to_multiset(s[0], t);
        assert(seq![s[0]] + t =~= s);
        assert(r.to_multiset() =~= s.to_multiset().insert(x)) by {
            broadcast use vstd::multiset::group_multiset_axioms;

            assert(r.to_multiset() =~= rin.to_multiset().insert(s[0]));
            assert(rin.to_multiset() =~= t.to_multiset().insert(x));
            assert(s.to_multiset() =~= t.to_multiset().insert(s[0]));
            assert forall|y: DepView|
                r.to_multiset().count(y) == s.to_multiset().insert(x).count(y) by {}
        }
    } else {
        assert(r == seq![x] + s);
        lemma_cons_to_multiset(x, s);
    }
}

#[verifier::rlimit(100)]
proof fn lemma_insert_sorted(s: Seq<DepView>, x: DepView)
    requires
        deps_sorted(s),
    ensures
        deps_sorted(dep_sorted_insert(s, x)),
        s.len() == 0 ==> dep_sorted_insert(s, x) == seq![x],
        s.len() > 0 ==> dep_sorted_insert(s, x)[0] == s[0] || dep_sorted_insert(s, x)[0] == x,
    decreases s.len(),
{
    let r = dep_sorted_insert(s, x);
    if s.len() == 0 {
    } else if dep_cmp(s[0], x) != Ordering::Greater {
        let t = s.drop_first();
        assert(deps_sorted(t)) by {
            assert(forall|i: int| 0 <= i < t.len() ==> t[i] == s[i + 1]);
        }
        lemma_insert_sorted(t, x);
        let rin = dep_sorted_insert(t, x);
        assert(r == seq![s[0]] + rin);
        assert(deps_sorted(r)) by {
            assert forall|i: int|
                0 <= i < r.len() - 1 implies dep_cmp(#[trigger] r[i], r[i + 1])
                != Ordering::Greater by {
                if i == 0 {
                    assert(r[0] == s[0]);
                    assert(r[1] == rin[0]);
                    if t.len() == 0 {
                        assert(rin[0] == x);
                    } else {
                        assert(rin[0] == t[0] || rin[0] == x);
                        assert(t[0] == s[1]);
                        assert(dep_cmp(s[0], s[1]) != Ordering::Greater);
                    }
                } else {
                    assert(r[i] == rin[i - 1]);
                    assert(r[i + 1] == rin[i]);
                    assert(dep_cmp(rin[i - 1], rin[i]) != Ordering::Greater);
                }
            }
        }
    } else {
        assert(r == seq![x] + s);
        crate::dependency::lemma_dep_cmp_total(s[0], x);
        assert(deps_sorted(r)) by {
            assert forall|i: int|
                0 <= i < r.len() - 1 implies dep_cmp(#[trigger] r[i], r[i + 1])
                != Ordering::Greater by {
                if i == 0 {
                    assert(r[0] == x && r[1] == s[0]);
                    assert(dep_cmp(x, s[0]) == Ordering::Less);
                } else {
                    assert(r[i] == s[i - 1]);
                    assert(r[i + 1] == s[i]);
                }
            }
        }
    }
}

/// Law: sorting yields an adjacently ordered permutation of its input, and
/// deduplication then leaves no two adjacent equal values: together, the
/// output order is deterministic and free of value-level duplicates.
#[verifier::rlimit(100)]
pub proof fn lemma_dep_sort_sorted(s: Seq<DepView>)
    ensures
        deps_sorted(dep_sort(s)),
        dep_sort(s).to_multiset() == s.to_multiset(),
        dep_sort(s).len() == s.len(),
    decreases s.len(),
{
    broadcast use vstd::seq_lib::group_to_multiset_ensures, vstd::multiset::group_multiset_axioms;

    if s.len() > 0 {
        let t = s.drop_last();
        lemma_dep_sort_sorted(t);
        lemma_insert_sorted(dep_sort(t), s.last());
        lemma_insert_multiset(dep_sort(t), s.last());
        assert(t.push(s.last()) =~= s);
        assert(t.push(s.last()).to_multiset() =~= t.to_multiset().insert(s.last()));
        assert(dep_sort(s).to_multiset() =~= s.to_multiset());
    }
}

proof fn lemma_dedup_from_distinct(s: Seq<DepView>, i: int)
    requires
        1 <= i <= s.len(),
    ensures
        dedup_from(s, i).len() > 0 ==> !dep_same(dedup_from(s, i)[0], s[i - 1]),
        forall|j: int|
            0 <= j < dedup_from(s, i).len() - 1 ==> !dep_same(
                #[trigger] dedup_from(s, i)[j],
                dedup_from(s, i)[j + 1],
            ),
    decreases s.len() - i,
{
    if i < s.len() {
        lemma_dedup_from_distinct(s, i + 1);
        let d = dedup_from(s, i);
        if dep_same(s[i], s[i - 1]) {
        } else {
            let rest = dedup_from(s, i + 1);
            assert(d == seq![s[i]] + rest);
            assert forall|j: int|
                0 <= j < d.len() - 1 implies !dep_same(#[trigger] d[j], d[j + 1]) by {
                if j == 0 {
                    assert(d[0] == s[i]);
                    if rest.len() > 0 {
                        assert(d[1] == rest[0]);
                        assert(!dep_same(rest[0], s[i]));
                    }
                } else {
                    assert(d[j] == rest[j - 1]);
                    assert(d[j + 1] == rest[j]);
                }
            }
        }
    }
}

/// Law: after deduplication no element is the same value as the one before
/// it.
pub proof fn lemma_dedup_adjacent_distinct(s: Seq<DepView>)
    ensures
        forall|j: int|
            0 <= j < dedup_adjacent(s).len() - 1 ==> !dep_same(
                #[trigger] dedup_adjacent(s)[j],
                dedup_adjacent(s)[j + 1],
            ),
{
    if s.len() > 0 {
        lemma_dedup_from_distinct(s, 1);
        let out = dedup_adjacent(s);
        let rest = dedup_from(s, 1);
        assert(out == seq![s[0]] + rest);
        assert forall|j: int|
            0 <= j < out.len() - 1 implies !dep_same(#[trigger] out[j], out[j + 1]) by {
            if j == 0 {
                assert(out[0] == s[0]);
                if rest.len() > 0 {
                    assert(out[1] == rest[0]);
                    assert(!dep_same(rest[0], s[0]));
                }
            } else {
                assert(out[j] == rest[j - 1]);
                assert(out[j + 1] == rest[j]);
            }
        }
    }
}

#[verifier::rlimit(100)]
proof fn lemma_dedup_from_sorted(s: Seq<DepView>, i: int)
    requires
        deps_sorted(s),
        1 <= i <= s.len(),
    ensures
        dedup_from(s, i).len() > 0 ==> dep_cmp(s[i - 1], dedup_from(s, i)[0])
            != Ordering::Greater,
        forall|j: int|
            0 <= j < dedup_from(s, i).len() - 1 ==> dep_cmp(
                #[trigger] dedup_from(s, i)[j],
                dedup_from(s, i)[j + 1],
            ) != Ordering::Greater,
    decreases s.len() - i,
{
    if i < s.len() {
        lemma_dedup_from_sorted(s, i + 1);
        let d = dedup_from(s, i);
        if dep_same(s[i], s[i - 1]) {
            if d.len() > 0 {
                assert(dep_cmp(s[i], d[0]) != Ordering::Greater);
                assert(dep_cmp(s[i - 1], d[0]) == dep_cmp(s[i], d[0]));
            }
        } else {
            let rest = dedup_from(s, i + 1);
            assert(d == seq![s[i]] + rest);
            assert(dep_cmp(s[i - 1], s[i]) != Ordering::Greater);
            assert forall|j: int|
                0 <= j < d.len() - 1 implies dep_cmp(#[trigger] d[j], d[j + 1])
                != Ordering::Greater by {
                if j == 0 {
                    assert(d[0] == s[i]);
                    if rest.len() > 0 {
                        assert(d[1] == rest[0]);
                    }
                } else {
                    assert(d[j] == rest[j - 1]);
                    assert(d[j + 1] == rest[j]);
                }
            }
        }
    }
}

/// Law: deduplication keeps the order: on a sorted input the output is
/// still sorted.
#[verifier::rlimit(100)]
pub proof fn lemma_dedup_keeps_sorted(s: Seq<DepView>)
    requires
        deps_sorted(s),
    ensures
        deps_sorted(dedup_adjacent(s)),
{
    if s.len() > 0 {
        lemma_dedup_from_sorted(s, 1);
        let out = dedup_adjacent(s);
        let rest = dedup_from(s, 1);
        assert(out == seq![s[0]] + rest);
        assert forall|j: int|
            0 <= j < out.len() - 1 implies dep_cmp(#[trigger] out[j], out[j + 1])
            != Ordering::Greater by {
            if j == 0 {
                assert(out[0] == s[0]);
                if rest.len() > 0 {
                    assert(out[1] == rest[0]);
                }
            } else {
                assert(out[j] == rest[j - 1]);
                assert(out[j + 1] == rest[j]);
            }
        }
    }
}

} // verus!
