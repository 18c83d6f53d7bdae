//! Dependency coordinates: parsing `group:artifact:version` strings, total
//! ordering by group, artifact and version, and resolution of a flagged
//! dependency to the highest version mentioned anywhere in a log.

use vstd::prelude::*;

use crate::errors::{DependencyParseError, ErrView};
use crate::scan::{captures_from, find_captures, has_nonspace, is_space, span_seqs};
use crate::version::{
    cmp_segs, next_sep, numeric_segs, ord_flip, segments_of, str_to_chars, version_parses,
    SegView, Version, VersionView,
};

verus! {

use core::cmp::Ordering;
use vstd::string::StrSliceExecFns;

/// One dependency coordinate triple.
#[derive(Debug, PartialEq)]
pub struct Dependency {
    pub group_id: String,
    pub artifact_id: String,
    pub version: Version,
}

/// Specification-level shape of a `Dependency`.
#[verifier::ext_equal]
pub ghost struct DepView {
    pub group_id: Seq<char>,
    pub artifact_id: Seq<char>,
    pub version: VersionView,
}

impl View for Dependency {
    type V = DepView;

    open spec fn view(&self) -> DepView {
        DepView {
            group_id: self.group_id@,
            artifact_id: self.artifact_id@,
            version: self.version@,
        }
    }
}

/// Position of the first `:` in `s`.
pub open spec fn colon1(s: Seq<char>) -> int {
    next_sep(s, ':', 0)
}

/// Position of the second `:` in `s`.
pub open spec fn colon2(s: Seq<char>) -> int {
    next_sep(s, ':', colon1(s) + 1)
}

/// A coordinate string is well-formed when it splits on `:` into exactly
/// three parts, the group and artifact parts are non-empty, and the version
/// part holds at least one non-blank character.
pub open spec fn coordinate_ok(s: Seq<char>) -> bool {
    &&& colon1(s) < s.len()
    &&& colon2(s) < s.len()
    &&& next_sep(s, ':', colon2(s) + 1) == s.len()
    &&& colon1(s) > 0
    &&& colon2(s) > colon1(s) + 1
    &&& exists|x: int| colon2(s) < x < s.len() && !is_space(#[trigger] s[x])
}

pub open spec fn coord_group(s: Seq<char>) -> Seq<char> {
    s.subrange(0, colon1(s))
}

pub open spec fn coord_artifact(s: Seq<char>) -> Seq<char> {
    s.subrange(colon1(s) + 1, colon2(s))
}

pub open spec fn coord_version(s: Seq<char>) -> Seq<char> {
    s.subrange(colon2(s) + 1, s.len() as int)
}

/// A coordinate string yields a dependency when it is well-formed and its
/// version part parses.
pub open spec fn coord_parses(s: Seq<char>) -> bool {
    coordinate_ok(s) && version_parses(coord_version(s))
}

/// The dependency a well-formed coordinate string denotes.
pub open spec fn dep_of_coord(s: Seq<char>) -> DepView {
    DepView {
        group_id: coord_group(s),
        artifact_id: coord_artifact(s),
        version: VersionView { version: coord_version(s), parts: segments_of(coord_version(s)) },
    }
}

/// The error a failing coordinate string yields.
pub open spec fn coord_error(s: Seq<char>) -> ErrView {
    if !coordinate_ok(s) {
        ErrView::Coordinate(s)
    } else {
        ErrView::Version(coord_group(s), coord_artifact(s), coord_version(s))
    }
}

impl Dependency {
    /// Parses a `group:artifact:version` coordinate string. A string that
    /// does not split into three such parts — group or artifact empty,
    /// version missing or blank — is a coordinate error carrying the whole
    /// string; a well-formed string whose version part does not parse is a
    /// version error carrying group, artifact and the version error.
    pub fn try_from(coordinate_string: &str) -> (r: Result<Dependency, DependencyParseError>)
        ensures
            r is Ok <==> coord_parses(coordinate_string@),
            r matches Ok(d) ==> d@ == dep_of_coord(coordinate_string@),
            r matches Err(e) ==> e@ == coord_error(coordinate_string@),
    {
        let ghost s = coordinate_string@;
        let chars = str_to_chars(coordinate_string);
        let n: usize = chars.len();
        let i1: usize = crate::version::find_sep(&chars, ':', 0);
        let mut ok = true;
        if i1 == 0 || i1 >= n {
            ok = false;
        }
        if ok {
            let i2: usize = crate::version::find_sep(&chars, ':', i1 + 1);
            if i2 >= n || i2 <= i1 + 1 {
                ok = false;
            } else {
                let i3: usize = crate::version::find_sep(&chars, ':', i2 + 1);
                if i3 < n {
                    ok = false;
                } else if !has_nonspace(&chars, i2 + 1, n) {
                    ok = false;
                } else {
                    let group = coordinate_string.substring_char(0, i1).to_owned();
                    let artifact = coordinate_string.substring_char(i1 + 1, i2).to_owned();
                    let version_str = coordinate_string.substring_char(i2 + 1, n);
                    proof {
                        assert(coordinate_ok(s));
                        assert(version_str@ == coord_version(s));
                    }
                    match Version::try_from(version_str) {
                        Ok(version) => {
                            return Ok(Dependency { group_id: group, artifact_id: artifact, version });
                        },
                        Err(e) => {
                            return Err(
                                DependencyParseError::VersionError(group, artifact, e),
                            );
                        },
                    }
                }
            }
        }
        proof {
            assert(!coordinate_ok(s));
        }
        Err(DependencyParseError::CoordinateError(coordinate_string.to_owned()))
    }

    /// The group identifier.
    pub fn group_id(&self) -> (r: &str)
        ensures
            r@ == self@.group_id,
    {
        self.group_id.as_str()
    }

    /// The artifact identifier.
    pub fn artifact_id(&self) -> (r: &str)
        ensures
            r@ == self@.artifact_id,
    {
        self.artifact_id.as_str()
    }

    /// The version.
    pub fn version(&self) -> (r: &Version)
        ensures
            r@ == self@.version,
    {
        &self.version
    }
}

/// Lexicographic comparison of two character sequences by code point.
pub open spec fn chars_cmp(a: Seq<char>, b: Seq<char>) -> Ordering
    decreases a.len() + b.len(),
{
    if a.len() == 0 && b.len() == 0 {
        Ordering::Equal
    } else if a.len() == 0 {
        Ordering::Less
    } else if b.len() == 0 {
        Ordering::Greater
    } else if (a[0] as u32) < (b[0] as u32) {
        Ordering::Less
    } else if (a[0] as u32) > (b[0] as u32) {
        Ordering::Greater
    } else {
        chars_cmp(a.drop_first(), b.drop_first())
    }
}

/// Dependency ordering: group first, then artifact, then version.
pub open spec fn dep_cmp(a: DepView, b: DepView) -> Ordering {
    if chars_cmp(a.group_id, b.group_id) != Ordering::Equal {
        chars_cmp(a.group_id, b.group_id)
    } else if chars_cmp(a.artifact_id, b.artifact_id) != Ordering::Equal {
        chars_cmp(a.artifact_id, b.artifact_id)
    } else {
        cmp_segs(a.version.parts, b.version.parts)
    }
}

/// Exec comparison of two strings by code point.
fn str_cmp(x: &str, y: &str) -> (r: Ordering)
    ensures
        r == chars_cmp(x@, y@),
{
    let a = str_to_chars(x);
    let b = str_to_chars(y);
    let n: usize = a.len();
    let m: usize = b.len();
    let mut i: usize = 0;
    proof {
        assert(x@.skip(0) =~= x@);
        assert(y@.skip(0) =~= y@);
    }
    loop
        invariant
            i <= n,
            i <= m,
            n == x@.len(),
            m == y@.len(),
            a@ == x@,
            b@ == y@,
            chars_cmp(x@, y@) == chars_cmp(x@.skip(i as int), y@.skip(i as int)),
        decreases n - i + m - i,
    {
        proof {
            if i < n {
                assert(x@.skip(i as int)[0] == x@[i as int]);
                assert(x@.skip(i as int).drop_first() =~= x@.skip(i as int + 1));
            }
            if i < m {
                assert(y@.skip(i as int)[0] == y@[i as int]);
                assert(y@.skip(i as int).drop_first() =~= y@.skip(i as int + 1));
            }
        }
        if i < n && i < m {
            let ca: u32 = a[i] as u32;
            let cb: u32 = b[i] as u32;
            if ca < cb {
                return Ordering::Less;
            } else if ca > cb {
                return Ordering::Greater;
            }
            i = i + 1;
        } else if i < n {
            return Ordering::Greater;
        } else if i < m {
            return Ordering::Less;
        } else {
            return Ordering::Equal;
        }
    }
}

impl Dependency {
    /// Compares two dependencies by group, then artifact, then version.
    pub fn cmp(&self, other: &Dependency) -> (r: Ordering)
        ensures
            r == dep_cmp(self@, other@),
    {
        match str_cmp(self.group_id.as_str(), other.group_id.as_str()) {
            Ordering::Equal => {},
            o => {
                return o;
            },
        }
        match str_cmp(self.artifact_id.as_str(), other.artifact_id.as_str()) {
            Ordering::Equal => {},
            o => {
                return o;
            },
        }
        self.version.cmp(&other.version)
    }
}

/// Character comparison is reflexive and faithful: `Equal` means equality.
pub proof fn lemma_chars_cmp_eq_iff(a: Seq<char>, b: Seq<char>)
    ensures
        chars_cmp(a, b) == Ordering::Equal <==> a == b,
    decreases a.len() + b.len(),
{
    if a.len() == 0 && b.len() == 0 {
        assert(a =~= b);
    } else if a.len() == 0 || b.len() == 0 {
    } else {
        lemma_chars_cmp_eq_iff(a.drop_first(), b.drop_first());
        if (a[0] as u32) == (b[0] as u32) {
            assert(a[0] == b[0]) by {
                vstd::utf8::char_u32_cast(a[0], a[0] as u32);
                vstd::utf8::char_u32_cast(b[0], b[0] as u32);
            }
            if a.drop_first() == b.drop_first() {
                assert forall|i: int| 0 <= i < a.len() implies a[i] == b[i] by {
                    if i > 0 {
                        assert(a[i] == a.drop_first()[i - 1]);
                        assert(b[i] == b.drop_first()[i - 1]);
                    }
                }
                assert(a =~= b);
            }
            if a == b {
                assert(a.drop_first() =~= b.drop_first());
            }
        } else {
            if a == b {
                assert(a[0] == b[0]);
            }
        }
    }
}

/// Swapping the operands of the character comparison flips the outcome.
pub proof fn lemma_chars_cmp_antisymmetric(a: Seq<char>, b: Seq<char>)
    ensures
        chars_cmp(b, a) == ord_flip(chars_cmp(a, b)),
    decreases a.len() + b.len(),
{
    if a.len() > 0 && b.len() > 0 && (a[0] as u32) == (b[0] as u32) {
        lemma_chars_cmp_antisymmetric(a.drop_first(), b.drop_first());
    }
}

/// Law: dependency ordering is lexicographic by group, artifact and
/// version, and for any two dependencies exactly one of "less", "equal" and
/// "greater" holds; swapping the operands flips the outcome, and a
/// dependency compares equal to itself.
pub proof fn lemma_dep_cmp_total(a: DepView, b: DepView)
    ensures
        dep_cmp(a, b) == Ordering::Less || dep_cmp(a, b) == Ordering::Equal || dep_cmp(a, b)
            == Ordering::Greater,
        dep_cmp(b, a) == ord_flip(dep_cmp(a, b)),
        dep_cmp(a, a) == Ordering::Equal,
        (dep_cmp(a, b) == Ordering::Less) ==> !(dep_cmp(a, b) == Ordering::Equal) && !(dep_cmp(
            b,
            a,
        ) == Ordering::Less),
        a == b ==> dep_cmp(a, b) == Ordering::Equal,
        dep_cmp(a, b) == Ordering::Equal ==> a.group_id == b.group_id && a.artifact_id
            == b.artifact_id && cmp_segs(a.version.parts, b.version.parts) == Ordering::Equal,
{
    lemma_chars_cmp_antisymmetric(a.group_id, b.group_id);
    lemma_chars_cmp_antisymmetric(a.artifact_id, b.artifact_id);
    lemma_chars_cmp_eq_iff(a.group_id, b.group_id);
    lemma_chars_cmp_eq_iff(a.artifact_id, b.artifact_id);
    lemma_chars_cmp_eq_iff(a.group_id, a.group_id);
    lemma_chars_cmp_eq_iff(a.artifact_id, a.artifact_id);
    crate::version::lemma_cmp_segs_antisymmetric(a.version.parts, b.version.parts);
    crate::version::lemma_cmp_segs_reflexive(a.version.parts);
}

/// The literal `group:artifact:` prefix a candidate version must follow.
pub open spec fn cand_prefix(g: Seq<char>, a: Seq<char>) -> Seq<char> {
    g + seq![':'] + a + seq![':']
}

/// Every version string mentioned for this group/artifact pair anywhere in
/// the log: each non-blank run right after a literal `group:artifact:`
/// occurrence, leftmost first.
pub open spec fn candidate_strings(log: Seq<char>, g: Seq<char>, a: Seq<char>) -> Seq<Seq<char>> {
    captures_from(log, cand_prefix(g, a), Seq::empty(), 0)
}

/// Index of the first candidate whose version does not parse, or the length
/// when all parse.
pub open spec fn first_unparseable(cands: Seq<Seq<char>>) -> int
    decreases cands.len(),
{
    if cands.len() == 0 {
        0
    } else if !version_parses(cands[0]) {
        0
    } else {
        1 + first_unparseable(cands.drop_first())
    }
}

proof fn lemma_first_unparseable_at(cands: Seq<Seq<char>>, t: int)
    requires
        0 <= t <= cands.len(),
        forall|x: int| 0 <= x < t ==> version_parses(#[trigger] cands[x]),
        t < cands.len() ==> !version_parses(cands[t]),
    ensures
        first_unparseable(cands) == t,
    decreases t,
{
    if t == 0 {
    } else {
        let ct = cands.drop_first();
        assert(version_parses(cands[0]));
        assert(forall|x: int| 0 <= x < t - 1 ==> ct[x] == cands[x + 1]);
        if t - 1 < ct.len() {
            assert(ct[t - 1] == cands[t]);
        }
        lemma_first_unparseable_at(ct, t - 1);
    }
}

/// The version a candidate string denotes.
pub open spec fn cand_view(c: Seq<char>) -> VersionView {
    VersionView { version: c, parts: segments_of(c) }
}

/// The running maximum over the candidates, started at the dependency's own
/// version. A candidate that does not compare strictly below the running
/// maximum replaces it, so among equals the last one wins.
pub open spec fn fold_max(v: VersionView, cands: Seq<Seq<char>>) -> VersionView
    decreases cands.len(),
{
    if cands.len() == 0 {
        v
    } else {
        let u = fold_max(v, cands.drop_last());
        let w = cand_view(cands.last());
        if cmp_segs(u.parts, w.parts) == Ordering::Greater {
            u
        } else {
            w
        }
    }
}

/// Resolution succeeds when every candidate version parses.
pub open spec fn resolve_ok(d: DepView, log: Seq<char>) -> bool {
    first_unparseable(candidate_strings(log, d.group_id, d.artifact_id)) == candidate_strings(
        log,
        d.group_id,
        d.artifact_id,
    ).len()
}

/// The resolved dependency: same coordinates, version replaced by the
/// maximum over its own version and every candidate found in the log.
pub open spec fn resolved_dep(d: DepView, log: Seq<char>) -> DepView {
    DepView {
        group_id: d.group_id,
        artifact_id: d.artifact_id,
        version: fold_max(d.version, candidate_strings(log, d.group_id, d.artifact_id)),
    }
}

/// The error resolution yields: the first candidate that does not parse.
pub open spec fn resolve_error(d: DepView, log: Seq<char>) -> ErrView {
    let cands = candidate_strings(log, d.group_id, d.artifact_id);
    ErrView::Version(d.group_id, d.artifact_id, cands[first_unparseable(cands)])
}

/// Scans the whole log for every version mentioned for this dependency's
/// group/artifact pair and returns the dependency with the highest of them
/// (its own version included). Fails fast with a version error carrying the
/// first candidate that does not parse.
pub fn max_by_dep(dependency: Dependency, input: &str) -> (r: Result<
    Dependency,
    DependencyParseError,
>)
    ensures
        r is Ok <==> resolve_ok(dependency@, input@),
        r matches Ok(out) ==> out@ == resolved_dep(dependency@, input@),
        r matches Err(e) ==> e@ == resolve_error(dependency@, input@),
{
    let ghost dv = dependency@;
    let ghost lg = input@;
    let Dependency { group_id, artifact_id, version } = dependency;
    let log_chars = str_to_chars(input);
    let mut pre: Vec<char> = str_to_chars(group_id.as_str());
    pre.push(':');
    let ac = str_to_chars(artifact_id.as_str());
    let mut t: usize = 0;
    while t < ac.len()
        invariant
            t <= ac@.len(),
            ac@ == dv.artifact_id,
            pre@ == dv.group_id + seq![':'] + ac@.take(t as int),
        decreases ac@.len() - t,
    {
        let c = ac[t];
        pre.push(c);
        t = t + 1;
        proof {
            assert(pre@ =~= dv.group_id + seq![':'] + ac@.take(t as int));
        }
    }
    pre.push(':');
    proof {
        assert(ac@.take(ac@.len() as int) =~= ac@);
        assert(pre@ =~= cand_prefix(dv.group_id, dv.artifact_id));
    }
    let suf: Vec<char> = Vec::new();
    proof {
        assert(suf@ =~= Seq::<char>::empty());
    }
    let spans = find_captures(&log_chars, &pre, &suf);
    let ghost cands = candidate_strings(lg, dv.group_id, dv.artifact_id);
    proof {
        assert(span_seqs(lg, spans@) == cands);
    }
    let mut best: Version = version;
    let m: usize = spans.len();
    let mut idx: usize = 0;
    while idx < m
        invariant
            idx <= m,
            m == spans@.len(),
            dv == dependency@,
            lg == input@,
            cands == candidate_strings(lg, dv.group_id, dv.artifact_id),
            cands == span_seqs(lg, spans@),
            forall|x: int|
                0 <= x < m ==> (#[trigger] spans@[x]).0 <= spans@[x].1 && spans@[x].1 <= lg.len(),
            forall|x: int| 0 <= x < idx ==> version_parses(#[trigger] cands[x]),
            best@ == fold_max(dv.version, cands.take(idx as int)),
            group_id@ == dv.group_id,
            artifact_id@ == dv.artifact_id,
        decreases m - idx,
    {
        let span = spans[idx];
        let vs = input.substring_char(span.0, span.1);
        proof {
            assert(cands[idx as int] == lg.subrange(span.0 as int, span.1 as int));
            assert(vs@ == cands[idx as int]);
        }
        match Version::try_from(vs) {
            Ok(v) => {
                proof {
                    assert(v@ =~= cand_view(cands[idx as int]));
                    assert(cands.take(idx as int + 1).drop_last() =~= cands.take(idx as int));
                    assert(cands.take(idx as int + 1).last() == cands[idx as int]);
                }
                let keep = match best.cmp(&v) {
                    Ordering::Greater => true,
                    _ => false,
                };
                if !keep {
                    best = v;
                }
            },
            Err(e) => {
                proof {
                    lemma_first_unparseable_at(cands, idx as int);
                }
                return Err(DependencyParseError::VersionError(group_id, artifact_id, e));
            },
        }
        idx = idx + 1;
    }
    proof {
        lemma_first_unparseable_at(cands, cands.len() as int);
        assert(cands.take(cands.len() as int) =~= cands);
    }
    Ok(Dependency { group_id, artifact_id, version: best })
}

/// Candidate lists whose versions are all made of non-negative numbers.
pub open spec fn numeric_cands(cands: Seq<Seq<char>>) -> bool {
    forall|i: int| 0 <= i < cands.len() ==> numeric_segs(segments_of(#[trigger] cands[i]))
}

proof fn lemma_cmp_ge_trans(a: Seq<SegView>, b: Seq<SegView>, c: Seq<SegView>)
    requires
        numeric_segs(a),
        numeric_segs(b),
        numeric_segs(c),
        cmp_segs(a, b) != Ordering::Less,
        cmp_segs(b, c) != Ordering::Less,
    ensures
        cmp_segs(a, c) != Ordering::Less,
{
    crate::version::lemma_cmp_segs_antisymmetric(a, b);
    crate::version::lemma_cmp_segs_antisymmetric(b, c);
    crate::version::lemma_cmp_segs_antisymmetric(a, c);
    crate::version::lemma_cmp_segs_transitive(c, b, a);
}

proof fn lemma_fold_max_dominates(v: VersionView, cands: Seq<Seq<char>>)
    requires
        numeric_segs(v.parts),
        numeric_cands(cands),
    ensures
        numeric_segs(fold_max(v, cands).parts),
        cmp_segs(fold_max(v, cands).parts, v.parts) != Ordering::Less,
        forall|i: int|
            0 <= i < cands.len() ==> cmp_segs(
                fold_max(v, cands).parts,
                segments_of(#[trigger] cands[i]),
            ) != Ordering::Less,
    decreases cands.len(),
{
    let f = fold_max(v, cands);
    if cands.len() == 0 {
        crate::version::lemma_cmp_segs_reflexive(v.parts);
    } else {
        let cs0 = cands.drop_last();
        let x = cands.last();
        assert(numeric_cands(cs0)) by {
            assert(forall|i: int| 0 <= i < cs0.len() ==> cs0[i] == cands[i]);
        }
        lemma_fold_max_dominates(v, cs0);
        let u = fold_max(v, cs0);
        let w = cand_view(x);
        assert(numeric_segs(w.parts));
        crate::version::lemma_cmp_segs_antisymmetric(u.parts, w.parts);
        crate::version::lemma_cmp_segs_reflexive(w.parts);
        if cmp_segs(u.parts, w.parts) == Ordering::Greater {
            assert(f == u);
            assert forall|i: int|
                0 <= i < cands.len() implies cmp_segs(f.parts, segments_of(#[trigger] cands[i]))
                != Ordering::Less by {
                if i < cands.len() - 1 {
                    assert(cands[i] == cs0[i]);
                } else {
                    assert(cands[i] == x);
                }
            }
        } else {
            assert(f == w);
            assert(cmp_segs(w.parts, u.parts) != Ordering::Less);
            lemma_cmp_ge_trans(w.parts, u.parts, v.parts);
            assert forall|i: int|
                0 <= i < cands.len() implies cmp_segs(f.parts, segments_of(#[trigger] cands[i]))
                != Ordering::Less by {
                if i < cands.len() - 1 {
                    assert(cands[i] == cs0[i]);
                    lemma_cmp_ge_trans(w.parts, u.parts, segments_of(cands[i]));
                } else {
                    assert(cands[i] == x);
                }
            }
        }
    }
}

proof fn lemma_fold_max_absorbed(a: VersionView, cands: Seq<Seq<char>>)
    requires
        numeric_segs(a.parts),
        numeric_cands(cands),
        forall|i: int|
            0 <= i < cands.len() ==> cmp_segs(a.parts, segments_of(#[trigger] cands[i]))
                != Ordering::Less,
    ensures
        fold_max(a, cands) == a || cmp_segs(fold_max(a, cands).parts, a.parts) == Ordering::Equal,
    decreases cands.len(),
{
    if cands.len() > 0 {
        let cs0 = cands.drop_last();
        let x = cands.last();
        assert(numeric_cands(cs0) && forall|i: int|
            0 <= i < cs0.len() ==> cmp_segs(a.parts, segments_of(#[trigger] cs0[i]))
                != Ordering::Less) by {
            assert(forall|i: int| 0 <= i < cs0.len() ==> cs0[i] == cands[i]);
        }
        lemma_fold_max_absorbed(a, cs0);
        lemma_fold_max_dominates(a, cs0);
        let q0 = fold_max(a, cs0);
        let w = cand_view(x);
        assert(numeric_segs(w.parts));
        assert(cmp_segs(a.parts, w.parts) != Ordering::Less) by {
            assert(cands[cands.len() - 1] == x);
        }
        crate::version::lemma_cmp_segs_reflexive(a.parts);
        if q0 == a {
        } else {
            lemma_cmp_ge_trans(q0.parts, a.parts, w.parts);
        }
        if cmp_segs(q0.parts, w.parts) == Ordering::Greater {
        } else {
            crate::version::lemma_cmp_segs_antisymmetric(q0.parts, w.parts);
            crate::version::lemma_cmp_segs_transitive(w.parts, q0.parts, a.parts);
        }
    }
}

proof fn lemma_fold_max_idempotent(v: VersionView, cands: Seq<Seq<char>>)
    requires
        numeric_segs(v.parts),
        numeric_cands(cands),
    ensures
        fold_max(fold_max(v, cands), cands) == fold_max(v, cands),
    decreases cands.len(),
{
    if cands.len() > 0 {
        let cs0 = cands.drop_last();
        let x = cands.last();
        assert(numeric_cands(cs0)) by {
            assert(forall|i: int| 0 <= i < cs0.len() ==> cs0[i] == cands[i]);
        }
        lemma_fold_max_idempotent(v, cs0);
        lemma_fold_max_dominates(v, cs0);
        let u = fold_max(v, cs0);
        let w = fold_max(v, cands);
        let wx = cand_view(x);
        assert(numeric_segs(wx.parts)) by {
            assert(cands[cands.len() - 1] == x);
        }
        if cmp_segs(u.parts, wx.parts) == Ordering::Greater {
            assert(w == u);
            assert(fold_max(u, cands) == u);
        } else {
            assert(w == wx);
            crate::version::lemma_cmp_segs_antisymmetric(u.parts, wx.parts);
            assert forall|i: int|
                0 <= i < cs0.len() implies cmp_segs(wx.parts, segments_of(#[trigger] cs0[i]))
                != Ordering::Less by {
                assert(cs0[i] == cands[i]);
                lemma_cmp_ge_trans(wx.parts, u.parts, segments_of(cs0[i]));
            }
            lemma_fold_max_absorbed(wx, cs0);
            let q = fold_max(wx, cs0);
            crate::version::lemma_cmp_segs_reflexive(wx.parts);
            assert(cmp_segs(q.parts, wx.parts) != Ordering::Greater);
            assert(fold_max(wx, cands) == wx);
        }
    }
}

/// Law: resolution is idempotent. Re-resolving an already-resolved
/// dependency against the same log yields the same dependency, provided the
/// dependency's own version and every candidate in the log are made of
/// numeric segments only (on text segments the comparison is not
/// transitive, and a maximum need not be stable).
pub proof fn lemma_resolve_idempotent(d: DepView, log: Seq<char>)
    requires
        numeric_segs(d.version.parts),
        numeric_cands(candidate_strings(log, d.group_id, d.artifact_id)),
    ensures
        resolved_dep(resolved_dep(d, log), log) == resolved_dep(d, log),
        resolve_ok(resolved_dep(d, log), log) == resolve_ok(d, log),
{
    let r = resolved_dep(d, log);
    lemma_fold_max_idempotent(d.version, candidate_strings(log, d.group_id, d.artifact_id));
    assert(resolved_dep(r, log) =~= r);
}

} // verus!
