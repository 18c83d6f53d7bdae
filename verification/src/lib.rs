//! Scans build-tool log output for "Require upper bound dependencies" blocks,
//! resolves each flagged dependency to the highest version mentioned anywhere
//! in the same log, and returns the resolved set sorted and deduplicated.
//! The first parse failure anywhere — a flagged coordinate or a candidate
//! version — aborts the whole run with that error.

pub mod dependency;
pub mod errors;
pub mod scan;
pub mod sort;
pub mod version;

use vstd::prelude::*;

use crate::dependency::{
    coord_error, coord_parses, dep_of_coord, max_by_dep, resolve_error, resolve_ok, resolved_dep,
    DepView, Dependency,
};
use crate::errors::{DependencyParseError, ErrView};
use crate::scan::{captures_from, find_captures, span_seqs};
use crate::sort::{
    dedup_adjacent, dedup_deps, dep_sort, deps_view, lemma_deps_view_props, sorted_by_dep,
};
use crate::version::str_to_chars;

verus! {

/// The literal text that opens an upper-bound block, up to the coordinates.
pub open spec fn marker_prefix() -> Seq<char> {
    "Require upper bound dependencies error for "@
}

/// The literal text that must follow the coordinates.
pub open spec fn marker_suffix() -> Seq<char> {
    " paths to dependency are:"@
}

/// Every coordinate token flagged by an upper-bound block, in order of
/// appearance.
pub open spec fn flagged_coordinates(log: Seq<char>) -> Seq<Seq<char>> {
    captures_from(log, marker_prefix(), marker_suffix(), 0)
}

/// Parsing of all flagged coordinates, failing fast on the first bad one.
pub open spec fn parse_coords_spec(coords: Seq<Seq<char>>) -> Result<Seq<DepView>, ErrView>
    decreases coords.len(),
{
    if coords.len() == 0 {
        Ok(Seq::empty())
    } else if !coord_parses(coords[0]) {
        Err(coord_error(coords[0]))
    } else {
        match parse_coords_spec(coords.drop_first()) {
            Ok(ds) => Ok(seq![dep_of_coord(coords[0])] + ds),
            Err(e) => Err(e),
        }
    }
}

/// Resolution of every parsed dependency against the whole log, failing
/// fast on the first candidate version that does not parse.
pub open spec fn resolve_all_spec(deps: Seq<DepView>, log: Seq<char>) -> Result<
    Seq<DepView>,
    ErrView,
>
    decreases deps.len(),
{
    if deps.len() == 0 {
        Ok(Seq::empty())
    } else if !resolve_ok(deps[0], log) {
        Err(resolve_error(deps[0], log))
    } else {
        match resolve_all_spec(deps.drop_first(), log) {
            Ok(ds) => Ok(seq![resolved_dep(deps[0], log)] + ds),
            Err(e) => Err(e),
        }
    }
}

/// What `parse` returns for a given log: the flagged coordinates, each
/// resolved to its highest mentioned version, stably sorted and freed of
/// adjacent duplicates — or the first parse error met on the way.
pub open spec fn parse_spec(log: Seq<char>) -> Result<Seq<DepView>, ErrView> {
    match parse_coords_spec(flagged_coordinates(log)) {
        Err(e) => Err(e),
        Ok(ds) => match resolve_all_spec(ds, log) {
            Err(e) => Err(e),
            Ok(rs) => Ok(dedup_adjacent(dep_sort(rs))),
        },
    }
}

/// Runs the whole pipeline over one log.
pub fn parse(input: &str) -> (r: Result<Vec<Dependency>, DependencyParseError>)
    ensures
        r matches Ok(v) ==> parse_spec(input@) == Ok::<Seq<DepView>, ErrView>(deps_view(v@)),
        r matches Err(e) ==> parse_spec(input@) == Err::<Seq<DepView>, ErrView>(e@),
{
    let ghost lg = input@;
    let chars = str_to_chars(input);
    let pre = str_to_chars("Require upper bound dependencies error for ");
    let suf = str_to_chars(" paths to dependency are:");
    proof {
        assert(pre@ == marker_prefix());
        assert(suf@ == marker_suffix());
    }
    let spans = find_captures(&chars, &pre, &suf);
    let ghost coords = flagged_coordinates(lg);
    proof {
        assert(span_seqs(lg, spans@) == coords);
    }
    let mut deps: Vec<Dependency> = Vec::new();
    let m: usize = spans.len();
    let mut i: usize = 0;
    proof {
        assert(coords.skip(0) =~= coords);
        assert(deps_view(deps@) =~= Seq::<DepView>::empty());
        lemma_deps_view_props(deps@);
    }
    while i < m
        invariant
            i <= m,
            m == spans@.len(),
            lg == input@,
            coords == flagged_coordinates(lg),
            coords == span_seqs(lg, spans@),
            forall|x: int|
                0 <= x < m ==> (#[trigger] spans@[x]).0 <= spans@[x].1 && spans@[x].1 <= lg.len(),
            parse_coords_spec(coords) == (match parse_coords_spec(coords.skip(i as int)) {
                Ok(ds) => Ok::<Seq<DepView>, ErrView>(deps_view(deps@) + ds),
                Err(e) => Err(e),
            }),
        decreases m - i,
    {
        let span = spans[i];
        let cs = input.substring_char(span.0, span.1);
        proof {
            assert(coords[i as int] == lg.subrange(span.0 as int, span.1 as int));
            assert(cs@ == coords[i as int]);
            assert(coords.skip(i as int)[0] == coords[i as int]);
            assert(coords.skip(i as int).drop_first() =~= coords.skip(i as int + 1));
        }
        match Dependency::try_from(cs) {
            Ok(d) => {
                let ghost before = deps@;
                deps.push(d);
                proof {
                    lemma_deps_view_props(before);
                    lemma_deps_view_props(deps@);
                    assert(deps_view(deps@) =~= deps_view(before).push(d@)) by {
                        assert(forall|x: int| 0 <= x < before.len() ==> deps@[x] == before[x]);
                        assert(deps@[before.len() as int] == d);
                    }
                    assert(d@ == dep_of_coord(coords[i as int]));
                    assert(forall|ds: Seq<DepView>|
                        deps_view(before) + (seq![dep_of_coord(coords[i as int])] + ds)
                            =~= #[trigger] (deps_view(deps@) + ds));
                }
            },
            Err(e) => {
                proof {
                    assert(!coord_parses(coords[i as int]));
                    assert(parse_coords_spec(coords.skip(i as int)) == Err::<
                        Seq<DepView>,
                        ErrView,
                    >(coord_error(coords[i as int])));
                    assert(e@ == coord_error(coords[i as int]));
                }
                return Err(e);
            },
        }
        i = i + 1;
    }
    proof {
        assert(coords.skip(m as int).len() == 0);
        assert(parse_coords_spec(coords.skip(m as int)) == Ok::<Seq<DepView>, ErrView>(
            Seq::empty(),
        ));
        assert(deps_view(deps@) + Seq::<DepView>::empty() =~= deps_view(deps@));
    }
    let ghost dvs = deps_view(deps@);
    let mut resolved: Vec<Dependency> = Vec::new();
    let ghost mut k: int = 0;
    proof {
        assert(dvs.skip(0) =~= dvs);
        assert(deps_view(resolved@) =~= Seq::<DepView>::empty());
    }
    while deps.len() > 0
        invariant
            0 <= k <= dvs.len(),
            lg == input@,
            deps_view(deps@) == dvs.skip(k),
            parse_coords_spec(coords) == Ok::<Seq<DepView>, ErrView>(dvs),
            coords == flagged_coordinates(lg),
            resolve_all_spec(dvs, lg) == (match resolve_all_spec(dvs.skip(k), lg) {
                Ok(ds) => Ok::<Seq<DepView>, ErrView>(deps_view(resolved@) + ds),
                Err(e) => Err(e),
            }),
        decreases deps@.len(),
    {
        let ghost prev = deps@;
        proof {
            lemma_deps_view_props(prev);
        }
        let d = deps.remove(0);
        proof {
            lemma_deps_view_props(deps@);
            assert forall|x: int|
                0 <= x < deps@.len() implies #[trigger] deps_view(deps@)[x] == dvs.skip(k + 1)[x]
            by {
                assert(deps@[x] == prev[x + 1]);
                assert(deps_view(deps@)[x] == deps@[x]@);
                assert(deps_view(prev)[x + 1] == prev[x + 1]@);
                assert(deps_view(prev)[x + 1] == dvs.skip(k)[x + 1]);
            }
            assert(deps_view(deps@) =~= dvs.skip(k + 1));
            assert(d@ == prev[0]@);
            assert(deps_view(prev)[0] == prev[0]@);
            assert(d@ == dvs.skip(k)[0]);
            assert(d@ == dvs[k]);
            assert(dvs.skip(k).drop_first() =~= dvs.skip(k + 1));
        }
        match max_by_dep(d, input) {
            Ok(rd) => {
                let ghost before = resolved@;
                resolved.push(rd);
                proof {
                    lemma_deps_view_props(before);
                    lemma_deps_view_props(resolved@);
                    assert(deps_view(resolved@) =~= deps_view(before).push(rd@)) by {
                        assert(forall|x: int| 0 <= x < before.len() ==> resolved@[x] == before[x]);
                        assert(resolved@[before.len() as int] == rd);
                    }
                    assert(rd@ == resolved_dep(dvs[k], lg));
                    assert(forall|ds: Seq<DepView>|
                        deps_view(before) + (seq![resolved_dep(dvs[k], lg)] + ds)
                            =~= #[trigger] (deps_view(resolved@) + ds));
                }
            },
            Err(e) => {
                proof {
                    assert(!resolve_ok(dvs[k], lg));
                    assert(resolve_all_spec(dvs.skip(k), lg) == Err::<Seq<DepView>, ErrView>(
                        resolve_error(dvs[k], lg),
                    ));
                    assert(e@ == resolve_error(dvs[k], lg));
                }
                return Err(e);
            },
        }
        proof {
            k = k + 1;
        }
    }
    proof {
        assert(dvs.skip(k).len() == 0);
        assert(k == dvs.len());
        assert(resolve_all_spec(dvs.skip(k), lg) == Ok::<Seq<DepView>, ErrView>(Seq::empty()));
        assert(deps_view(resolved@) + Seq::<DepView>::empty() =~= deps_view(resolved@));
    }
    let sorted = sorted_by_dep(resolved);
    let out = dedup_deps(sorted);
    Ok(out)
}

/// Law: a log in which no upper-bound block is found resolves to the empty
/// list, not to an error.
pub proof fn lemma_no_flags_empty_result(log: Seq<char>)
    requires
        flagged_coordinates(log).len() == 0,
    ensures
        parse_spec(log) == Ok::<Seq<DepView>, ErrView>(Seq::<DepView>::empty()),
{
    assert(parse_coords_spec(flagged_coordinates(log)) == Ok::<Seq<DepView>, ErrView>(
        Seq::empty(),
    ));
    assert(resolve_all_spec(Seq::empty(), log) == Ok::<Seq<DepView>, ErrView>(Seq::empty()));
    assert(dep_sort(Seq::empty()) =~= Seq::<DepView>::empty());
    assert(dedup_adjacent(Seq::empty()) =~= Seq::<DepView>::empty());
}

/// Law: whatever `parse` returns on success is ordered under the dependency
/// ordering and holds no two adjacent entries of the same value.
pub proof fn lemma_parse_result_sorted(log: Seq<char>)
    requires
        parse_spec(log) is Ok,
    ensures
        crate::sort::deps_sorted(parse_spec(log)->Ok_0),
        forall|j: int|
            0 <= j < (parse_spec(log)->Ok_0).len() - 1 ==> !crate::sort::dep_same(
                #[trigger] (parse_spec(log)->Ok_0)[j],
                (parse_spec(log)->Ok_0)[j + 1],
            ),
{
    let ds = parse_coords_spec(flagged_coordinates(log))->Ok_0;
    let rs = resolve_all_spec(ds, log)->Ok_0;
    crate::sort::lemma_dep_sort_sorted(rs);
    crate::sort::lemma_dedup_keeps_sorted(dep_sort(rs));
    crate::sort::lemma_dedup_adjacent_distinct(dep_sort(rs));
}

} // verus!
