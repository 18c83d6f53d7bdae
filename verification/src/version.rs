//! The version model: a version string is exploded into an ordered sequence
//! of segments (numbers and opaque text tokens), and versions are compared
//! segment by segment.
//!
//! A version string is cut at every `.` into tokens; empty tokens are
//! dropped. Each token is then cut at every `-` into pieces (empty pieces are
//! kept), and a piece becomes a numeric segment when it is a non-empty run of
//! decimal digits whose value fits the numeric segment range, else a text
//! segment. A version parses successfully exactly when at least one numeric
//! segment comes out.

use vstd::prelude::*;

use crate::errors::UnparseableVersionError;

verus! {

use core::cmp::Ordering;
use vstd::string::StrSliceExecFns;

/// One comparable unit of a parsed version: a number or an opaque text token.
#[derive(Debug, PartialEq)]
pub enum Segment {
    Number(i32),
    Text(String),
}

/// Specification-level shape of a `Segment`.
pub ghost enum SegView {
    Number(int),
    Text(Seq<char>),
}

impl View for Segment {
    type V = SegView;

    open spec fn view(&self) -> SegView {
        match self {
            Segment::Number(n) => SegView::Number(*n as int),
            Segment::Text(t) => SegView::Text(t@),
        }
    }
}

/// The segment views of a vector of segments.
pub open spec fn segs_view(parts: Seq<Segment>) -> Seq<SegView> {
    parts.map_values(|seg: Segment| seg@)
}

pub open spec fn is_digit(c: char) -> bool {
    '0' as u32 <= c as u32 && c as u32 <= '9' as u32
}

pub open spec fn digit_val(c: char) -> int {
    c as u32 - '0' as u32
}

pub open spec fn all_digits(s: Seq<char>) -> bool {
    forall|i: int| 0 <= i < s.len() ==> is_digit(#[trigger] s[i])
}

/// The value of a run of decimal digits, most significant first.
pub open spec fn digits_val(s: Seq<char>) -> int
    decreases s.len(),
{
    if s.len() == 0 {
        0
    } else {
        digits_val(s.drop_last()) * 10 + digit_val(s.last())
    }
}

/// A piece becomes a number exactly when it is a non-empty digit run whose
/// value stays in the numeric segment range.
pub open spec fn is_numeric_piece(p: Seq<char>) -> bool {
    p.len() > 0 && all_digits(p) && digits_val(p) <= i32::MAX as int
}

pub open spec fn seg_of_piece(p: Seq<char>) -> SegView {
    if is_numeric_piece(p) {
        SegView::Number(digits_val(p))
    } else {
        SegView::Text(p)
    }
}

/// First position in `[from, s.len())` holding `stop`, or `s.len()`.
pub open spec fn next_sep(s: Seq<char>, stop: char, from: int) -> int
    decreases s.len() - from,
{
    if !(0 <= from < s.len()) {
        s.len() as int
    } else if s[from] == stop {
        from
    } else {
        next_sep(s, stop, from + 1)
    }
}

pub proof fn lemma_next_sep(s: Seq<char>, stop: char, from: int)
    requires
        0 <= from <= s.len(),
    ensures
        from <= next_sep(s, stop, from) <= s.len(),
        forall|i: int| from <= i < next_sep(s, stop, from) ==> s[i] != stop,
        next_sep(s, stop, from) < s.len() ==> s[next_sep(s, stop, from)] == stop,
    decreases s.len() - from,
{
    if from < s.len() && s[from] != stop {
        lemma_next_sep(s, stop, from + 1);
    }
}

/// First position in `[j, e)` holding `-`, or `e`.
pub open spec fn hyphen_end(s: Seq<char>, j: int, e: int) -> int
    decreases e - j,
{
    if !(0 <= j < e && e <= s.len()) {
        e
    } else if s[j] == '-' {
        j
    } else {
        hyphen_end(s, j + 1, e)
    }
}

pub proof fn lemma_hyphen_end(s: Seq<char>, j: int, e: int)
    requires
        0 <= j <= e <= s.len(),
    ensures
        j <= hyphen_end(s, j, e) <= e,
        forall|i: int| j <= i < hyphen_end(s, j, e) ==> s[i] != '-',
        hyphen_end(s, j, e) < e ==> s[hyphen_end(s, j, e)] == '-',
    decreases e - j,
{
    if j < e && s[j] != '-' {
        lemma_hyphen_end(s, j + 1, e);
    }
}

/// The segments of the token `s[j..e)`: the token is cut at every `-` and
/// every piece (empty ones included) becomes one segment.
pub open spec fn pieces_in(s: Seq<char>, j: int, e: int) -> Seq<SegView>
    decreases e - j,
    when 0 <= j <= e <= s.len()
    via pieces_in_decreases
{
    let k = hyphen_end(s, j, e);
    if k < e {
        seq![seg_of_piece(s.subrange(j, k))] + pieces_in(s, k + 1, e)
    } else {
        seq![seg_of_piece(s.subrange(j, e))]
    }
}

#[via_fn]
proof fn pieces_in_decreases(s: Seq<char>, j: int, e: int) {
    lemma_hyphen_end(s, j, e);
}

/// The segments of the whole version string from position `pos` on: tokens
/// are cut at every `.`, empty tokens are dropped, and each remaining token
/// contributes its pieces in order.
pub open spec fn segments_from(s: Seq<char>, pos: int) -> Seq<SegView>
    decreases s.len() - pos,
    when 0 <= pos <= s.len()
    via segments_from_decreases
{
    if pos == s.len() {
        Seq::empty()
    } else {
        let e = next_sep(s, '.', pos);
        let toks = if e > pos {
            pieces_in(s, pos, e)
        } else {
            Seq::empty()
        };
        let rest = if e < s.len() {
            segments_from(s, e + 1)
        } else {
            Seq::empty()
        };
        toks + rest
    }
}

#[via_fn]
proof fn segments_from_decreases(s: Seq<char>, pos: int) {
    if pos < s.len() {
        lemma_next_sep(s, '.', pos);
    }
}

/// The full segment sequence of a version string.
pub open spec fn segments_of(s: Seq<char>) -> Seq<SegView> {
    segments_from(s, 0)
}

pub open spec fn has_number(segs: Seq<SegView>) -> bool {
    exists|i: int| 0 <= i < segs.len() && (#[trigger] segs[i]) is Number
}

/// A version string parses exactly when its segments hold a number.
pub open spec fn version_parses(s: Seq<char>) -> bool {
    has_number(segments_of(s))
}

/// A parsed version: the original string kept for display, and its segments.
#[derive(Debug, PartialEq)]
pub struct Version {
    pub version: String,
    pub parts: Vec<Segment>,
}

/// Specification-level shape of a `Version`.
#[verifier::ext_equal]
pub ghost struct VersionView {
    pub version: Seq<char>,
    pub parts: Seq<SegView>,
}

impl View for Version {
    type V = VersionView;

    open spec fn view(&self) -> VersionView {
        VersionView { version: self.version@, parts: segs_view(self.parts@) }
    }
}

/// A well-formed version holds exactly the segments of its string, and at
/// least one of them is a number.
pub open spec fn version_wf(v: VersionView) -> bool {
    v.parts == segments_of(v.version) && has_number(v.parts)
}

/// The characters of `s`, for indexed scanning.
pub fn str_to_chars(s: &str) -> (r: Vec<char>)
    ensures
        r@ == s@,
{
    let n: usize = s.unicode_len();
    let mut r: Vec<char> = Vec::new();
    let mut i: usize = 0;
    while i < n
        invariant
            i <= n,
            n == s@.len(),
            r@ == s@.take(i as int),
        decreases n - i,
    {
        r.push(s.get_char(i));
        i = i + 1;
        proof {
            assert(r@ =~= s@.take(i as int));
        }
    }
    proof {
        assert(s@.take(n as int) =~= s@);
    }
    r
}

/// Exec mirror of `next_sep`.
pub fn find_sep(chars: &Vec<char>, stop: char, from: usize) -> (r: usize)
    requires
        from <= chars@.len(),
    ensures
        r as int == next_sep(chars@, stop, from as int),
        from <= r <= chars@.len(),
{
    let n: usize = chars.len();
    let mut i: usize = from;
    while i < n && chars[i] != stop
        invariant
            from <= i <= n,
            n == chars@.len(),
            next_sep(chars@, stop, from as int) == next_sep(chars@, stop, i as int),
        decreases n - i,
    {
        i = i + 1;
    }
    proof {
        lemma_next_sep(chars@, stop, from as int);
    }
    i
}

/// Exec mirror of `hyphen_end`.
fn find_hyphen(chars: &Vec<char>, from: usize, end: usize) -> (r: usize)
    requires
        from <= end && end <= chars@.len(),
    ensures
        r as int == hyphen_end(chars@, from as int, end as int),
        from <= r <= end,
{
    let mut i: usize = from;
    while i < end && chars[i] != '-'
        invariant
            from <= i <= end,
            end <= chars@.len(),
            hyphen_end(chars@, from as int, end as int) == hyphen_end(
                chars@,
                i as int,
                end as int,
            ),
        decreases end - i,
    {
        i = i + 1;
    }
    proof {
        lemma_hyphen_end(chars@, from as int, end as int);
    }
    i
}

proof fn lemma_digits_val_step(s: Seq<char>, j: int, i: int)
    requires
        0 <= j <= i < s.len(),
    ensures
        digits_val(s.subrange(j, i + 1)) == digits_val(s.subrange(j, i)) * 10 + digit_val(s[i]),
{
    assert(s.subrange(j, i + 1).drop_last() =~= s.subrange(j, i));
    assert(s.subrange(j, i + 1).last() == s[i]);
}

/// Classifies the piece `chars[j..k)` as one segment, taking its text from
/// the matching character range of `s`.
fn piece_segment(s: &str, chars: &Vec<char>, j: usize, k: usize) -> (r: Segment)
    requires
        chars@ == s@,
        j <= k && k <= chars@.len(),
    ensures
        r@ == seg_of_piece(chars@.subrange(j as int, k as int)),
{
    let ghost p = chars@.subrange(j as int, k as int);
    let mut i: usize = j;
    let mut val: u64 = 0;
    let mut digits = j < k;
    while i < k && digits
        invariant
            j <= i <= k,
            k <= chars@.len(),
            p == chars@.subrange(j as int, k as int),
            digits ==> all_digits(chars@.subrange(j as int, i as int)),
            !digits ==> !all_digits(p) || j == k,
            digits ==> digits_val(chars@.subrange(j as int, i as int)) <= i32::MAX as int
                ==> val == digits_val(chars@.subrange(j as int, i as int)),
            digits ==> (val > i32::MAX as u64 <==> digits_val(
                chars@.subrange(j as int, i as int),
            ) > i32::MAX as int),
            digits ==> val <= 0x7fffffffu64 + 1,
            j < k ==> digits || !all_digits(p),
            j == k ==> !digits,
        decreases k - i,
    {
        let c = chars[i];
        let d: u32 = c as u32;
        proof {
            lemma_digits_val_step(chars@, j as int, i as int);
        }
        if d < 48 || d > 57 {
            digits = false;
            proof {
                assert(!is_digit(chars@[i as int]));
                assert(p[i - j] == chars@[i as int]);
                assert(!all_digits(p));
            }
        } else {
            let dv: u64 = (d - 48) as u64;
            if val > i32::MAX as u64 {
                // The run already overflows; it stays text whatever follows.
                val = i32::MAX as u64 + 1;
                proof {
                    let pre = chars@.subrange(j as int, i as int);
                    assert(digits_val(pre) * 10 + digit_val(chars@[i as int]) > i32::MAX as int);
                }
            } else {
                val = val * 10 + dv;
                if val > i32::MAX as u64 {
                    val = i32::MAX as u64 + 1;
                }
            }
            proof {
                let q = chars@.subrange(j as int, (i + 1) as int);
                let pre = chars@.subrange(j as int, i as int);
                assert forall|x: int| 0 <= x < q.len() implies is_digit(#[trigger] q[x]) by {
                    if x < q.len() - 1 {
                        assert(q[x] == pre[x]);
                        assert(is_digit(pre[x]));
                    } else {
                        assert(q[x] == chars@[i as int]);
                    }
                }
            }
        }
        i = i + 1;
    }
    if digits && val <= i32::MAX as u64 {
        proof {
            assert(chars@.subrange(j as int, i as int) =~= p);
            assert(is_numeric_piece(p));
        }
        Segment::Number(val as i32)
    } else {
        proof {
            if j == k {
                assert(p.len() == 0);
                assert(!is_numeric_piece(p));
            } else if digits {
                assert(chars@.subrange(j as int, i as int) =~= p);
                assert(digits_val(p) > i32::MAX as int);
                assert(!is_numeric_piece(p));
            } else {
                assert(!is_numeric_piece(p));
            }
        }
        Segment::Text(s.substring_char(j, k).to_owned())
    }
}

impl Version {
    /// Parses a version string into its segments. Succeeds exactly when the
    /// segments hold at least one number; on failure the error carries the
    /// original string.
    pub fn try_from(version_string: &str) -> (r: Result<Version, UnparseableVersionError>)
        ensures
            r is Ok <==> version_parses(version_string@),
            r matches Ok(v) ==> v@.version == version_string@ && v@.parts == segments_of(
                version_string@,
            ),
            r matches Err(e) ==> e@ == version_string@,
    {
        let chars = str_to_chars(version_string);
        let ghost sq = version_string@;
        let n: usize = chars.len();
        let mut parts: Vec<Segment> = Vec::new();
        let mut has_num = false;
        let mut pos: usize = 0;
        while pos < n
            invariant
                sq == version_string@,
                pos <= n,
                n == sq.len(),
                chars@ == sq,
                segments_of(sq) == segs_view(parts@) + segments_from(sq, pos as int),
                has_num == has_number(segs_view(parts@)),
            decreases n - pos,
        {
            let e: usize = find_sep(&chars, '.', pos);
            let ghost rest = if e < n {
                segments_from(sq, e as int + 1)
            } else {
                Seq::<SegView>::empty()
            };
            proof {
                assert(segments_from(sq, pos as int) == (if e > pos {
                    pieces_in(sq, pos as int, e as int)
                } else {
                    Seq::<SegView>::empty()
                }) + rest);
            }
            if e > pos {
                let mut j: usize = pos;
                loop
                    invariant_except_break
                        sq == version_string@,
                        pos <= j <= e,
                        e <= n,
                        n == sq.len(),
                        chars@ == sq,
                        segments_of(sq) == segs_view(parts@) + pieces_in(sq, j as int, e as int)
                            + rest,
                        has_num == has_number(segs_view(parts@)),
                    ensures
                        segments_of(sq) == segs_view(parts@) + rest,
                        has_num == has_number(segs_view(parts@)),
                        chars@ == sq,
                    decreases e - j,
                {
                    let k: usize = find_hyphen(&chars, j, e);
                    let seg = piece_segment(version_string, &chars, j, k);
                    let is_num = match seg {
                        Segment::Number(_) => true,
                        Segment::Text(_) => false,
                    };
                    proof {
                        let old_view = segs_view(parts@);
                        assert(segs_view(parts@.push(seg)) =~= old_view.push(seg@));
                        if is_num {
                            let m = old_view.len() as int;
                            assert(old_view.push(seg@)[m] is Number);
                            assert(has_number(old_view.push(seg@)));
                        } else {
                            assert(has_number(old_view.push(seg@)) == has_number(old_view)) by {
                                let nv = old_view.push(seg@);
                                if has_number(nv) {
                                    let w = choose|w: int|
                                        0 <= w < nv.len() && (#[trigger] nv[w]) is Number;
                                    assert(w < old_view.len());
                                    assert(old_view[w] is Number);
                                }
                                if has_number(old_view) {
                                    let w = choose|w: int|
                                        0 <= w < old_view.len() && (#[trigger] old_view[w]) is Number;
                                    assert(nv[w] is Number);
                                }
                            }
                        }
                    }
                    parts.push(seg);
                    if is_num {
                        has_num = true;
                    }
                    if k < e {
                        proof {
                            assert(pieces_in(sq, j as int, e as int) == seq![
                                seg_of_piece(sq.subrange(j as int, k as int)),
                            ] + pieces_in(sq, k as int + 1, e as int));
                            assert(segs_view(parts@) + pieces_in(sq, k as int + 1, e as int)
                                =~= segs_view(parts@.drop_last()) + pieces_in(
                                sq,
                                j as int,
                                e as int,
                            ));
                        }
                        j = k + 1;
                    } else {
                        proof {
                            assert(k == e);
                            assert(pieces_in(sq, j as int, e as int) == seq![
                                seg_of_piece(sq.subrange(j as int, e as int)),
                            ]);
                            assert(segs_view(parts@) =~= segs_view(parts@.drop_last())
                                + pieces_in(sq, j as int, e as int));
                        }
                        break ;
                    }
                }
            }
            if e < n {
                pos = e + 1;
            } else {
                pos = n;
            }
        }
        proof {
            assert(segments_from(sq, n as int) =~= Seq::<SegView>::empty());
            assert(segments_of(sq) =~= segs_view(parts@));
        }
        if has_num {
            Ok(Version { version: version_string.to_owned(), parts })
        } else {
            Err(UnparseableVersionError::from(version_string))
        }
    }

    /// The original version string.
    pub fn as_str(&self) -> (r: &str)
        ensures
            r@ == self@.version,
    {
        self.version.as_str()
    }

    /// The parsed segments.
    pub fn parts(&self) -> (r: &Vec<Segment>)
        ensures
            segs_view(r@) == self@.parts,
    {
        &self.parts
    }
}


/// Flips an ordering outcome.
pub open spec fn ord_flip(o: Ordering) -> Ordering {
    match o {
        Ordering::Less => Ordering::Greater,
        Ordering::Equal => Ordering::Equal,
        Ordering::Greater => Ordering::Less,
    }
}

/// Segment-by-segment comparison. At matching positions two numbers compare
/// by value, while any pair involving a text segment counts as equal. When
/// one side runs out, the remaining segments of the longer side decide: a
/// zero is neutral and skipped, any other number makes the longer side
/// greater, and a text segment makes the longer side smaller.
pub open spec fn cmp_segs(a: Seq<SegView>, b: Seq<SegView>) -> Ordering
    decreases a.len() + b.len(),
{
    if a.len() == 0 && b.len() == 0 {
        Ordering::Equal
    } else if a.len() == 0 {
        match b[0] {
            SegView::Number(m) => if m == 0 {
                cmp_segs(a, b.drop_first())
            } else {
                Ordering::Less
            },
            SegView::Text(_) => Ordering::Greater,
        }
    } else if b.len() == 0 {
        match a[0] {
            SegView::Number(n) => if n == 0 {
                cmp_segs(a.drop_first(), b)
            } else {
                Ordering::Greater
            },
            SegView::Text(_) => Ordering::Less,
        }
    } else {
        match (a[0], b[0]) {
            (SegView::Number(n), SegView::Number(m)) => if n < m {
                Ordering::Less
            } else if n > m {
                Ordering::Greater
            } else {
                cmp_segs(a.drop_first(), b.drop_first())
            },
            _ => cmp_segs(a.drop_first(), b.drop_first()),
        }
    }
}

/// Ordering between two versions is decided by their segments alone.
pub open spec fn version_cmp(a: VersionView, b: VersionView) -> Ordering {
    cmp_segs(a.parts, b.parts)
}

impl Version {
    /// Compares two versions segment by segment.
    pub fn cmp(&self, other: &Version) -> (r: Ordering)
        ensures
            r == version_cmp(self@, other@),
    {
        let ghost av = self@.parts;
        let ghost bv = other@.parts;
        let n: usize = self.parts.len();
        let m: usize = other.parts.len();
        let mut i: usize = 0;
        let mut j: usize = 0;
        proof {
            assert(av.skip(0) =~= av);
            assert(bv.skip(0) =~= bv);
        }
        loop
            invariant
                i <= n,
                j <= m,
                n == self.parts@.len(),
                m == other.parts@.len(),
                av == segs_view(self.parts@),
                bv == segs_view(other.parts@),
                cmp_segs(av, bv) == cmp_segs(av.skip(i as int), bv.skip(j as int)),
            decreases n - i + m - j,
        {
            proof {
                assert(av.skip(i as int).len() == n - i);
                assert(bv.skip(j as int).len() == m - j);
                if i < n {
                    assert(av.skip(i as int)[0] == av[i as int]);
                    assert(av.skip(i as int).drop_first() =~= av.skip(i as int + 1));
                }
                if j < m {
                    assert(bv.skip(j as int)[0] == bv[j as int]);
                    assert(bv.skip(j as int).drop_first() =~= bv.skip(j as int + 1));
                }
            }
            if i < n && j < m {
                match (&self.parts[i], &other.parts[j]) {
                    (Segment::Number(x), Segment::Number(y)) => {
                        if *x < *y {
                            return Ordering::Less;
                        } else if *x > *y {
                            return Ordering::Greater;
                        }
                    },
                    _ => {},
                }
                i = i + 1;
                j = j + 1;
            } else if i < n {
                match &self.parts[i] {
                    Segment::Number(x) => {
                        if *x != 0 {
                            return Ordering::Greater;
                        }
                    },
                    Segment::Text(_) => {
                        return Ordering::Less;
                    },
                }
                i = i + 1;
            } else if j < m {
                match &other.parts[j] {
                    Segment::Number(y) => {
                        if *y != 0 {
                            return Ordering::Less;
                        }
                    },
                    Segment::Text(_) => {
                        return Ordering::Greater;
                    },
                }
                j = j + 1;
            } else {
                return Ordering::Equal;
            }
        }
    }
}

/// Every version compares equal to itself.
pub proof fn lemma_cmp_segs_reflexive(a: Seq<SegView>)
    ensures
        cmp_segs(a, a) == Ordering::Equal,
    decreases a.len(),
{
    if a.len() > 0 {
        lemma_cmp_segs_reflexive(a.drop_first());
    }
}

/// Swapping the operands flips the outcome.
pub proof fn lemma_cmp_segs_antisymmetric(a: Seq<SegView>, b: Seq<SegView>)
    ensures
        cmp_segs(b, a) == ord_flip(cmp_segs(a, b)),
    decreases a.len() + b.len(),
{
    if a.len() == 0 && b.len() == 0 {
    } else if a.len() == 0 {
        if b[0] matches SegView::Number(m) && m == 0 {
            lemma_cmp_segs_antisymmetric(a, b.drop_first());
        }
    } else if b.len() == 0 {
        if a[0] matches SegView::Number(n) && n == 0 {
            lemma_cmp_segs_antisymmetric(a.drop_first(), b);
        }
    } else {
        lemma_cmp_segs_antisymmetric(a.drop_first(), b.drop_first());
    }
}

/// Segment sequences made of non-negative numbers only; on these the
/// comparison behaves as a total preorder.
pub open spec fn numeric_segs(s: Seq<SegView>) -> bool {
    forall|i: int|
        0 <= i < s.len() ==> ((#[trigger] s[i]) matches SegView::Number(n) && n >= 0)
}

/// The same sequence without its trailing zero segments; on numeric
/// sequences comparison is plain lexicographic order on this form.
pub open spec fn strip_zeros(s: Seq<SegView>) -> Seq<SegView>
    decreases s.len(),
{
    if s.len() > 0 && s.last() == SegView::Number(0int) {
        strip_zeros(s.drop_last())
    } else {
        s
    }
}

/// Plain lexicographic comparison (no zero skipping at the tail).
pub open spec fn lex_cmp(a: Seq<SegView>, b: Seq<SegView>) -> Ordering
    decreases a.len() + b.len(),
{
    if a.len() == 0 && b.len() == 0 {
        Ordering::Equal
    } else if a.len() == 0 {
        Ordering::Less
    } else if b.len() == 0 {
        Ordering::Greater
    } else {
        match (a[0], b[0]) {
            (SegView::Number(n), SegView::Number(m)) => if n < m {
                Ordering::Less
            } else if n > m {
                Ordering::Greater
            } else {
                lex_cmp(a.drop_first(), b.drop_first())
            },
            _ => lex_cmp(a.drop_first(), b.drop_first()),
        }
    }
}

proof fn lemma_strip_zeros_numeric(s: Seq<SegView>)
    requires
        numeric_segs(s),
    ensures
        numeric_segs(strip_zeros(s)),
        strip_zeros(s).len() <= s.len(),
        forall|i: int| 0 <= i < strip_zeros(s).len() ==> strip_zeros(s)[i] == s[i],
    decreases s.len(),
{
    if s.len() > 0 && s.last() == SegView::Number(0int) {
        assert(numeric_segs(s.drop_last())) by {
            assert(forall|i: int|
                0 <= i < s.drop_last().len() ==> s.drop_last()[i] == s[i]);
        }
        lemma_strip_zeros_numeric(s.drop_last());
        assert forall|i: int| 0 <= i < strip_zeros(s).len() implies strip_zeros(s)[i] == s[i] by {
            assert(strip_zeros(s)[i] == strip_zeros(s.drop_last())[i]);
            assert(strip_zeros(s.drop_last())[i] == s.drop_last()[i]);
            assert(s.drop_last()[i] == s[i]);
        }
    }
}

/// How stripping interacts with removing the first element.
proof fn lemma_strip_zeros_cons(s: Seq<SegView>)
    requires
        s.len() > 0,
    ensures
        strip_zeros(s) == if strip_zeros(s.drop_first()).len() > 0 {
            seq![s[0]] + strip_zeros(s.drop_first())
        } else if s[0] == SegView::Number(0int) {
            Seq::<SegView>::empty()
        } else {
            seq![s[0]]
        },
    decreases s.len(),
{
    let t = s.drop_first();
    if s.len() == 1 {
        assert(t.len() == 0);
        if s[0] == SegView::Number(0int) {
            assert(s.last() == s[0]);
            assert(strip_zeros(s) == strip_zeros(s.drop_last()));
            assert(s.drop_last().len() == 0);
        } else {
            assert(strip_zeros(s) == s);
            assert(s =~= seq![s[0]]);
        }
    } else {
        if s.last() == SegView::Number(0int) {
            assert(strip_zeros(s) == strip_zeros(s.drop_last()));
            assert(s.drop_last()[0] == s[0]);
            lemma_strip_zeros_cons(s.drop_last());
            assert(s.drop_last().drop_first() =~= t.drop_last());
            assert(t.last() == s.last());
            assert(strip_zeros(t) == strip_zeros(t.drop_last()));
        } else {
            assert(strip_zeros(s) == s);
            assert(t.last() == s.last());
            assert(strip_zeros(t) == t);
            assert(t.len() > 0);
            assert(s =~= seq![s[0]] + t);
        }
    }
}

/// On numeric sequences the comparison equals plain lexicographic order on
/// the zero-stripped forms.
proof fn lemma_cmp_segs_is_lex_stripped(a: Seq<SegView>, b: Seq<SegView>)
    requires
        numeric_segs(a),
        numeric_segs(b),
    ensures
        cmp_segs(a, b) == lex_cmp(strip_zeros(a), strip_zeros(b)),
    decreases a.len() + b.len(),
{
    let sa = strip_zeros(a);
    let sb = strip_zeros(b);
    if a.len() == 0 && b.len() == 0 {
    } else if a.len() == 0 {
        let bm = b[0];
        assert(bm matches SegView::Number(m) && m >= 0);
        lemma_strip_zeros_cons(b);
        assert(numeric_segs(b.drop_first())) by {
            assert(forall|i: int|
                0 <= i < b.drop_first().len() ==> b.drop_first()[i] == b[i + 1]);
        }
        lemma_cmp_segs_is_lex_stripped(a, b.drop_first());
        if bm == SegView::Number(0int) {
            if strip_zeros(b.drop_first()).len() > 0 {
                assert(sb.len() > 0);
            }
        } else {
            assert(sb.len() > 0);
        }
    } else if b.len() == 0 {
        let an = a[0];
        assert(an matches SegView::Number(n) && n >= 0);
        lemma_strip_zeros_cons(a);
        assert(numeric_segs(a.drop_first())) by {
            assert(forall|i: int|
                0 <= i < a.drop_first().len() ==> a.drop_first()[i] == a[i + 1]);
        }
        lemma_cmp_segs_is_lex_stripped(a.drop_first(), b);
        if an == SegView::Number(0int) {
            if strip_zeros(a.drop_first()).len() > 0 {
                assert(sa.len() > 0);
            }
        } else {
            assert(sa.len() > 0);
        }
    } else {
        let an = a[0];
        let bm = b[0];
        assert(an matches SegView::Number(n) && n >= 0);
        assert(bm matches SegView::Number(m) && m >= 0);
        let at = a.drop_first();
        let bt = b.drop_first();
        assert(numeric_segs(at)) by {
            assert(forall|i: int| 0 <= i < at.len() ==> at[i] == a[i + 1]);
        }
        assert(numeric_segs(bt)) by {
            assert(forall|i: int| 0 <= i < bt.len() ==> bt[i] == b[i + 1]);
        }
        lemma_strip_zeros_cons(a);
        lemma_strip_zeros_cons(b);
        lemma_cmp_segs_is_lex_stripped(at, bt);
        let n = an->Number_0;
        let m = bm->Number_0;
        if n < m {
            if sa.len() > 0 && sb.len() > 0 {
                assert(sa[0] == an && sb[0] == bm);
            } else if sa.len() == 0 {
                assert(n == 0 && m > 0);
                assert(sb.len() > 0);
            }
        } else if n > m {
            if sa.len() > 0 && sb.len() > 0 {
                assert(sa[0] == an && sb[0] == bm);
            } else if sb.len() == 0 {
                assert(m == 0 && n > 0);
                assert(sa.len() > 0);
            }
        } else {
            let sat = strip_zeros(at);
            let sbt = strip_zeros(bt);
            if sat.len() > 0 && sbt.len() > 0 {
                assert(sa == seq![an] + sat && sb == seq![bm] + sbt);
                assert(sa[0] == an && sb[0] == bm);
                assert(sa.drop_first() =~= sat);
                assert(sb.drop_first() =~= sbt);
            } else if sat.len() == 0 && sbt.len() == 0 {
                if n == 0 {
                    assert(sa.len() == 0 && sb.len() == 0);
                } else {
                    assert(sa == seq![an] && sb == seq![bm]);
                    assert(sa.drop_first() =~= sat);
                    assert(sb.drop_first() =~= sbt);
                }
            } else if sat.len() == 0 {
                assert(sb == seq![bm] + sbt);
                if n == 0 {
                    assert(sa.len() == 0);
                    assert(lex_cmp(sat, sbt) == Ordering::Less);
                    assert(lex_cmp(sa, sb) == Ordering::Less);
                } else {
                    assert(sa == seq![an]);
                    assert(sa[0] == an && sb[0] == bm);
                    assert(sa.drop_first() =~= sat);
                    assert(sb.drop_first() =~= sbt);
                }
            } else {
                assert(sa == seq![an] + sat);
                if m == 0 {
                    assert(sb.len() == 0);
                    assert(lex_cmp(sat, sbt) == Ordering::Greater);
                    assert(lex_cmp(sa, sb) == Ordering::Greater);
                } else {
                    assert(sb == seq![bm]);
                    assert(sa[0] == an && sb[0] == bm);
                    assert(sa.drop_first() =~= sat);
                    assert(sb.drop_first() =~= sbt);
                }
            }
        }
    }
}

/// On numeric sequences, lexicographic equality is plain equality.
proof fn lemma_lex_cmp_eq_iff(a: Seq<SegView>, b: Seq<SegView>)
    requires
        numeric_segs(a),
        numeric_segs(b),
    ensures
        lex_cmp(a, b) == Ordering::Equal <==> a == b,
    decreases a.len() + b.len(),
{
    if a.len() == 0 && b.len() == 0 {
        assert(a =~= b);
    } else if a.len() == 0 || b.len() == 0 {
    } else {
        assert(a[0] matches SegView::Number(n) && n >= 0);
        assert(b[0] matches SegView::Number(m) && m >= 0);
        let at = a.drop_first();
        let bt = b.drop_first();
        assert(numeric_segs(at)) by {
            assert(forall|i: int| 0 <= i < at.len() ==> at[i] == a[i + 1]);
        }
        assert(numeric_segs(bt)) by {
            assert(forall|i: int| 0 <= i < bt.len() ==> bt[i] == b[i + 1]);
        }
        lemma_lex_cmp_eq_iff(at, bt);
        if a[0] == b[0] {
            if at == bt {
                assert forall|i: int| 0 <= i < a.len() implies a[i] == b[i] by {
                    if i > 0 {
                        assert(a[i] == at[i - 1]);
                        assert(b[i] == bt[i - 1]);
                    }
                }
                assert(a =~= b);
            }
            if a == b {
                assert forall|i: int| 0 <= i < at.len() implies at[i] == bt[i] by {
                    assert(at[i] == a[i + 1]);
                    assert(bt[i] == b[i + 1]);
                }
                assert(at =~= bt);
            }
        } else {
            if a == b {
                assert(a[0] == b[0]);
            }
        }
    }
}

/// Lexicographic strictly-less is transitive on numeric sequences.
proof fn lemma_lex_cmp_trans_less(a: Seq<SegView>, b: Seq<SegView>, c: Seq<SegView>)
    requires
        numeric_segs(a),
        numeric_segs(b),
        numeric_segs(c),
        lex_cmp(a, b) == Ordering::Less,
        lex_cmp(b, c) == Ordering::Less,
    ensures
        lex_cmp(a, c) == Ordering::Less,
    decreases a.len() + b.len() + c.len(),
{
    assert(b.len() > 0);
    assert(c.len() > 0);
    if a.len() > 0 {
        assert(a[0] matches SegView::Number(n) && n >= 0);
        assert(b[0] matches SegView::Number(m) && m >= 0);
        assert(c[0] matches SegView::Number(k) && k >= 0);
        let at = a.drop_first();
        let bt = b.drop_first();
        let ct = c.drop_first();
        assert(numeric_segs(at)) by {
            assert(forall|i: int| 0 <= i < at.len() ==> at[i] == a[i + 1]);
        }
        assert(numeric_segs(bt)) by {
            assert(forall|i: int| 0 <= i < bt.len() ==> bt[i] == b[i + 1]);
        }
        assert(numeric_segs(ct)) by {
            assert(forall|i: int| 0 <= i < ct.len() ==> ct[i] == c[i + 1]);
        }
        let n = a[0]->Number_0;
        let m = b[0]->Number_0;
        let k = c[0]->Number_0;
        if n == m && m == k {
            lemma_lex_cmp_trans_less(at, bt, ct);
        }
    }
}

/// Comparison restricted to numeric versions is transitive, both for the
/// strict outcome and for equality.
pub proof fn lemma_cmp_segs_transitive(a: Seq<SegView>, b: Seq<SegView>, c: Seq<SegView>)
    requires
        numeric_segs(a),
        numeric_segs(b),
        numeric_segs(c),
    ensures
        cmp_segs(a, b) == Ordering::Less && cmp_segs(b, c) == Ordering::Less ==> cmp_segs(a, c)
            == Ordering::Less,
        cmp_segs(a, b) == Ordering::Equal && cmp_segs(b, c) == Ordering::Equal ==> cmp_segs(a, c)
            == Ordering::Equal,
        cmp_segs(a, b) == Ordering::Less && cmp_segs(b, c) == Ordering::Equal ==> cmp_segs(a, c)
            == Ordering::Less,
        cmp_segs(a, b) == Ordering::Equal && cmp_segs(b, c) == Ordering::Less ==> cmp_segs(a, c)
            == Ordering::Less,
{
    lemma_strip_zeros_numeric(a);
    lemma_strip_zeros_numeric(b);
    lemma_strip_zeros_numeric(c);
    lemma_cmp_segs_is_lex_stripped(a, b);
    lemma_cmp_segs_is_lex_stripped(b, c);
    lemma_cmp_segs_is_lex_stripped(a, c);
    lemma_lex_cmp_eq_iff(strip_zeros(a), strip_zeros(b));
    lemma_lex_cmp_eq_iff(strip_zeros(b), strip_zeros(c));
    lemma_lex_cmp_eq_iff(strip_zeros(a), strip_zeros(c));
    if cmp_segs(a, b) == Ordering::Less && cmp_segs(b, c) == Ordering::Less {
        lemma_lex_cmp_trans_less(strip_zeros(a), strip_zeros(b), strip_zeros(c));
    }
}

/// A numeric version, as produced by parsing: every segment is a number.
pub open spec fn numeric_version(v: VersionView) -> bool {
    numeric_segs(v.parts)
}

/// Law: the version ordering is reflexive, so its strict part is
/// irreflexive: no version is strictly below itself.
pub proof fn lemma_version_cmp_reflexive(a: VersionView)
    ensures
        version_cmp(a, a) == Ordering::Equal,
{
    lemma_cmp_segs_reflexive(a.parts);
}

/// Law: the version ordering is antisymmetric: swapping the operands flips
/// the outcome, so for any two versions exactly one of `Less`, `Equal`,
/// `Greater` holds in each direction, consistently.
pub proof fn lemma_version_cmp_antisymmetric(a: VersionView, b: VersionView)
    ensures
        version_cmp(b, a) == ord_flip(version_cmp(a, b)),
{
    lemma_cmp_segs_antisymmetric(a.parts, b.parts);
}

/// Law: restricted to versions whose segments are all numbers, the ordering
/// is transitive (together with the two laws above, a strict total order up
/// to `Equal`-equivalence). On versions with text segments transitivity does
/// not hold, because text segments compare as equal to anything beside them.
pub proof fn lemma_version_cmp_transitive(a: VersionView, b: VersionView, c: VersionView)
    requires
        numeric_version(a),
        numeric_version(b),
        numeric_version(c),
    ensures
        version_cmp(a, b) == Ordering::Less && version_cmp(b, c) == Ordering::Less
            ==> version_cmp(a, c) == Ordering::Less,
        version_cmp(a, b) == Ordering::Equal && version_cmp(b, c) == Ordering::Equal
            ==> version_cmp(a, c) == Ordering::Equal,
        version_cmp(a, b) == Ordering::Less && version_cmp(b, c) == Ordering::Equal
            ==> version_cmp(a, c) == Ordering::Less,
        version_cmp(a, b) == Ordering::Equal && version_cmp(b, c) == Ordering::Less
            ==> version_cmp(a, c) == Ordering::Less,
{
    lemma_cmp_segs_transitive(a.parts, b.parts, c.parts);
}

} // verus!

