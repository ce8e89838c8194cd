//! Framing of Wavefront OBJ text.
//!
//! Only two kinds of line are read: `v x y z` (a vertex) and
//! `f i1 i2 ...` (a face of 1-based vertex indices, each token's suffix
//! after `/` ignored). Every other line is skipped. Coordinates are
//! handed back as byte ranges of the text, for the caller to read as
//! numbers; face indices are parsed here and turned 0-based. The first
//! malformed line aborts the whole parse.
use crate::mesh::{faces_in_range, faces_view, faces_within};
use vstd::prelude::*;
use vstd::string::StringSliceAdditionalSpecFns;

verus! {

/// A half-open byte range `[start, end)` of the text being read.
#[derive(Debug, Clone, Copy, PartialEq, Eq, Structural)]
pub struct Span {
    pub start: usize,
    pub end: usize,
}

impl View for Span {
    type V = (int, int);

    open spec fn view(&self) -> (int, int) {
        (self.start as int, self.end as int)
    }
}

pub open spec fn opt_int(o: Option<usize>) -> Option<int> {
    match o {
        Some(a) => Some(a as int),
        None => None,
    }
}

pub open spec fn spans_view(v: Seq<Span>) -> Seq<(int, int)> {
    v.map_values(|sp: Span| sp@)
}

/// Why a text could not be read as a mesh.
#[derive(Debug, Clone, Copy, PartialEq, Eq, Structural)]
pub enum ObjError {
    /// A vertex line with fewer than three coordinates.
    MissingCoordinate,
    /// A face token whose part before `/` is not a positive whole number.
    BadIndex,
    /// A face naming a vertex that the text does not hold.
    IndexOutOfRange,
}

/// Byte ranges of the three coordinate tokens of a vertex line.
#[derive(Debug, Clone, Copy, PartialEq, Eq, Structural)]
pub struct VertexSpans {
    pub x: Span,
    pub y: Span,
    pub z: Span,
}

/// A vertex as the byte ranges of its x, y and z tokens.
pub type CoordSpans = ((int, int), (int, int), (int, int));

impl View for VertexSpans {
    type V = CoordSpans;

    open spec fn view(&self) -> CoordSpans {
        (self.x@, self.y@, self.z@)
    }
}

/// What an OBJ text holds: its vertices, in order, as coordinate ranges of
/// the text, and its faces as 0-based vertex indices.
pub struct ObjLayout {
    pub vertices: Vec<VertexSpans>,
    pub faces: Vec<Vec<usize>>,
}

/// The vertices and faces of a text, as mathematical sequences.
pub type ObjModel = (Seq<CoordSpans>, Seq<Seq<usize>>);

impl View for ObjLayout {
    type V = ObjModel;

    open spec fn view(&self) -> ObjModel {
        (self.vertices@.map_values(|v: VertexSpans| v@), faces_view(self.faces@))
    }
}

/// ASCII whitespace: space, tab, line feed, vertical tab, form feed and
/// carriage return.
pub open spec fn is_space(b: u8) -> bool {
    b == 32u8 || (9u8 <= b && b <= 13u8)
}

pub open spec fn is_digit(b: u8) -> bool {
    48u8 <= b && b <= 57u8
}

/// Lines of `s` scanned from position `i`, the current line having begun at
/// `start`. A line ends before each line feed; what follows the last line
/// feed is a line when it is not empty.
pub open spec fn lines_from(s: Seq<u8>, i: int, start: int) -> Seq<(int, int)>
    decreases s.len() - i,
{
    if i >= s.len() {
        if start < s.len() {
            seq![(start, s.len() as int)]
        } else {
            Seq::empty()
        }
    } else if s[i] == 10u8 {
        seq![(start, i)] + lines_from(s, i + 1, i + 1)
    } else {
        lines_from(s, i + 1, start)
    }
}

/// The byte ranges of the lines of `s`, line feeds excluded.
pub open spec fn line_spans(s: Seq<u8>) -> Seq<(int, int)> {
    lines_from(s, 0, 0)
}

/// Maximal runs of non-whitespace bytes of `s` in `[i, hi)`, the current run
/// having begun at `start` if there is one.
pub open spec fn tokens_from(s: Seq<u8>, i: int, hi: int, start: Option<int>) -> Seq<(int, int)>
    decreases hi - i,
{
    if i >= hi {
        match start {
            Some(a) => seq![(a, hi)],
            None => Seq::empty(),
        }
    } else if is_space(s[i]) {
        match start {
            Some(a) => seq![(a, i)] + tokens_from(s, i + 1, hi, None),
            None => tokens_from(s, i + 1, hi, None),
        }
    } else {
        match start {
            Some(a) => tokens_from(s, i + 1, hi, Some(a)),
            None => tokens_from(s, i + 1, hi, Some(i)),
        }
    }
}

/// The whitespace-separated tokens of `s` in `[lo, hi)`, as byte ranges.
pub open spec fn tokens(s: Seq<u8>, lo: int, hi: int) -> Seq<(int, int)> {
    tokens_from(s, lo, hi, None)
}

/// The value of a string of decimal digits.
pub open spec fn decimal_value(d: Seq<u8>) -> int
    decreases d.len(),
{
    if d.len() == 0 {
        0
    } else {
        decimal_value(d.drop_last()) * 10 + (d.last() - 48)
    }
}

pub open spec fn all_digits(d: Seq<u8>) -> bool {
    forall|k: int| 0 <= k < d.len() ==> is_digit(#[trigger] d[k])
}

/// An unsigned number as `usize` reads it: an optional `+`, then one or
/// more decimal digits whose value fits in `usize`.
pub open spec fn unsigned_value(d: Seq<u8>) -> Option<usize> {
    let digits = if d.len() > 0 && d[0] == 43u8 {
        d.drop_first()
    } else {
        d
    };
    if digits.len() > 0 && all_digits(digits) && decimal_value(digits) <= usize::MAX {
        Some(decimal_value(digits) as usize)
    } else {
        None
    }
}

/// Position of the first `/` of `s` in `[i, hi)`, or `hi` when there is none.
pub open spec fn slash_from(s: Seq<u8>, i: int, hi: int) -> int
    decreases hi - i,
{
    if i >= hi || s[i] == 47u8 {
        i
    } else {
        slash_from(s, i + 1, hi)
    }
}

/// The 0-based vertex index that the face token `[a, b)` of `s` names: the
/// 1-based number before its first `/`, less one.
pub open spec fn face_index(s: Seq<u8>, a: int, b: int) -> Option<usize> {
    match unsigned_value(s.subrange(a, slash_from(s, a, b))) {
        Some(v) => if v >= 1 {
            Some((v - 1) as usize)
        } else {
            None
        },
        None => None,
    }
}

/// The indices that a run of face tokens names, or `None` when one of them
/// is malformed.
pub open spec fn face_indices(s: Seq<u8>, toks: Seq<(int, int)>) -> Option<Seq<usize>>
    decreases toks.len(),
{
    if toks.len() == 0 {
        Some(Seq::empty())
    } else {
        match face_index(s, toks[0].0, toks[0].1) {
            None => None,
            Some(i) => match face_indices(s, toks.drop_first()) {
                None => None,
                Some(rest) => Some(seq![i] + rest),
            },
        }
    }
}

/// All tokens but the first (the line's tag).
pub open spec fn skip_first(t: Seq<(int, int)>) -> Seq<(int, int)> {
    if t.len() == 0 {
        t
    } else {
        t.drop_first()
    }
}

/// The indices of a face line: those of every token after the first.
pub open spec fn face_of(s: Seq<u8>) -> Option<Seq<usize>> {
    face_indices(s, skip_first(tokens(s, 0, s.len() as int)))
}

/// The line `[a, e)` of `s` begins with the byte `tag` followed by
/// whitespace.
pub open spec fn has_tag(s: Seq<u8>, a: int, e: int, tag: u8) -> bool {
    e - a >= 2 && s[a] == tag && is_space(s[a + 1])
}

/// What the line `[a, e)` of `s` adds: one vertex for a `v` line, one face
/// for an `f` line, nothing for any other line.
pub open spec fn line_effect(s: Seq<u8>, a: int, e: int) -> Result<ObjModel, ObjError> {
    let toks = tokens(s, a, e);
    if has_tag(s, a, e, 118u8) {
        if toks.len() >= 4 {
            Ok((seq![(toks[1], toks[2], toks[3])], Seq::empty()))
        } else {
            Err(ObjError::MissingCoordinate)
        }
    } else if has_tag(s, a, e, 102u8) {
        match face_indices(s, skip_first(toks)) {
            Some(f) => Ok((Seq::empty(), seq![f])),
            None => Err(ObjError::BadIndex),
        }
    } else {
        Ok((Seq::empty(), Seq::empty()))
    }
}

/// Appends `m` after what was gathered in `acc`; an error passes through.
pub open spec fn after(acc: ObjModel, m: Result<ObjModel, ObjError>) -> Result<ObjModel, ObjError> {
    match m {
        Ok(r) => Ok((acc.0 + r.0, acc.1 + r.1)),
        Err(e) => Err(e),
    }
}

/// The lines `ls` read in order; the first malformed one decides the error.
pub open spec fn scan(s: Seq<u8>, ls: Seq<(int, int)>) -> Result<ObjModel, ObjError>
    decreases ls.len(),
{
    if ls.len() == 0 {
        Ok((Seq::empty(), Seq::empty()))
    } else {
        match line_effect(s, ls[0].0, ls[0].1) {
            Err(e) => Err(e),
            Ok(first) => after(first, scan(s, ls.drop_first())),
        }
    }
}

/// The mesh that the OBJ text `s` describes: its lines scanned in order,
/// then every face checked against the number of vertices.
pub open spec fn obj_model(s: Seq<u8>) -> Result<ObjModel, ObjError> {
    match scan(s, line_spans(s)) {
        Err(e) => Err(e),
        Ok(m) => if faces_in_range(m.1, m.0.len() as int) {
            Ok(m)
        } else {
            Err(ObjError::IndexOutOfRange)
        },
    }
}

proof fn lemma_decimal_prefix(d: Seq<u8>, k: int)
    requires
        all_digits(d),
        0 <= k <= d.len(),
    ensures
        decimal_value(d.take(k)) <= decimal_value(d),
    decreases d.len(),
{
    if k < d.len() {
        let e = d.drop_last();
        assert(all_digits(e)) by {
            assert forall|j: int| 0 <= j < e.len() implies is_digit(#[trigger] e[j]) by {
                assert(e[j] == d[j]);
            }
        }
        assert(e.take(k) =~= d.take(k));
        lemma_decimal_prefix(e, k);
        assert(is_digit(d[d.len() - 1]));
        assert(decimal_value(e) >= 0) by {
            lemma_decimal_nonneg(e);
        }
    } else {
        assert(d.take(k) =~= d);
    }
}

proof fn lemma_decimal_nonneg(d: Seq<u8>)
    requires
        all_digits(d),
    ensures
        decimal_value(d) >= 0,
    decreases d.len(),
{
    if d.len() > 0 {
        let e = d.drop_last();
        assert(all_digits(e)) by {
            assert forall|j: int| 0 <= j < e.len() implies is_digit(#[trigger] e[j]) by {
                assert(e[j] == d[j]);
            }
        }
        lemma_decimal_nonneg(e);
        assert(is_digit(d[d.len() - 1]));
    }
}

/// Splits `s` into lines at line feeds.
pub fn line_spans_of(s: &[u8]) -> (r: Vec<Span>)
    ensures
        spans_view(r@) == line_spans(s@),
        forall|k: int| 0 <= k < r@.len() ==> (#[trigger] r@[k]).start <= r@[k].end <= s@.len(),
{
    let mut r: Vec<Span> = Vec::new();
    let mut start: usize = 0;
    let mut i: usize = 0;
    while i < s.len()
        invariant
            0 <= start <= i <= s@.len(),
            spans_view(r@) + lines_from(s@, i as int, start as int) == line_spans(s@),
            forall|k: int| 0 <= k < r@.len() ==> (#[trigger] r@[k]).start <= r@[k].end <= s@.len(),
        decreases s@.len() - i,
    {
        if s[i] == 10u8 {
            let sp = Span { start, end: i };
            proof {
                assert(spans_view(r@.push(sp)) =~= spans_view(r@).push(sp@));
                assert(spans_view(r@).push(sp@) + lines_from(s@, i + 1, i + 1) =~= spans_view(r@)
                    + (seq![sp@] + lines_from(s@, i + 1, i + 1)));
            }
            r.push(sp);
            start = i + 1;
        }
        i = i + 1;
    }
    if start < s.len() {
        let sp = Span { start, end: s.len() };
        proof {
            assert(spans_view(r@.push(sp)) =~= spans_view(r@) + seq![sp@]);
        }
        r.push(sp);
    } else {
        assert(spans_view(r@) + Seq::<(int, int)>::empty() =~= spans_view(r@));
    }
    r
}

fn is_space_byte(b: u8) -> (r: bool)
    ensures
        r == is_space(b),
{
    b == 32u8 || (9u8 <= b && b <= 13u8)
}

/// Splits the bytes `[lo, hi)` of `s` at whitespace.
pub fn token_spans(s: &[u8], lo: usize, hi: usize) -> (r: Vec<Span>)
    requires
        lo <= hi <= s@.len(),
    ensures
        spans_view(r@) == tokens(s@, lo as int, hi as int),
        forall|k: int| 0 <= k < r@.len() ==> lo <= (#[trigger] r@[k]).start <= r@[k].end <= hi,
{
    let mut r: Vec<Span> = Vec::new();
    let mut start: Option<usize> = None;
    let mut i: usize = lo;
    while i < hi
        invariant
            lo <= i <= hi <= s@.len(),
            match start {
                Some(a) => lo <= a <= i,
                None => true,
            },
            spans_view(r@) + tokens_from(s@, i as int, hi as int, opt_int(start))
                == tokens(s@, lo as int, hi as int),
            forall|k: int| 0 <= k < r@.len() ==> lo <= (#[trigger] r@[k]).start <= r@[k].end <= i,
        decreases hi - i,
    {
        if is_space_byte(s[i]) {
            match start {
                Some(a) => {
                    let sp = Span { start: a, end: i };
                    proof {
                        assert(spans_view(r@.push(sp)) =~= spans_view(r@).push(sp@));
                        assert(spans_view(r@).push(sp@) + tokens_from(s@, i + 1, hi as int, None)
                            =~= spans_view(r@) + (seq![sp@] + tokens_from(
                            s@,
                            i + 1,
                            hi as int,
                            None,
                        )));
                    }
                    r.push(sp);
                    start = None;
                },
                None => {},
            }
        } else {
            match start {
                Some(_) => {},
                None => {
                    start = Some(i);
                },
            }
        }
        i = i + 1;
    }
    match start {
        Some(a) => {
            let sp = Span { start: a, end: hi };
            proof {
                assert(spans_view(r@.push(sp)) =~= spans_view(r@) + seq![sp@]);
            }
            r.push(sp);
        },
        None => {
            assert(spans_view(r@) + Seq::<(int, int)>::empty() =~= spans_view(r@));
        },
    }
    r
}

/// Reads the bytes `[a, b)` of `s` as an unsigned number.
pub fn parse_unsigned(s: &[u8], a: usize, b: usize) -> (r: Option<usize>)
    requires
        a <= b <= s@.len(),
    ensures
        r == unsigned_value(s@.subrange(a as int, b as int)),
{
    let ghost d = s@.subrange(a as int, b as int);
    let p: usize = if a < b && s[a] == 43u8 {
        a + 1
    } else {
        a
    };
    let ghost digits = s@.subrange(p as int, b as int);
    assert(d.len() > 0 ==> d[0] == s@[a as int]);
    assert(p == a + 1 ==> digits =~= d.drop_first());
    assert(p == a ==> digits =~= d);
    if p == b {
        return None;
    }
    let mut acc: usize = 0;
    let mut i: usize = p;
    assert(s@.subrange(p as int, p as int) =~= Seq::<u8>::empty());
    while i < b
        invariant
            a <= p <= i <= b <= s@.len(),
            digits == s@.subrange(p as int, b as int),
            d == s@.subrange(a as int, b as int),
            (p == a + 1 && d.len() > 0 && d[0] == 43u8 && digits == d.drop_first()) || (p == a
                && !(d.len() > 0 && d[0] == 43u8) && digits == d),
            all_digits(s@.subrange(p as int, i as int)),
            acc == decimal_value(s@.subrange(p as int, i as int)),
        decreases b - i,
    {
        let c = s[i];
        if !(48u8 <= c && c <= 57u8) {
            assert(digits[i - p] == c);
            assert(!all_digits(digits));
            return None;
        }
        let ghost next = s@.subrange(p as int, i + 1);
        assert(next.drop_last() =~= s@.subrange(p as int, i as int));
        assert(all_digits(next)) by {
            assert forall|k: int| 0 <= k < next.len() implies is_digit(#[trigger] next[k]) by {
                if k < next.len() - 1 {
                    assert(next[k] == s@.subrange(p as int, i as int)[k]);
                }
            }
        }
        assert(decimal_value(next) == acc * 10 + (c - 48));
        let m = acc.checked_mul(10);
        let n = match m {
            Some(m) => m.checked_add((c - 48u8) as usize),
            None => None,
        };
        match n {
            Some(n) => {
                acc = n;
            },
            None => {
                proof {
                    if all_digits(digits) {
                        assert(next =~= digits.take(i + 1 - p));
                        lemma_decimal_prefix(digits, i + 1 - p);
                        assert(decimal_value(digits) > usize::MAX);
                    }
                }
                return None;
            },
        }
        i = i + 1;
    }
    assert(s@.subrange(p as int, i as int) =~= digits);
    Some(acc)
}

/// Reads the face token `[a, b)` of `s` as a 0-based vertex index.
fn parse_index(s: &[u8], a: usize, b: usize) -> (r: Option<usize>)
    requires
        a <= b <= s@.len(),
    ensures
        r == face_index(s@, a as int, b as int),
{
    let mut j: usize = a;
    while j < b && s[j] != 47u8
        invariant
            a <= j <= b <= s@.len(),
            slash_from(s@, j as int, b as int) == slash_from(s@, a as int, b as int),
        decreases b - j,
    {
        j = j + 1;
    }
    match parse_unsigned(s, a, j) {
        Some(v) => if v >= 1 {
            Some(v - 1)
        } else {
            None
        },
        None => None,
    }
}

spec fn vec_opt_view(r: Option<Vec<usize>>) -> Option<Seq<usize>> {
    match r {
        Some(v) => Some(v@),
        None => None,
    }
}

/// `r` with `p` put in front of its indices.
spec fn prepend(p: Seq<usize>, r: Option<Seq<usize>>) -> Option<Seq<usize>> {
    match r {
        Some(q) => Some(p + q),
        None => None,
    }
}

/// Reads the face tokens `toks[from..]` of `s`.
fn face_from(s: &[u8], toks: &Vec<Span>, from: usize) -> (r: Option<Vec<usize>>)
    requires
        from <= toks@.len(),
        forall|k: int| 0 <= k < toks@.len() ==> (#[trigger] toks@[k]).start <= toks@[k].end <= s@.len(),
    ensures
        vec_opt_view(r) == face_indices(s@, spans_view(toks@).subrange(from as int, toks@.len() as int)),
{
    let ghost all = spans_view(toks@);
    let ghost n = toks@.len() as int;
    let mut acc: Vec<usize> = Vec::new();
    let mut k: usize = from;
    proof {
        let t = face_indices(s@, all.subrange(from as int, n));
        assert(prepend(acc@, t) == t) by {
            match t {
                Some(q) => {
                    assert(acc@ + q =~= q);
                },
                None => {},
            }
        }
    }
    while k < toks.len()
        invariant
            from <= k <= toks@.len(),
            all == spans_view(toks@),
            n == toks@.len(),
            forall|j: int| 0 <= j < toks@.len() ==> (#[trigger] toks@[j]).start <= toks@[j].end <= s@.len(),
            face_indices(s@, all.subrange(from as int, n)) == prepend(
                acc@,
                face_indices(s@, all.subrange(k as int, n)),
            ),
        decreases toks@.len() - k,
    {
        let sp = toks[k];
        let ghost rest = all.subrange(k as int, n);
        assert(rest[0] == sp@);
        assert(rest.drop_first() =~= all.subrange(k + 1, n));
        match parse_index(s, sp.start, sp.end) {
            None => {
                return None;
            },
            Some(i) => {
                proof {
                    match face_indices(s@, all.subrange(k + 1, n)) {
                        Some(q) => {
                            assert(acc@.push(i) + q =~= acc@ + (seq![i] + q));
                        },
                        None => {},
                    }
                }
                acc.push(i);
            },
        }
        k = k + 1;
    }
    assert(acc@ + Seq::<usize>::empty() =~= acc@);
    Some(acc)
}

/// Reads a face line such as `f 1 2/5 3//7`: every token after the first,
/// up to its first `/`, is a 1-based vertex index, returned 0-based.
pub fn parse_face(line: &str) -> (r: Result<Vec<usize>, ObjError>)
    ensures
        match r {
            Ok(f) => face_of(line.spec_bytes()) == Some(f@),
            Err(e) => face_of(line.spec_bytes()) is None && e == ObjError::BadIndex,
        },
{
    let s = line.as_bytes();
    let toks = token_spans(s, 0, s.len());
    let from: usize = if toks.len() == 0 {
        0
    } else {
        1
    };
    assert(spans_view(toks@).subrange(from as int, toks@.len() as int) =~= skip_first(
        spans_view(toks@),
    ));
    match face_from(s, &toks, from) {
        Some(f) => Ok(f),
        None => Err(ObjError::BadIndex),
    }
}

proof fn lemma_after_after(acc: ObjModel, first: ObjModel, m: Result<ObjModel, ObjError>)
    ensures
        after(acc, after(first, m)) == after((acc.0 + first.0, acc.1 + first.1), m),
{
    match m {
        Ok(r) => {
            assert(acc.0 + (first.0 + r.0) =~= (acc.0 + first.0) + r.0);
            assert(acc.1 + (first.1 + r.1) =~= (acc.1 + first.1) + r.1);
        },
        Err(_) => {},
    }
}

/// Reads an OBJ text. A `v` line gives a vertex, whose first three tokens
/// after the tag are its coordinates (any further ones are ignored); an `f`
/// line gives a face; every other line is skipped. The first malformed line
/// aborts the read, and so does a face naming a vertex beyond the last.
pub fn parse_obj(text: &str) -> (r: Result<ObjLayout, ObjError>)
    ensures
        match r {
            Ok(m) => obj_model(text.spec_bytes()) == Ok::<ObjModel, ObjError>(m@),
            Err(e) => obj_model(text.spec_bytes()) == Err::<ObjModel, ObjError>(e),
        },
        r matches Ok(m) ==> faces_in_range(m@.1, m@.0.len() as int),
{
    let s = text.as_bytes();
    let lines = line_spans_of(s);
    let ghost ls = spans_view(lines@);
    let ghost n = lines@.len() as int;
    let mut vertices: Vec<VertexSpans> = Vec::new();
    let mut faces: Vec<Vec<usize>> = Vec::new();
    let mut k: usize = 0;
    proof {
        let e: ObjModel = (Seq::empty(), Seq::empty());
        assert(ls.subrange(0, n) =~= ls);
        lemma_after_after(e, e, scan(s@, ls));
        match scan(s@, ls) {
            Ok(r) => {
                assert(e.0 + r.0 =~= r.0);
                assert(e.1 + r.1 =~= r.1);
            },
            Err(_) => {},
        }
        assert(vertices@.map_values(|v: VertexSpans| v@) =~= e.0);
        assert(faces_view(faces@) =~= e.1);
    }
    while k < lines.len()
        invariant
            k <= n,
            ls == spans_view(lines@),
            n == lines@.len(),
            s@ == text.spec_bytes(),
            forall|j: int| 0 <= j < lines@.len() ==> (#[trigger] lines@[j]).start <= lines@[j].end <= s@.len(),
            scan(s@, line_spans(s@)) == scan(s@, ls),
            ls == line_spans(s@),
            scan(s@, ls) == after(
                (vertices@.map_values(|v: VertexSpans| v@), faces_view(faces@)),
                scan(s@, ls.subrange(k as int, n)),
            ),
        decreases n - k,
    {
        let sp = lines[k];
        let a = sp.start;
        let e = sp.end;
        let ghost acc: ObjModel = (vertices@.map_values(|v: VertexSpans| v@), faces_view(faces@));
        let ghost rest = ls.subrange(k as int, n);
        let ghost tail = scan(s@, ls.subrange(k + 1, n));
        assert(rest[0] == sp@);
        assert(rest.drop_first() =~= ls.subrange(k + 1, n));
        if e - a >= 2 && s[a] == 118u8 && is_space_byte(s[a + 1]) {
            let toks = token_spans(s, a, e);
            if toks.len() >= 4 {
                let v = VertexSpans { x: toks[1], y: toks[2], z: toks[3] };
                proof {
                    let t = spans_view(toks@);
                    assert(t[1] == toks@[1]@ && t[2] == toks@[2]@ && t[3] == toks@[3]@);
                    let first: ObjModel = (seq![v@], Seq::empty());
                    lemma_after_after(acc, first, tail);
                    assert(acc.0 + first.0 =~= vertices@.push(v).map_values(|w: VertexSpans| w@));
                    assert(acc.1 + first.1 =~= acc.1);
                }
                vertices.push(v);
            } else {
                return Err(ObjError::MissingCoordinate);
            }
        } else if e - a >= 2 && s[a] == 102u8 && is_space_byte(s[a + 1]) {
            let toks = token_spans(s, a, e);
            let from: usize = if toks.len() == 0 {
                0
            } else {
                1
            };
            assert(spans_view(toks@).subrange(from as int, toks@.len() as int) =~= skip_first(
                spans_view(toks@),
            ));
            match face_from(s, &toks, from) {
                Some(f) => {
                    proof {
                        let first: ObjModel = (Seq::empty(), seq![f@]);
                        lemma_after_after(acc, first, tail);
                        assert(acc.0 + first.0 =~= acc.0);
                        assert(acc.1 + first.1 =~= faces_view(faces@.push(f)));
                    }
                    faces.push(f);
                },
                None => {
                    return Err(ObjError::BadIndex);
                },
            }
        } else {
            proof {
                let first: ObjModel = (Seq::empty(), Seq::empty());
                lemma_after_after(acc, first, tail);
                assert(acc.0 + first.0 =~= acc.0);
                assert(acc.1 + first.1 =~= acc.1);
            }
        }
        k = k + 1;
    }
    proof {
        let acc: ObjModel = (vertices@.map_values(|v: VertexSpans| v@), faces_view(faces@));
        assert(ls.subrange(k as int, n) =~= Seq::<(int, int)>::empty());
        assert(acc.0 + Seq::<CoordSpans>::empty() =~= acc.0);
        assert(acc.1 + Seq::<Seq<usize>>::empty() =~= acc.1);
    }
    if faces_within(&faces, vertices.len()) {
        Ok(ObjLayout { vertices, faces })
    } else {
        Err(ObjError::IndexOutOfRange)
    }
}

} // verus!
