use vstd::prelude::*;

use crate::text::{chars_of, find_from, find_pattern, lemma_find_from};
use kurbo::PathEl;

verus! {

/// Why an SVG rendering could not be judged.
#[derive(Debug, Clone, PartialEq, Eq)]
pub enum DiffError {
    /// The SVG text holds no `<path d="` attribute.
    NoPathElement,
    /// The path attribute is not terminated by a closing quote.
    UnterminatedPath,
    /// A subpath of the named icon was refused by the path parser.
    UnparsablePath { icon: String },
}

/// One parsed path segment. Curve coordinates are carried as the bit
/// patterns of their double-precision values, so two segments are equal
/// exactly when every parsed coordinate is bit-for-bit the same.
#[derive(Clone, Copy, Debug)]
pub enum Seg {
    Move((u64, u64)),
    Line((u64, u64)),
    Quad((u64, u64), (u64, u64)),
    Curve((u64, u64), (u64, u64), (u64, u64)),
    Close,
}

impl PartialEq for Seg {
    fn eq(&self, other: &Seg) -> (r: bool) {
        match (self, other) {
            (Seg::Move(a), Seg::Move(b)) => a.0 == b.0 && a.1 == b.1,
            (Seg::Line(a), Seg::Line(b)) => a.0 == b.0 && a.1 == b.1,
            (Seg::Quad(a, b), Seg::Quad(c, d)) => a.0 == c.0 && a.1 == c.1 && b.0 == d.0 && b.1
                == d.1,
            (Seg::Curve(a, b, c), Seg::Curve(d, e, f)) => a.0 == d.0 && a.1 == d.1 && b.0 == e.0
                && b.1 == e.1 && c.0 == f.0 && c.1 == f.1,
            (Seg::Close, Seg::Close) => true,
            _ => false,
        }
    }
}

impl vstd::std_specs::cmp::PartialEqSpecImpl for Seg {
    open spec fn obeys_eq_spec() -> bool {
        true
    }

    open spec fn eq_spec(&self, other: &Seg) -> bool {
        *self == *other
    }
}

/// What the path parser yields for one subpath description, or `None` where
/// it refuses the text.
pub uninterp spec fn segments_of(s: Seq<char>) -> Option<Seq<Seg>>;

/// Relies on `kurbo::BezPath::from_svg`: parsing an SVG path description is
/// a pure function of the text, yielding move, line, quadratic, cubic and
/// close elements; every coordinate is carried over as the bit pattern of
/// its double-precision value, so no two distinct parsed values collapse.
#[verifier::external_body]
fn parse_segments(chunk: &str) -> (r: Option<Vec<Seg>>)
    ensures
        r matches Some(v) ==> segments_of(chunk@) == Some(v@),
        r is None <==> segments_of(chunk@) is None,
{
    let path = match kurbo::BezPath::from_svg(chunk) {
        Ok(p) => p,
        Err(_) => return None,
    };
    let b = |p: kurbo::Point| (p.x.to_bits(), p.y.to_bits());
    Some(path.elements().iter().map(|e| match *e {
        PathEl::MoveTo(a) => Seg::Move(b(a)),
        PathEl::LineTo(a) => Seg::Line(b(a)),
        PathEl::QuadTo(a, c) => Seg::Quad(b(a), b(c)),
        PathEl::CurveTo(a, c, d) => Seg::Curve(b(a), b(c), b(d)),
        PathEl::ClosePath => Seg::Close,
    }).collect())
}

/// The attribute opening that introduces the path data in an SVG document.
pub open spec fn path_marker() -> Seq<char> {
    "<path d=\""@
}

/// How an SVG document splits around its path data: the text through the
/// end of the `<path d="` opening, the path data itself, and the rest from
/// the closing quote on. `None` where the opening or the quote is missing.
pub open spec fn d_attr_split(s: Seq<char>) -> Option<(Seq<char>, Seq<char>, Seq<char>)> {
    match find_from(s, path_marker(), 0) {
        None => None,
        Some(i) => {
            let body = i + path_marker().len();
            match find_from(s, "\""@, body) {
                None => None,
                Some(q) => Some((s.take(body), s.subrange(body, q), s.subrange(q, s.len() as int))),
            }
        },
    }
}

/// Splits an SVG document at its path attribute: the prefix through
/// `<path d="`, the path data up to the closing quote, and the suffix from
/// that quote on.
pub fn parse_path(svg: &str) -> (r: Result<(&str, &str, &str), DiffError>)
    ensures
        match r {
            Ok(parts) => d_attr_split(svg@) == Some((parts.0@, parts.1@, parts.2@)),
            Err(e) => d_attr_split(svg@) is None && (e == DiffError::NoPathElement || e
                == DiffError::UnterminatedPath),
        },
{
    proof {
        reveal_strlit("<path d=\"");
        reveal_strlit("\"");
    }
    let cs = chars_of(svg);
    let marker = chars_of("<path d=\"");
    let i = match find_pattern(&cs, &marker, 0) {
        Some(i) => i,
        None => {
            return Err(DiffError::NoPathElement);
        },
    };
    proof {
        lemma_find_from(cs@, marker@, 0);
    }
    let total = cs.len();
    assert(i + marker@.len() <= total);
    let body = i + marker.len();
    let quote = chars_of("\"");
    let q = match find_pattern(&cs, &quote, body) {
        Some(q) => q,
        None => {
            return Err(DiffError::UnterminatedPath);
        },
    };
    proof {
        lemma_find_from(cs@, quote@, body as int);
    }
    let n = svg.unicode_len();
    let pre = svg.substring_char(0, body);
    let path = svg.substring_char(body, q);
    let suf = svg.substring_char(q, n);
    proof {
        assert(pre@ =~= svg@.take(body as int));
    }
    Ok((pre, path, suf))
}

/// A character that starts a new subpath in serialized path data.
pub open spec fn is_move_cmd(c: char) -> bool {
    c == 'm' || c == 'M'
}

/// The positions at or after `i` where a move command stands in `s`.
pub open spec fn move_indices_from(s: Seq<char>, i: int) -> Seq<int>
    decreases s.len() - i,
    when 0 <= i
{
    if i >= s.len() {
        Seq::empty()
    } else if is_move_cmd(s[i]) {
        seq![i] + move_indices_from(s, i + 1)
    } else {
        move_indices_from(s, i + 1)
    }
}

/// The move-command positions are in range, strictly ascending, move
/// commands, and complete.
pub proof fn lemma_move_indices_from(s: Seq<char>, i: int)
    requires
        0 <= i,
    ensures
        ({
            let idx = move_indices_from(s, i);
            &&& forall|k: int|
                0 <= k < idx.len() ==> i <= #[trigger] idx[k] < s.len() && is_move_cmd(s[idx[k]])
            &&& forall|k1: int, k2: int| 0 <= k1 < k2 < idx.len() ==> idx[k1] < idx[k2]
            &&& forall|j: int| i <= j < s.len() && is_move_cmd(s[j]) ==> idx.contains(j)
        }),
    decreases s.len() - i,
{
    let idx = move_indices_from(s, i);
    if i >= s.len() {
    } else {
        lemma_move_indices_from(s, i + 1);
        let rec = move_indices_from(s, i + 1);
        if is_move_cmd(s[i]) {
            assert(idx == seq![i] + rec);
            assert(idx[0] == i);
            assert(forall|k: int| 1 <= k < idx.len() ==> idx[k] == rec[k - 1]);
            assert forall|j: int| i <= j < s.len() && is_move_cmd(s[j]) implies idx.contains(j) by {
                if j == i {
                    assert(idx[0] == j);
                } else {
                    assert(rec.contains(j));
                    let w = choose|w: int| 0 <= w < rec.len() && rec[w] == j;
                    assert(idx[w + 1] == j);
                }
            }
        } else {
            assert(idx == rec);
        }
    }
}

/// The subpath descriptions of serialized path data: one chunk per move
/// command, each running to the next move command or to the end.
pub open spec fn subpath_chunks(s: Seq<char>) -> Seq<Seq<char>> {
    let idx = move_indices_from(s, 0);
    Seq::new(
        idx.len(),
        |k: int|
            s.subrange(
                idx[k],
                if k + 1 < idx.len() {
                    idx[k + 1]
                } else {
                    s.len() as int
                },
            ),
    )
}

/// Splits serialized path data into its subpath descriptions, one per move
/// command.
pub fn split_subpaths<'a>(d: &'a str) -> (r: Vec<&'a str>)
    ensures
        r@.len() == subpath_chunks(d@).len(),
        forall|k: int| 0 <= k < r@.len() ==> #[trigger] r@[k]@ == subpath_chunks(d@)[k],
{
    let cs = chars_of(d);
    let n = cs.len();
    let mut idxs: Vec<usize> = Vec::new();
    let mut i: usize = 0;
    proof {
        lemma_move_indices_from(cs@, 0);
    }
    while i < n
        invariant
            n == cs@.len(),
            i <= n,
            cs@ == d@,
            move_indices_from(cs@, 0) == idxs@.map_values(|u: usize| u as int)
                + move_indices_from(cs@, i as int),
            forall|k: int| 0 <= k < idxs@.len() ==> #[trigger] idxs@[k] < i,
        decreases n - i,
    {
        let c = cs[i];
        if c == 'm' || c == 'M' {
            let ghost pre = idxs@;
            idxs.push(i);
            proof {
                assert(move_indices_from(cs@, i as int) == seq![i as int] + move_indices_from(
                    cs@,
                    i + 1,
                ));
                assert(idxs@.map_values(|u: usize| u as int) =~= pre.map_values(|u: usize| u as int)
                    + seq![i as int]);
                assert(pre.map_values(|u: usize| u as int) + (seq![i as int] + move_indices_from(
                    cs@,
                    i + 1,
                )) =~= (pre.map_values(|u: usize| u as int) + seq![i as int]) + move_indices_from(
                    cs@,
                    i + 1,
                ));
            }
        } else {
            proof {
                assert(move_indices_from(cs@, i as int) == move_indices_from(cs@, i + 1));
            }
        }
        i += 1;
    }
    proof {
        assert(move_indices_from(cs@, n as int) =~= Seq::<int>::empty());
        assert(move_indices_from(cs@, 0) =~= idxs@.map_values(|u: usize| u as int));
    }
    let ghost midx = move_indices_from(d@, 0);
    let mut out: Vec<&'a str> = Vec::new();
    let mut k: usize = 0;
    while k < idxs.len()
        invariant
            midx == move_indices_from(d@, 0),
            midx == idxs@.map_values(|u: usize| u as int),
            n == d@.len(),
            k <= idxs@.len(),
            forall|w: int| 0 <= w < idxs@.len() ==> #[trigger] idxs@[w] < n,
            out@.len() == k as int,
            forall|w: int| 0 <= w < k ==> #[trigger] out@[w]@ == subpath_chunks(d@)[w],
        decreases idxs@.len() - k,
    {
        proof {
            lemma_move_indices_from(d@, 0);
        }
        let from = idxs[k];
        let to = if k + 1 < idxs.len() {
            idxs[k + 1]
        } else {
            n
        };
        proof {
            assert(midx[k as int] == idxs@[k as int]);
            if k + 1 < idxs@.len() {
                assert(midx[k as int] < midx[k + 1]);
            }
        }
        let piece = d.substring_char(from, to);
        out.push(piece);
        proof {
            assert(piece@ == subpath_chunks(d@)[k as int]);
        }
        k += 1;
    }
    out
}

/// `s` shifted right by one position: the last segment first, the rest after
/// it.
pub open spec fn rotate_right_one(s: Seq<Seg>) -> Seq<Seg>
    recommends
        s.len() > 0,
{
    s.subrange(s.len() - 1, s.len() as int) + s.take(s.len() - 1)
}

/// Two subpaths are equivalent when their segment sequences are identical,
/// or when the first is non-empty and equals the right-rotation-by-one of
/// the second: a closed contour re-authored to start one segment earlier
/// renders the same shape.
pub open spec fn subpath_equiv(a: Seq<Seg>, b: Seq<Seg>) -> bool {
    a == b || (a.len() > 0 && b.len() > 0 && a == rotate_right_one(b))
}

/// Two outlines are equivalent when they have the same number of subpaths
/// and the subpaths are pairwise equivalent by position.
pub open spec fn outline_equiv(a: Seq<Seq<Seg>>, b: Seq<Seq<Seg>>) -> bool {
    a.len() == b.len() && forall|i: int| 0 <= i < a.len() ==> subpath_equiv(a[i], b[i])
}

/// Two segment sequences differing at one position are not equal.
proof fn lemma_segs_neq_at(a: Seq<Seg>, b: Seq<Seg>, i: int)
    requires
        0 <= i < a.len(),
        0 <= i < b.len(),
        a[i] != b[i],
    ensures
        a != b,
{
}

fn segs_eq(a: &Vec<Seg>, b: &Vec<Seg>) -> (r: bool)
    ensures
        r == (a@ == b@),
{
    if a.len() != b.len() {
        return false;
    }
    let mut i: usize = 0;
    while i < a.len()
        invariant
            a@.len() == b@.len(),
            i <= a@.len(),
            forall|j: int| 0 <= j < i ==> a@[j] == b@[j],
        decreases a@.len() - i,
    {
        if a[i] != b[i] {
            return false;
        }
        i += 1;
    }
    proof {
        assert(a@ =~= b@);
    }
    true
}

/// Judges two subpaths equivalent exactly as `subpath_equiv` says: equal
/// element for element, or equal after rotating the second right by one.
pub fn subpaths_equivalent(a: &Vec<Seg>, b: &Vec<Seg>) -> (r: bool)
    ensures
        r == subpath_equiv(a@, b@),
{
    if segs_eq(a, b) {
        return true;
    }
    if a.len() == 0 || b.len() == 0 || a.len() != b.len() {
        return false;
    }
    let n = a.len();
    if a[0] != b[n - 1] {
        proof {
            assert(rotate_right_one(b@)[0] == b@[n - 1]);
            lemma_segs_neq_at(a@, rotate_right_one(b@), 0);
        }
        return false;
    }
    let mut i: usize = 1;
    while i < n
        invariant
            n == a@.len() == b@.len(),
            1 <= i <= n,
            a@ != b@,
            a@[0] == b@[n - 1],
            forall|j: int| 1 <= j < i ==> a@[j] == b@[j - 1],
        decreases n - i,
    {
        if a[i] != b[i - 1] {
            proof {
                assert(rotate_right_one(b@)[i as int] == b@[i - 1]);
                lemma_segs_neq_at(a@, rotate_right_one(b@), i as int);
            }
            return false;
        }
        i += 1;
    }
    assert forall|j: int| 0 <= j < n implies a@[j] == rotate_right_one(b@)[j] by {
        if j == 0 {
            assert(rotate_right_one(b@)[0] == b@[n - 1]);
        } else {
            assert(rotate_right_one(b@)[j] == b@[j - 1]);
        }
    }
    assert(a@ =~= rotate_right_one(b@));
    true
}

/// The views of a vector of segment vectors.
pub open spec fn seg_views(v: Seq<Vec<Seg>>) -> Seq<Seq<Seg>> {
    v.map_values(|s: Vec<Seg>| s@)
}

/// Judges two parsed outlines equivalent: same subpath count, and subpaths
/// pairwise equivalent by position.
pub fn equivalent_outlines(a: &Vec<Vec<Seg>>, b: &Vec<Vec<Seg>>) -> (r: bool)
    ensures
        r == outline_equiv(seg_views(a@), seg_views(b@)),
{
    if a.len() != b.len() {
        return false;
    }
    let mut i: usize = 0;
    while i < a.len()
        invariant
            a@.len() == b@.len(),
            i <= a@.len(),
            forall|j: int| 0 <= j < i ==> subpath_equiv(seg_views(a@)[j], seg_views(b@)[j]),
        decreases a@.len() - i,
    {
        let ok = subpaths_equivalent(&a[i], &b[i]);
        proof {
            assert(seg_views(a@)[i as int] == a@[i as int]@);
            assert(seg_views(b@)[i as int] == b@[i as int]@);
        }
        if !ok {
            assert(!subpath_equiv(seg_views(a@)[i as int], seg_views(b@)[i as int]));
            return false;
        }
        i += 1;
    }
    true
}

/// Every subpath chunk is accepted by the path parser.
pub open spec fn all_chunks_parse(chunks: Seq<Seq<char>>) -> bool {
    forall|i: int| 0 <= i < chunks.len() ==> #[trigger] segments_of(chunks[i]) is Some
}

/// The parsed segments of each subpath chunk.
pub open spec fn parsed_outline(chunks: Seq<Seq<char>>) -> Seq<Seq<Seg>> {
    Seq::new(chunks.len(), |i: int| segments_of(chunks[i]).unwrap())
}

/// What an SVG document's outline parses to: the segment sequences of its
/// subpaths, or `None` where the path attribute is missing, unterminated,
/// or some subpath is refused by the parser.
pub open spec fn outline_of(svg: Seq<char>) -> Option<Seq<Seq<Seg>>> {
    match d_attr_split(svg) {
        None => None,
        Some(parts) => {
            let chunks = subpath_chunks(parts.1);
            if all_chunks_parse(chunks) {
                Some(parsed_outline(chunks))
            } else {
                None
            }
        },
    }
}

/// Parses an SVG document into its outline: the path data is split at move
/// commands and each subpath is parsed into segments.
pub fn parse_outline(icon_name: &str, svg: &str) -> (r: Result<Vec<Vec<Seg>>, DiffError>)
    ensures
        match r {
            Ok(o) => outline_of(svg@) == Some(seg_views(o@)),
            Err(_) => outline_of(svg@) is None,
        },
{
    let parts = match parse_path(svg) {
        Ok(parts) => parts,
        Err(e) => {
            return Err(e);
        },
    };
    let chunks = split_subpaths(parts.1);
    let ghost spec_chunks = subpath_chunks(parts.1@);
    let mut out: Vec<Vec<Seg>> = Vec::new();
    let mut i: usize = 0;
    while i < chunks.len()
        invariant
            chunks@.len() == spec_chunks.len(),
            forall|w: int| 0 <= w < chunks@.len() ==> #[trigger] chunks@[w]@ == spec_chunks[w],
            spec_chunks == subpath_chunks(parts.1@),
            d_attr_split(svg@) == Some((parts.0@, parts.1@, parts.2@)),
            i <= chunks@.len(),
            out@.len() == i as int,
            forall|j: int| 0 <= j < i ==> #[trigger] segments_of(spec_chunks[j]) is Some,
            forall|j: int| 0 <= j < i ==> segments_of(spec_chunks[j]) == Some(#[trigger] out@[j]@),
        decreases chunks@.len() - i,
    {
        assert(chunks@[i as int]@ == spec_chunks[i as int]);
        match parse_segments(chunks[i]) {
            Some(v) => {
                out.push(v);
            },
            None => {
                assert(segments_of(spec_chunks[i as int]) is None);
                assert(!all_chunks_parse(spec_chunks));
                assert(outline_of(svg@) is None);
                return Err(DiffError::UnparsablePath { icon: icon_name.to_owned() });
            },
        }
        i += 1;
    }
    proof {
        assert(all_chunks_parse(spec_chunks));
        assert forall|j: int| 0 <= j < out@.len() implies #[trigger] seg_views(out@)[j]
            == parsed_outline(spec_chunks)[j] by {
            assert(segments_of(spec_chunks[j]) == Some(out@[j]@));
        }
        assert(seg_views(out@) =~= parsed_outline(spec_chunks));
        assert(outline_of(svg@) == Some(seg_views(out@)));
    }
    Ok(out)
}

/// Judges two SVG renderings of one icon structurally equivalent: the path
/// data of each is split at move commands, each subpath is parsed, and the
/// outlines are compared pairwise with single-rotation tolerance. An error
/// names what could not be parsed; it is never a judgement.
pub fn equivalent_paths(icon_name: &str, left_svg: &str, right_svg: &str) -> (r: Result<
    bool,
    DiffError,
>)
    ensures
        match r {
            Ok(eq) => {
                &&& outline_of(left_svg@) is Some
                &&& outline_of(right_svg@) is Some
                &&& eq == outline_equiv(
                    outline_of(left_svg@).unwrap(),
                    outline_of(right_svg@).unwrap(),
                )
            },
            Err(_) => outline_of(left_svg@) is None || outline_of(right_svg@) is None,
        },
{
    let left = match parse_outline(icon_name, left_svg) {
        Ok(o) => o,
        Err(e) => {
            return Err(e);
        },
    };
    let right = match parse_outline(icon_name, right_svg) {
        Ok(o) => o,
        Err(e) => {
            return Err(e);
        },
    };
    Ok(equivalent_outlines(&left, &right))
}

/// An outline is equivalent to itself; a right-rotation by one of a
/// non-empty subpath is tolerated; and nothing else is: a subpath judged
/// equivalent to `b` is `b` itself or its right-rotation by one.
pub proof fn lemma_rotation_tolerance(a: Seq<Seg>, b: Seq<Seg>)
    ensures
        subpath_equiv(a, a),
        b.len() > 0 ==> subpath_equiv(rotate_right_one(b), b),
        subpath_equiv(a, b) ==> a == b || (b.len() > 0 && a == rotate_right_one(b)),
{
    if b.len() > 0 {
        assert(rotate_right_one(b).len() == b.len());
    }
}

/// An outline is equivalent to itself.
pub proof fn lemma_outline_equiv_reflexive(o: Seq<Seq<Seg>>)
    ensures
        outline_equiv(o, o),
{
}

/// Outlines with differing subpath counts are never equivalent, whatever
/// their contents.
pub proof fn lemma_subpath_count_mismatch(a: Seq<Seq<Seg>>, b: Seq<Seq<Seg>>)
    requires
        a.len() != b.len(),
    ensures
        !outline_equiv(a, b),
{
}

} // verus!

