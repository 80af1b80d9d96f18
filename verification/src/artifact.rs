use vstd::prelude::*;

use crate::outline::{d_attr_split, DiffError};
use crate::text::{chars_of, chars_to_string, dec_rep, decimal_chars};

verus! {

/// The name of the artifact file persisting one side's reformatted SVG for
/// one failing rendering, keyed by icon, side and ordinal.
pub open spec fn spec_artifact_key(icon: Seq<char>, side: Seq<char>, nth: nat) -> Seq<char> {
    "failure."@ + icon + "."@ + side + "."@ + dec_rep(nth) + ".svg"@
}

/// The name of the artifact file persisting one side's parsed segment dump.
pub open spec fn spec_segments_key(icon: Seq<char>, side: Seq<char>, nth: nat) -> Seq<char> {
    "failure."@ + icon + "."@ + side + "."@ + dec_rep(nth) + ".segments"@
}

/// Derives the deterministic, collision-free artifact file name for one
/// failing rendering: repeated runs overwrite the same name, and distinct
/// icons, sides or ordinals never collide.
pub fn artifact_key(icon_name: &str, side: &str, nth: usize) -> (r: String)
    ensures
        r@ == spec_artifact_key(icon_name@, side@, nth as nat),
{
    proof {
        reveal_strlit("failure.");
        reveal_strlit(".");
        reveal_strlit(".svg");
    }
    let mut out = String::new();
    out.append("failure.");
    out.append(icon_name);
    out.append(".");
    out.append(side);
    out.append(".");
    let digits = decimal_chars(nth);
    let ds = chars_to_string(&digits);
    out.append(ds.as_str());
    out.append(".svg");
    out
}

/// Derives the artifact file name for the parsed segment dump of one
/// failing rendering.
pub fn segments_key(icon_name: &str, side: &str, nth: usize) -> (r: String)
    ensures
        r@ == spec_segments_key(icon_name@, side@, nth as nat),
{
    proof {
        reveal_strlit("failure.");
        reveal_strlit(".");
        reveal_strlit(".segments");
    }
    let mut out = String::new();
    out.append("failure.");
    out.append(icon_name);
    out.append(".");
    out.append(side);
    out.append(".");
    let digits = decimal_chars(nth);
    let ds = chars_to_string(&digits);
    out.append(ds.as_str());
    out.append(".segments");
    out
}

/// A letter that starts one drawing command in serialized path data.
pub open spec fn is_cmd_char(c: char) -> bool {
    (97 <= c as u32 <= 122) || (65 <= c as u32 <= 90)
}

/// The positions at or after `i` where a command letter stands in `s`.
pub open spec fn cmd_indices_from(s: Seq<char>, i: int) -> Seq<int>
    decreases s.len() - i,
    when 0 <= i
{
    if i >= s.len() {
        Seq::empty()
    } else if is_cmd_char(s[i]) {
        seq![i] + cmd_indices_from(s, i + 1)
    } else {
        cmd_indices_from(s, i + 1)
    }
}

/// The command positions are in range, strictly ascending, and command
/// letters.
proof fn lemma_cmd_indices_from(s: Seq<char>, i: int)
    requires
        0 <= i,
    ensures
        ({
            let idx = cmd_indices_from(s, i);
            &&& forall|k: int|
                0 <= k < idx.len() ==> i <= #[trigger] idx[k] < s.len() && is_cmd_char(s[idx[k]])
            &&& forall|k1: int, k2: int| 0 <= k1 < k2 < idx.len() ==> idx[k1] < idx[k2]
        }),
    decreases s.len() - i,
{
    let idx = cmd_indices_from(s, i);
    if i >= s.len() {
    } else {
        lemma_cmd_indices_from(s, i + 1);
        let rec = cmd_indices_from(s, i + 1);
        if is_cmd_char(s[i]) {
            assert(idx == seq![i] + rec);
            assert(idx[0] == i);
            assert(forall|k: int| 1 <= k < idx.len() ==> idx[k] == rec[k - 1]);
        } else {
            assert(idx == rec);
        }
    }
}

/// The drawing commands of serialized path data, one chunk per command
/// letter, each running to the next command letter or to the end.
pub open spec fn cmd_chunks(s: Seq<char>) -> Seq<Seq<char>> {
    let idx = cmd_indices_from(s, 0);
    Seq::new(
        idx.len(),
        |k: int|
            s.subrange(
                idx[k],
                if k + 1 < idx.len() {
                    idx[k + 1]
                } else {
                    s.len() as int
                },
            ),
    )
}

/// The chunks each followed by a newline, concatenated.
pub open spec fn chunk_lines(chunks: Seq<Seq<char>>) -> Seq<char>
    decreases chunks.len(),
{
    if chunks.len() == 0 {
        Seq::empty()
    } else {
        chunk_lines(chunks.drop_last()) + chunks.last() + seq!['\n']
    }
}

/// What reformatting an SVG document yields: the text through the path
/// attribute opening, a newline, every drawing command on a line of its
/// own, and the rest of the document from the closing quote on. `None`
/// where the document has no well-formed path attribute.
pub open spec fn spec_reformat(svg: Seq<char>) -> Option<Seq<char>> {
    match d_attr_split(svg) {
        None => None,
        Some(parts) => Some(parts.0 + seq!['\n'] + chunk_lines(cmd_chunks(parts.1)) + parts.2),
    }
}

/// Reformats an SVG document for offline inspection: one drawing command
/// per line inside the path attribute, the rest of the document unchanged.
pub fn reformat_svg(svg: &str) -> (r: Result<String, DiffError>)
    ensures
        match r {
            Ok(s) => spec_reformat(svg@) == Some(s@),
            Err(_) => spec_reformat(svg@) is None,
        },
{
    proof {
        reveal_strlit("\n");
    }
    let parts = match crate::outline::parse_path(svg) {
        Ok(parts) => parts,
        Err(e) => {
            return Err(e);
        },
    };
    let d = parts.1;
    let cs = chars_of(d);
    let n = cs.len();
    let mut idxs: Vec<usize> = Vec::new();
    let mut i: usize = 0;
    while i < n
        invariant
            n == cs@.len(),
            i <= n,
            cs@ == d@,
            cmd_indices_from(cs@, 0) == idxs@.map_values(|u: usize| u as int) + cmd_indices_from(
                cs@,
                i as int,
            ),
            forall|k: int| 0 <= k < idxs@.len() ==> #[trigger] idxs@[k] < i,
        decreases n - i,
    {
        let c = cs[i];
        let code = c as u32;
        let is_cmd = (97 <= code && code <= 122) || (65 <= code && code <= 90);
        if is_cmd {
            let ghost pre = idxs@;
            idxs.push(i);
            proof {
                assert(cmd_indices_from(cs@, i as int) == seq![i as int] + cmd_indices_from(
                    cs@,
                    i + 1,
                ));
                assert(idxs@.map_values(|u: usize| u as int) =~= pre.map_values(|u: usize| u as int)
                    + seq![i as int]);
                assert(pre.map_values(|u: usize| u as int) + (seq![i as int] + cmd_indices_from(
                    cs@,
                    i + 1,
                )) =~= (pre.map_values(|u: usize| u as int) + seq![i as int]) + cmd_indices_from(
                    cs@,
                    i + 1,
                ));
            }
        } else {
            proof {
                assert(cmd_indices_from(cs@, i as int) == cmd_indices_from(cs@, i + 1));
            }
        }
        i += 1;
    }
    proof {
        assert(cmd_indices_from(cs@, n as int) =~= Seq::<int>::empty());
        assert(cmd_indices_from(cs@, 0) =~= idxs@.map_values(|u: usize| u as int));
    }
    let ghost cidx = cmd_indices_from(d@, 0);
    let ghost chunks = cmd_chunks(d@);
    let mut body = String::new();
    let mut k: usize = 0;
    proof {
        assert(chunks.take(0) =~= Seq::<Seq<char>>::empty());
        assert(body@ =~= chunk_lines(chunks.take(0)));
    }
    while k < idxs.len()
        invariant
            cidx == cmd_indices_from(d@, 0),
            chunks == cmd_chunks(d@),
            cidx == idxs@.map_values(|u: usize| u as int),
            n == d@.len(),
            k <= idxs@.len(),
            forall|w: int| 0 <= w < idxs@.len() ==> #[trigger] idxs@[w] < n,
            body@ == chunk_lines(chunks.take(k as int)),
            "\n"@ == seq!['\n'],
        decreases idxs@.len() - k,
    {
        proof {
            lemma_cmd_indices_from(d@, 0);
        }
        let from = idxs[k];
        let to = if k + 1 < idxs.len() {
            idxs[k + 1]
        } else {
            n
        };
        proof {
            assert(cidx[k as int] == idxs@[k as int]);
            if k + 1 < idxs@.len() {
                assert(cidx[k as int] < cidx[k + 1]);
            }
        }
        let piece = d.substring_char(from, to);
        body.append(piece);
        body.append("\n");
        proof {
            assert(piece@ == chunks[k as int]);
            let t = chunks.take(k + 1);
            assert(t.drop_last() =~= chunks.take(k as int));
            assert(t.last() == chunks[k as int]);
            assert(body@ == chunk_lines(chunks.take(k as int)) + chunks[k as int] + seq!['\n']);
        }
        k += 1;
    }
    proof {
        assert(chunks.take(idxs@.len() as int) =~= chunks);
    }
    let mut out = String::new();
    out.append(parts.0);
    out.append("\n");
    out.append(body.as_str());
    out.append(parts.2);
    proof {
        assert(out@ == parts.0@ + seq!['\n'] + chunk_lines(chunks) + parts.2@);
    }
    Ok(out)
}

} // verus!
