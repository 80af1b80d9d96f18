use vstd::prelude::*;

use crate::icon::{icon_key, Icon};
use crate::outline::{equivalent_paths, outline_equiv, outline_of, DiffError};
use crate::text::{chars_to_string, dec_rep, decimal_chars};

verus! {

/// The progress line: how many icons are tested at how many locations.
pub open spec fn spec_progress_line(icons: nat, locations: nat) -> Seq<char> {
    "Testing "@ + dec_rep(icons) + " icons at "@ + dec_rep(locations) + " locations..."@
}

/// Renders the progress line for the common test surface.
pub fn progress_line(icons: usize, locations: usize) -> (r: String)
    ensures
        r@ == spec_progress_line(icons as nat, locations as nat),
{
    proof {
        reveal_strlit("Testing ");
        reveal_strlit(" icons at ");
        reveal_strlit(" locations...");
    }
    let mut out = String::new();
    out.append("Testing ");
    let di = chars_to_string(&decimal_chars(icons));
    out.append(di.as_str());
    out.append(" icons at ");
    let dl = chars_to_string(&decimal_chars(locations));
    out.append(dl.as_str());
    out.append(" locations...");
    out
}

/// The per-icon report line: the icon passes, or fails at `bad` of `total`
/// locations.
pub open spec fn spec_icon_line(name: Seq<char>, bad: nat, total: nat) -> Seq<char> {
    if bad == 0 {
        name + " passes"@
    } else {
        name + " fails at "@ + dec_rep(bad) + "/"@ + dec_rep(total) + " locations"@
    }
}

/// Renders the per-icon report line.
pub fn icon_line(name: &str, bad: usize, total: usize) -> (r: String)
    ensures
        r@ == spec_icon_line(name@, bad as nat, total as nat),
{
    proof {
        reveal_strlit(" passes");
        reveal_strlit(" fails at ");
        reveal_strlit("/");
        reveal_strlit(" locations");
    }
    let mut out = String::new();
    out.append(name);
    if bad == 0 {
        out.append(" passes");
    } else {
        out.append(" fails at ");
        let db = chars_to_string(&decimal_chars(bad));
        out.append(db.as_str());
        out.append("/");
        let dt = chars_to_string(&decimal_chars(total));
        out.append(dt.as_str());
        out.append(" locations");
    }
    out
}

/// The closing summary printed when any defect was found.
pub open spec fn spec_summary_line(errs: nat) -> Seq<char> {
    "Eeek, "@ + dec_rep(errs) + " failures!"@
}

/// Renders the closing summary line for a failing run.
pub fn summary_line(errs: usize) -> (r: String)
    ensures
        r@ == spec_summary_line(errs as nat),
{
    proof {
        reveal_strlit("Eeek, ");
        reveal_strlit(" failures!");
    }
    let mut out = String::new();
    out.append("Eeek, ");
    let de = chars_to_string(&decimal_chars(errs));
    out.append(de.as_str());
    out.append(" failures!");
    out
}

/// The defect line for an icon present on one side only: the side label and
/// the icon's canonical key.
pub open spec fn spec_problem_line(desc: Seq<char>, icon: crate::icon::IconView) -> Seq<char> {
    desc + " "@ + icon_key(icon)
}

/// Renders the defect line for an icon present on one side only.
pub fn problem_line(desc: &str, icon: &Icon) -> (r: String)
    ensures
        r@ == spec_problem_line(desc@, icon@),
{
    proof {
        reveal_strlit(" ");
    }
    let mut out = String::new();
    out.append(desc);
    out.append(" ");
    let k = icon.key();
    out.append(k.as_str());
    out
}

/// One rendered pair was judged `b`: both sides parsed, and `b` says
/// whether their outlines are equivalent.
pub open spec fn pair_judged(pair: (String, String), b: bool) -> bool {
    &&& outline_of(pair.0@) is Some
    &&& outline_of(pair.1@) is Some
    &&& b == outline_equiv(outline_of(pair.0@).unwrap(), outline_of(pair.1@).unwrap())
}

/// Judges one icon's renderings over the common locations: for each pair of
/// SVG documents, whether the two sides' outlines are structurally
/// equivalent. An error reports the first rendering that could not be
/// parsed; structural differences are never errors.
pub fn judge_renders(icon_name: &str, renders: &Vec<(String, String)>) -> (r: Result<
    Vec<bool>,
    DiffError,
>)
    ensures
        match r {
            Ok(v) => v@.len() == renders@.len() && forall|i: int|
                0 <= i < v@.len() ==> pair_judged(renders@[i], #[trigger] v@[i]),
            Err(_) => exists|i: int|
                0 <= i < renders@.len() && (outline_of((#[trigger] renders@[i]).0@) is None
                    || outline_of(renders@[i].1@) is None),
        },
{
    let mut out: Vec<bool> = Vec::new();
    let mut i: usize = 0;
    while i < renders.len()
        invariant
            i <= renders@.len(),
            out@.len() == i as int,
            forall|j: int| 0 <= j < i ==> pair_judged(renders@[j], #[trigger] out@[j]),
        decreases renders@.len() - i,
    {
        let pair = &renders[i];
        match equivalent_paths(icon_name, pair.0.as_str(), pair.1.as_str()) {
            Ok(eq) => {
                out.push(eq);
            },
            Err(e) => {
                return Err(e);
            },
        }
        i += 1;
    }
    Ok(out)
}

/// How many entries of `s` are `false`.
pub open spec fn count_false(s: Seq<bool>) -> nat
    decreases s.len(),
{
    if s.len() == 0 {
        0
    } else {
        count_false(s.drop_last()) + if s.last() {
            0nat
        } else {
            1nat
        }
    }
}

/// Counts the failing locations among one icon's judgements.
pub fn bad_count(results: &Vec<bool>) -> (r: usize)
    ensures
        r == count_false(results@),
{
    let mut count: usize = 0;
    let mut i: usize = 0;
    proof {
        assert(results@.take(0) =~= Seq::<bool>::empty());
    }
    while i < results.len()
        invariant
            i <= results@.len(),
            count == count_false(results@.take(i as int)),
            count <= i,
        decreases results@.len() - i,
    {
        proof {
            let t = results@.take(i + 1);
            assert(t.drop_last() =~= results@.take(i as int));
            assert(t.last() == results@[i as int]);
        }
        if !results[i] {
            count += 1;
        }
        i += 1;
    }
    proof {
        assert(results@.take(results@.len() as int) =~= results@);
    }
    count
}

/// The mathematical sum of a sequence of counts.
pub open spec fn sum_of(s: Seq<usize>) -> int
    decreases s.len(),
{
    if s.len() == 0 {
        0
    } else {
        sum_of(s.drop_last()) + s.last()
    }
}

/// Totals the defects of one run: the icons unique to either side plus
/// every icon's failing locations.
pub fn count_defects(only_left: usize, only_right: usize, bad_totals: &Vec<usize>) -> (r: usize)
    requires
        only_left + only_right + sum_of(bad_totals@) <= usize::MAX,
        forall|i: int| 0 <= i < bad_totals@.len() ==> 0 <= #[trigger] bad_totals@[i],
    ensures
        r == only_left + only_right + sum_of(bad_totals@),
{
    proof {
        lemma_sum_of_nonneg(bad_totals@);
        assert(bad_totals@.take(0) =~= Seq::<usize>::empty());
    }
    let mut total: usize = only_left;
    total += only_right;
    let mut i: usize = 0;
    while i < bad_totals.len()
        invariant
            only_left + only_right + sum_of(bad_totals@) <= usize::MAX,
            i <= bad_totals@.len(),
            total == only_left + only_right + sum_of(bad_totals@.take(i as int)),
        decreases bad_totals@.len() - i,
    {
        proof {
            let t = bad_totals@.take(i + 1);
            assert(t.drop_last() =~= bad_totals@.take(i as int));
            assert(t.last() == bad_totals@[i as int]);
            lemma_sum_of_prefix(bad_totals@, i + 1);
        }
        total += bad_totals[i];
        i += 1;
    }
    proof {
        assert(bad_totals@.take(bad_totals@.len() as int) =~= bad_totals@);
    }
    total
}

/// A sum of counts is never negative.
proof fn lemma_sum_of_nonneg(s: Seq<usize>)
    ensures
        sum_of(s) >= 0,
    decreases s.len(),
{
    if s.len() > 0 {
        lemma_sum_of_nonneg(s.drop_last());
    }
}

/// A prefix never sums to more than the whole.
proof fn lemma_sum_of_prefix(s: Seq<usize>, i: int)
    requires
        0 <= i <= s.len(),
    ensures
        sum_of(s.take(i)) <= sum_of(s),
    decreases s.len() - i,
{
    if i < s.len() {
        lemma_sum_of_prefix(s, i + 1);
        let t = s.take(i + 1);
        assert(t.drop_last() =~= s.take(i));
        assert(t.last() == s[i]);
    } else {
        assert(s.take(i) =~= s);
    }
}

/// The run succeeds exactly when not one defect was found, across both the
/// reconciliation and the comparison phases.
pub fn run_succeeds(defects: usize) -> (r: bool)
    ensures
        r == (defects == 0),
{
    defects == 0
}

} // verus!
