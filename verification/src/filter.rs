use vstd::prelude::*;

use crate::icon::{Icon, IconView};
use crate::reconcile::views;

verus! {

/// `regex::Regex`, declared so compiled filters can stand in signatures.
#[verifier::external_type_specification]
#[verifier::external_body]
pub struct ExRegex(regex::Regex);

/// The pattern a compiled filter was built from.
pub uninterp spec fn regex_pattern(re: regex::Regex) -> Seq<char>;

/// Whether the pattern matches somewhere in the text: what a find on a
/// compiled regex yields depends on the pattern and the text alone.
pub uninterp spec fn regex_finds(pattern: Seq<char>, text: Seq<char>) -> bool;

/// Relies on `regex::Regex::find`: whether a match exists is a pure
/// function of the compiled pattern and the text.
#[verifier::external_body]
fn regex_find_some(re: &regex::Regex, text: &str) -> (r: bool)
    ensures
        r == regex_finds(regex_pattern(*re), text@),
{
    re.find(text).is_some()
}

/// The filter keeps an icon when any of its names matches the pattern.
pub open spec fn icon_matches(pattern: Seq<char>, icon: IconView) -> bool {
    exists|i: int| 0 <= i < icon.names.len() && regex_finds(pattern, #[trigger] icon.names[i])
}

/// Whether any of the icon's names matches the filter.
fn any_name_matches(re: &regex::Regex, icon: &Icon) -> (r: bool)
    ensures
        r == icon_matches(regex_pattern(*re), icon@),
{
    let mut i: usize = 0;
    while i < icon.names.len()
        invariant
            i <= icon.names@.len(),
            icon@.names.len() == icon.names@.len(),
            forall|j: int| 0 <= j < i ==> !regex_finds(regex_pattern(*re), #[trigger] icon@.names[j]),
        decreases icon.names@.len() - i,
    {
        proof {
            assert(icon@.names[i as int] == icon.names@[i as int]@);
        }
        if regex_find_some(re, icon.names[i].as_str()) {
            return true;
        }
        i += 1;
    }
    proof {
        if icon_matches(regex_pattern(*re), icon@) {
            let w = choose|w: int|
                0 <= w < icon@.names.len() && regex_finds(regex_pattern(*re), icon@.names[w]);
            assert(false);
        }
    }
    false
}

/// Restricts an icon set to the icons whose names the filter matches,
/// keeping their order; applied before reconciliation.
pub fn filter_icons(icons: &Vec<Icon>, re: &regex::Regex) -> (r: Vec<Icon>)
    ensures
        views(r@) == views(icons@).filter(
            |v: IconView| icon_matches(regex_pattern(*re), v),
        ),
{
    let ghost vi = views(icons@);
    let ghost pred = |v: IconView| icon_matches(regex_pattern(*re), v);
    let mut out: Vec<Icon> = Vec::new();
    let mut i: usize = 0;
    proof {
        assert(vi.take(0) =~= Seq::<IconView>::empty());
        assert(views(out@) =~= Seq::<IconView>::empty());
        assert(Seq::<IconView>::empty().filter(pred) =~= Seq::<IconView>::empty());
    }
    while i < icons.len()
        invariant
            vi == views(icons@),
            pred == (|v: IconView| icon_matches(regex_pattern(*re), v)),
            i <= vi.len() == icons@.len(),
            views(out@) == vi.take(i as int).filter(pred),
        decreases icons@.len() - i,
    {
        let ghost prev = views(out@);
        proof {
            assert(vi[i as int] == icons@[i as int]@);
        }
        if any_name_matches(re, &icons[i]) {
            let copy = icons[i].dup();
            out.push(copy);
            proof {
                assert(views(out@) =~= prev.push(vi[i as int]));
            }
        }
        proof {
            assert(vi.take(i + 1) =~= vi.take(i as int).push(vi[i as int]));
            vi.take(i as int).lemma_filter_push(vi[i as int], pred);
        }
        i += 1;
    }
    proof {
        assert(vi.take(vi.len() as int) =~= vi);
    }
    out
}

} // verus!
