use vstd::prelude::*;

use crate::text::chars_of;

verus! {

/// What identifies one renderable icon: its names and its codepoints, both
/// canonically sorted and deduplicated. A glyph index is deliberately no
/// part of the identity: indices differ arbitrarily between two builds of
/// one family.
#[derive(Debug, Clone)]
pub struct Icon {
    pub names: Vec<String>,
    pub codepoints: Vec<u32>,
}

/// The mathematical value of an `Icon`.
#[verifier::ext_equal]
pub ghost struct IconView {
    pub names: Seq<Seq<char>>,
    pub codepoints: Seq<u32>,
}

impl View for Icon {
    type V = IconView;

    open spec fn view(&self) -> IconView {
        IconView { names: self.names.deep_view(), codepoints: self.codepoints@ }
    }
}

/// `a` precedes `b` or equals it in lexicographic order by unicode scalar
/// value.
pub open spec fn lex_le(a: Seq<char>, b: Seq<char>) -> bool
    decreases a.len(),
{
    if a.len() == 0 {
        true
    } else if b.len() == 0 {
        false
    } else if a[0] == b[0] {
        lex_le(a.drop_first(), b.drop_first())
    } else {
        (a[0] as u32) < (b[0] as u32)
    }
}

/// `a` strictly precedes `b` in lexicographic order.
pub open spec fn lex_lt(a: Seq<char>, b: Seq<char>) -> bool {
    lex_le(a, b) && a != b
}

/// Lexicographic order is total.
pub proof fn lemma_lex_le_total(a: Seq<char>, b: Seq<char>)
    ensures
        lex_le(a, b) || lex_le(b, a),
    decreases a.len(),
{
    if a.len() == 0 || b.len() == 0 {
    } else if a[0] == b[0] {
        lemma_lex_le_total(a.drop_first(), b.drop_first());
    } else {
        assert((a[0] as u32) != (b[0] as u32)) by {
            vstd::utf8::char_u32_cast(a[0], a[0] as u32);
            vstd::utf8::char_u32_cast(b[0], b[0] as u32);
        }
    }
}

/// Lexicographic order is reflexive.
pub proof fn lemma_lex_le_reflexive(a: Seq<char>)
    ensures
        lex_le(a, a),
    decreases a.len(),
{
    if a.len() > 0 {
        lemma_lex_le_reflexive(a.drop_first());
    }
}

/// Two sequences each preceding the other are equal.
pub proof fn lemma_lex_le_antisymmetric(a: Seq<char>, b: Seq<char>)
    requires
        lex_le(a, b),
        lex_le(b, a),
    ensures
        a == b,
    decreases a.len(),
{
    if a.len() == 0 {
        assert(b.len() == 0);
        assert(a =~= b);
    } else {
        assert(b.len() > 0);
        assert(a[0] == b[0]);
        lemma_lex_le_antisymmetric(a.drop_first(), b.drop_first());
        assert(a =~= seq![a[0]] + a.drop_first());
        assert(b =~= seq![b[0]] + b.drop_first());
    }
}

/// Lexicographic order is transitive.
pub proof fn lemma_lex_le_transitive(a: Seq<char>, b: Seq<char>, c: Seq<char>)
    requires
        lex_le(a, b),
        lex_le(b, c),
    ensures
        lex_le(a, c),
    decreases a.len(),
{
    if a.len() == 0 || b.len() == 0 || c.len() == 0 {
    } else if a[0] == b[0] && b[0] == c[0] {
        lemma_lex_le_transitive(a.drop_first(), b.drop_first(), c.drop_first());
    }
}

/// A strict predecessor of a predecessor is a strict predecessor.
pub proof fn lemma_lex_lt_le_lt(a: Seq<char>, b: Seq<char>, c: Seq<char>)
    requires
        lex_lt(a, b),
        lex_le(b, c),
    ensures
        lex_lt(a, c),
{
    lemma_lex_le_transitive(a, b, c);
    if a == c {
        lemma_lex_le_antisymmetric(b, c);
    }
}

/// Unfolds one comparison step at position `i`.
proof fn lemma_lex_le_skip(a: Seq<char>, b: Seq<char>, i: int)
    requires
        0 <= i <= a.len(),
        0 <= i <= b.len(),
    ensures
        i < a.len() && i < b.len() && a[i] == b[i] ==> lex_le(a.skip(i), b.skip(i)) == lex_le(
            a.skip(i + 1),
            b.skip(i + 1),
        ),
        i == a.len() ==> lex_le(a.skip(i), b.skip(i)),
        i == b.len() && i < a.len() ==> !lex_le(a.skip(i), b.skip(i)),
        i < a.len() && i < b.len() && a[i] != b[i] ==> lex_le(a.skip(i), b.skip(i)) == ((a[i]
            as u32) < (b[i] as u32)),
{
    if i == a.len() {
        assert(a.skip(i).len() == 0);
    } else if i == b.len() {
        assert(b.skip(i).len() == 0);
        assert(a.skip(i).len() > 0);
    } else {
        assert(a.skip(i)[0] == a[i]);
        assert(b.skip(i)[0] == b[i]);
        if a[i] == b[i] {
            assert(a.skip(i).drop_first() =~= a.skip(i + 1));
            assert(b.skip(i).drop_first() =~= b.skip(i + 1));
        }
    }
}

/// Compares two strings lexicographically by unicode scalar value.
pub fn str_le(a: &str, b: &str) -> (r: bool)
    ensures
        r == lex_le(a@, b@),
{
    let av = chars_of(a);
    let bv = chars_of(b);
    let mut i: usize = 0;
    proof {
        assert(a@.skip(0) =~= a@);
        assert(b@.skip(0) =~= b@);
    }
    loop
        invariant
            av@ == a@,
            bv@ == b@,
            i <= av@.len(),
            i <= bv@.len(),
            lex_le(a@, b@) == lex_le(a@.skip(i as int), b@.skip(i as int)),
        decreases av@.len() - i,
    {
        proof {
            lemma_lex_le_skip(a@, b@, i as int);
        }
        if i >= av.len() {
            return true;
        }
        if i >= bv.len() {
            return false;
        }
        let ca = av[i];
        let cb = bv[i];
        if ca != cb {
            return (ca as u32) < (cb as u32);
        }
        i += 1;
    }
}

/// Compares two strings for equality of their character sequences.
pub fn str_eq(a: &str, b: &str) -> (r: bool)
    ensures
        r == (a@ == b@),
{
    let le = str_le(a, b);
    let ge = str_le(b, a);
    proof {
        lemma_lex_le_total(a@, b@);
        if le && ge {
            lemma_lex_le_antisymmetric(a@, b@);
        }
    }
    le && ge
}

/// `a` strictly before `b` in lexicographic order.
pub fn str_lt(a: &str, b: &str) -> (r: bool)
    ensures
        r == lex_lt(a@, b@),
{
    let le = str_le(a, b);
    let eq = str_eq(a, b);
    le && !eq
}

/// Every element of `s` strictly precedes its successors lexicographically.
pub open spec fn strings_strictly_sorted(s: Seq<Seq<char>>) -> bool {
    forall|i: int, j: int| 0 <= i < j < s.len() ==> lex_lt(#[trigger] s[i], #[trigger] s[j])
}

/// Inserts `x` into a vector of strings whose views are strictly sorted,
/// keeping them strictly sorted; a string already present is not duplicated.
fn insert_string_sorted(out: Vec<String>, x: String) -> (r: Vec<String>)
    requires
        strings_strictly_sorted(out.deep_view()),
    ensures
        strings_strictly_sorted(r.deep_view()),
        forall|v: Seq<char>|
            r.deep_view().contains(v) <==> (out.deep_view().contains(v) || v == x@),
{
    let ghost pre = out.deep_view();
    let mut out = out;
    let mut i: usize = 0;
    proof {
        assert(out.deep_view() =~= pre);
        assert(forall|w: int| 0 <= w < pre.len() ==> pre[w] == #[trigger] out@[w]@);
    }
    while i < out.len() && str_lt(out[i].as_str(), x.as_str())
        invariant
            out.deep_view() == pre,
            forall|w: int| 0 <= w < pre.len() ==> pre[w] == #[trigger] out@[w]@,
            strings_strictly_sorted(pre),
            i <= out@.len() == pre.len(),
            forall|j: int| 0 <= j < i ==> lex_lt(#[trigger] pre[j], x@),
        decreases out@.len() - i,
    {
        i += 1;
    }
    if i < out.len() && str_eq(out[i].as_str(), x.as_str()) {
        proof {
            assert(pre[i as int] == x@);
            assert(pre.contains(x@));
        }
        return out;
    }
    proof {
        if i < pre.len() {
            lemma_lex_le_total(pre[i as int], x@);
            assert(lex_lt(x@, pre[i as int]));
        }
    }
    let ghost xv = x@;
    out.insert(i, x);
    proof {
        let dv = out.deep_view();
        assert(dv.len() == pre.len() + 1);
        assert(forall|w: int| 0 <= w < dv.len() ==> dv[w] == #[trigger] out@[w]@);
        assert forall|w: int| 0 <= w < dv.len() implies #[trigger] dv[w] == (if w < i {
            pre[w]
        } else if w == i {
            xv
        } else {
            pre[w - 1]
        }) by {
            assert(dv[w] == out@[w]@);
        }
        assert forall|p: int, q: int| 0 <= p < q < dv.len() implies lex_lt(
            #[trigger] dv[p],
            #[trigger] dv[q],
        ) by {
            if q < i {
            } else if q == i {
                assert(dv[p] == pre[p] && lex_lt(pre[p], xv));
            } else if p == i {
                assert(dv[q] == pre[q - 1]);
                if q - 1 == i {
                    assert(lex_lt(xv, pre[i as int]));
                } else {
                    assert(lex_lt(xv, pre[i as int]));
                    assert(lex_lt(pre[i as int], pre[q - 1]));
                    lemma_lex_lt_le_lt(xv, pre[i as int], pre[q - 1]);
                }
            } else if p < i && q > i {
                assert(dv[p] == pre[p] && dv[q] == pre[q - 1]);
                if p < q - 1 {
                } else {
                    assert(p == q - 1 && p < i && q > i);
                    assert(false);
                }
            }
        }
        assert forall|v: Seq<char>| dv.contains(v) <==> (pre.contains(v) || v == xv) by {
            if dv.contains(v) {
                let w = choose|w: int| 0 <= w < dv.len() && dv[w] == v;
                if w < i {
                    assert(pre[w] == v);
                } else if w > i {
                    assert(pre[w - 1] == v);
                }
            }
            if pre.contains(v) {
                let w = choose|w: int| 0 <= w < pre.len() && pre[w] == v;
                if w < i {
                    assert(dv[w] == v);
                } else {
                    assert(dv[w + 1] == v);
                }
            }
            if v == xv {
                assert(dv[i as int] == v);
            }
        }
    }
    out
}

/// Every element of `s` is smaller than its successors.
pub open spec fn u32s_strictly_sorted(s: Seq<u32>) -> bool {
    forall|i: int, j: int| 0 <= i < j < s.len() ==> s[i] < s[j]
}

/// Inserts `x` into the strictly sorted vector `out`, keeping it strictly
/// sorted; a value already present is not duplicated.
fn insert_u32_sorted(xs: Vec<u32>, x: u32) -> (r: Vec<u32>)
    requires
        u32s_strictly_sorted(xs@),
    ensures
        u32s_strictly_sorted(r@),
        forall|v: u32| r@.contains(v) <==> (xs@.contains(v) || v == x),
{
    let mut out = xs;
    let mut i: usize = 0;
    while i < out.len() && out[i] < x
        invariant
            out@ == xs@,
            u32s_strictly_sorted(xs@),
            i <= out@.len(),
            forall|j: int| 0 <= j < i ==> xs@[j] < x,
        decreases out@.len() - i,
    {
        i += 1;
    }
    if i < out.len() && out[i] == x {
        assert forall|v: u32| out@.contains(v) <==> (xs@.contains(v) || v == x) by {
            if v == x {
                assert(out@[i as int] == v);
                assert(out@.contains(v));
            }
        }
        return out;
    }
    out.insert(i, x);
    assert forall|v: u32| out@.contains(v) <==> (xs@.contains(v) || v == x) by {
        if out@.contains(v) {
            let w = choose|w: int| 0 <= w < out@.len() && out@[w] == v;
            if w < i {
                assert(xs@[w] == v);
            } else if w > i {
                assert(xs@[w - 1] == v);
            }
        }
        if xs@.contains(v) {
            let w = choose|w: int| 0 <= w < xs@.len() && xs@[w] == v;
            if w < i {
                assert(out@[w] == v);
            } else {
                assert(out@[w + 1] == v);
            }
        }
        if v == x {
            assert(out@[i as int] == v);
        }
    }
    assert forall|p: int, q: int| 0 <= p < q < out@.len() implies out@[p] < out@[q] by {
        if p < i && q > i {
            assert(xs@[p] == out@[p] && xs@[q - 1] == out@[q]);
        }
        if q == i {
            assert(out@[p] == xs@[p]);
        }
        if p == i && q > i {
            assert(out@[q] == xs@[q - 1]);
            if q - 1 > i {
                assert(xs@[i as int] > x);
            }
        }
    }
    out
}

impl Icon {
    /// The icon's names are non-empty, strictly sorted and deduplicated, and
    /// so are its codepoints.
    pub open spec fn wf(self) -> bool {
        &&& self@.names.len() > 0
        &&& strings_strictly_sorted(self@.names)
        &&& u32s_strictly_sorted(self@.codepoints)
    }

    /// Canonicalizes an icon identity: the names and codepoints are sorted
    /// and deduplicated, so equal identities compare equal however they were
    /// assembled.
    pub fn new(names: Vec<String>, codepoints: Vec<u32>) -> (r: Icon)
        requires
            names@.len() > 0,
        ensures
            r.wf(),
            forall|v: Seq<char>| r@.names.contains(v) <==> names.deep_view().contains(v),
            forall|c: u32| r@.codepoints.contains(c) <==> codepoints@.contains(c),
    {
        let ghost names_dv = names.deep_view();
        let ghost cps = codepoints@;
        proof {
            assert(forall|w: int| 0 <= w < names_dv.len() ==> names_dv[w] == #[trigger] names@[w]@);
        }
        let mut sorted_names: Vec<String> = Vec::new();
        let mut i: usize = 0;
        while i < names.len()
            invariant
                forall|w: int| 0 <= w < names_dv.len() ==> names_dv[w] == #[trigger] names@[w]@,
                names_dv.len() == names@.len(),
                i <= names@.len(),
                strings_strictly_sorted(sorted_names.deep_view()),
                forall|v: Seq<char>|
                    sorted_names.deep_view().contains(v) <==> exists|j: int|
                        0 <= j < i && names_dv[j] == v,
            decreases names@.len() - i,
        {
            let ghost prev = sorted_names.deep_view();
            let name = names[i].clone();
            proof {
                assert(name@ == names_dv[i as int]);
            }
            sorted_names = insert_string_sorted(sorted_names, name);
            proof {
                assert forall|v: Seq<char>|
                    sorted_names.deep_view().contains(v) <==> exists|j: int|
                        0 <= j < i + 1 && names_dv[j] == v by {
                    if sorted_names.deep_view().contains(v) {
                        if prev.contains(v) {
                            let j = choose|j: int| 0 <= j < i && names_dv[j] == v;
                            assert(0 <= j < i + 1 && names_dv[j] == v);
                        } else {
                            assert(names_dv[i as int] == v);
                        }
                    }
                    if exists|j: int| 0 <= j < i + 1 && names_dv[j] == v {
                        let j = choose|j: int| 0 <= j < i + 1 && names_dv[j] == v;
                        if j < i {
                            assert(prev.contains(v));
                        }
                    }
                }
            }
            i += 1;
        }
        let mut sorted_cps: Vec<u32> = Vec::new();
        let mut k: usize = 0;
        while k < codepoints.len()
            invariant
                cps == codepoints@,
                k <= cps.len(),
                u32s_strictly_sorted(sorted_cps@),
                forall|c: u32|
                    sorted_cps@.contains(c) <==> exists|j: int| 0 <= j < k && cps[j] == c,
            decreases cps.len() - k,
        {
            let ghost prev = sorted_cps@;
            let c = codepoints[k];
            sorted_cps = insert_u32_sorted(sorted_cps, c);
            proof {
                assert forall|v: u32|
                    sorted_cps@.contains(v) <==> exists|j: int| 0 <= j < k + 1 && cps[j] == v by {
                    if sorted_cps@.contains(v) {
                        if prev.contains(v) {
                            let j = choose|j: int| 0 <= j < k && cps[j] == v;
                            assert(0 <= j < k + 1 && cps[j] == v);
                        } else {
                            assert(cps[k as int] == v);
                        }
                    }
                    if exists|j: int| 0 <= j < k + 1 && cps[j] == v {
                        let j = choose|j: int| 0 <= j < k + 1 && cps[j] == v;
                        if j < k {
                            assert(prev.contains(v));
                        }
                    }
                }
            }
            k += 1;
        }
        let r = Icon { names: sorted_names, codepoints: sorted_cps };
        proof {
            assert(names_dv.contains(names_dv[0]));
            assert(r@.names.contains(names_dv[0]));
            assert(r@.names.len() > 0);
            assert forall|v: Seq<char>| r@.names.contains(v) <==> names_dv.contains(v) by {
                if names_dv.contains(v) {
                    let j = choose|j: int| 0 <= j < names_dv.len() && names_dv[j] == v;
                }
            }
            assert forall|c: u32| r@.codepoints.contains(c) <==> cps.contains(c) by {
                if cps.contains(c) {
                    let j = choose|j: int| 0 <= j < cps.len() && cps[j] == c;
                }
            }
        }
        r
    }
}

/// The views of a vector of icons.
pub open spec fn icon_views(s: Seq<Icon>) -> Seq<IconView> {
    s.map_values(|i: Icon| i@)
}

/// Icon views differing in a stated way are not equal.
proof fn lemma_icon_views_differ(a: IconView, b: IconView)
    requires
        a.names.len() != b.names.len() || a.codepoints.len() != b.codepoints.len() || (exists|
            i: int,
        |
            0 <= i < a.names.len() && i < b.names.len() && a.names[i] != b.names[i]) || (exists|
            i: int,
        |
            0 <= i < a.codepoints.len() && i < b.codepoints.len() && a.codepoints[i]
                != b.codepoints[i]),
    ensures
        a != b,
{
}

/// Compares two icon identities: equal exactly when their views agree on
/// every name and every codepoint.
pub fn icon_eq(a: &Icon, b: &Icon) -> (r: bool)
    ensures
        r == (a@ == b@),
{
    if a.names.len() != b.names.len() || a.codepoints.len() != b.codepoints.len() {
        proof {
            lemma_icon_views_differ(a@, b@);
        }
        return false;
    }
    let mut i: usize = 0;
    while i < a.names.len()
        invariant
            a@.names.len() == b@.names.len() == a.names@.len(),
            a@.codepoints.len() == b@.codepoints.len(),
            i <= a.names@.len(),
            forall|j: int| 0 <= j < i ==> a@.names[j] == b@.names[j],
        decreases a.names@.len() - i,
    {
        proof {
            assert(a@.names[i as int] == a.names@[i as int]@);
            assert(b@.names[i as int] == b.names@[i as int]@);
        }
        if !str_eq(a.names[i].as_str(), b.names[i].as_str()) {
            proof {
                assert(a@.names[i as int] != b@.names[i as int]);
                lemma_icon_views_differ(a@, b@);
            }
            return false;
        }
        i += 1;
    }
    let mut k: usize = 0;
    while k < a.codepoints.len()
        invariant
            a@.names.len() == b@.names.len(),
            a@.codepoints.len() == b@.codepoints.len() == a.codepoints@.len(),
            forall|j: int| 0 <= j < a@.names.len() ==> a@.names[j] == b@.names[j],
            k <= a.codepoints@.len(),
            forall|j: int| 0 <= j < k ==> a@.codepoints[j] == b@.codepoints[j],
        decreases a.codepoints@.len() - k,
    {
        if a.codepoints[k] != b.codepoints[k] {
            proof {
                lemma_icon_views_differ(a@, b@);
            }
            return false;
        }
        k += 1;
    }
    proof {
        assert(a@.names =~= b@.names);
        assert(a@.codepoints =~= b@.codepoints);
        assert(a@ =~= b@);
    }
    true
}

/// The canonical reporting key of an icon: its sorted names joined with
/// commas.
pub open spec fn joined(names: Seq<Seq<char>>) -> Seq<char>
    decreases names.len(),
{
    if names.len() == 0 {
        Seq::empty()
    } else if names.len() == 1 {
        names[0]
    } else {
        joined(names.drop_last()) + seq![','] + names.last()
    }
}

/// The canonical key of an icon view.
pub open spec fn icon_key(v: IconView) -> Seq<char> {
    joined(v.names)
}

impl Icon {
    /// The icon's canonical reporting key: its names joined with commas.
    pub fn key(&self) -> (r: String)
        ensures
            r@ == icon_key(self@),
    {
        proof {
            reveal_strlit(",");
        }
        if self.names.len() == 0 {
            let r = String::new();
            proof {
                assert(r@ =~= joined(self@.names));
            }
            return r;
        }
        let mut acc: String = self.names[0].clone();
        let mut i: usize = 1;
        proof {
            assert(acc@ == self@.names[0]);
            assert(self@.names.take(1).len() == 1);
            assert(self@.names.take(1)[0] == self@.names[0]);
            assert(acc@ == joined(self@.names.take(1)));
        }
        while i < self.names.len()
            invariant
                1 <= i <= self.names@.len(),
                self@.names.len() == self.names@.len(),
                acc@ == joined(self@.names.take(i as int)),
                ","@ == seq![','],
            decreases self.names@.len() - i,
        {
            acc.append(",");
            acc.append(self.names[i].as_str());
            proof {
                let t = self@.names.take(i + 1);
                assert(t.len() == i + 1);
                assert(t.drop_last() =~= self@.names.take(i as int));
                assert(t.last() == self@.names[i as int]);
                assert(self.names@[i as int]@ == self@.names[i as int]);
                assert(acc@ == joined(self@.names.take(i as int)) + seq![',']
                    + self@.names[i as int]);
            }
            i += 1;
        }
        proof {
            assert(self@.names.take(self.names@.len() as int) =~= self@.names);
        }
        acc
    }
}


/// Every icon's key precedes the keys after it (ties allowed: distinct
/// icons may share all names and differ only in codepoints).
pub open spec fn icons_sorted_by_key(s: Seq<IconView>) -> bool {
    forall|i: int, j: int|
        0 <= i < j < s.len() ==> lex_le(icon_key(#[trigger] s[i]), icon_key(#[trigger] s[j]))
}

/// No two icons of `s` are the same identity.
pub open spec fn icons_distinct(s: Seq<IconView>) -> bool {
    forall|i: int, j: int| 0 <= i < j < s.len() ==> #[trigger] s[i] != #[trigger] s[j]
}

/// Inserts an icon into a set vector kept sorted by canonical key, without
/// duplicating an identity already present.
pub fn insert_icon(xs: Vec<Icon>, icon: Icon) -> (r: Vec<Icon>)
    requires
        icons_sorted_by_key(icon_views(xs@)),
        icons_distinct(icon_views(xs@)),
    ensures
        icons_sorted_by_key(icon_views(r@)),
        icons_distinct(icon_views(r@)),
        forall|v: IconView|
            icon_views(r@).contains(v) <==> (icon_views(xs@).contains(v) || v == icon@),
{
    let ghost vs = icon_views(xs@);
    let k = icon.key();
    let mut out = xs;
    let mut i: usize = 0;
    proof {
        assert(icon_views(out@) =~= vs);
        assert(forall|w: int| 0 <= w < vs.len() ==> vs[w] == #[trigger] out@[w]@);
    }
    while i < out.len() && str_lt(out[i].key().as_str(), k.as_str())
        invariant
            vs == icon_views(xs@),
            icon_views(out@) == vs,
            forall|w: int| 0 <= w < vs.len() ==> vs[w] == #[trigger] out@[w]@,
            icons_sorted_by_key(vs),
            icons_distinct(vs),
            k@ == icon_key(icon@),
            i <= out@.len() == vs.len(),
            forall|j: int| 0 <= j < i ==> lex_lt(icon_key(#[trigger] vs[j]), icon_key(icon@)),
        decreases out@.len() - i,
    {
        i += 1;
    }
    let mut j = i;
    while j < out.len() && str_eq(out[j].key().as_str(), k.as_str())
        invariant
            vs == icon_views(xs@),
            icon_views(out@) == vs,
            forall|w: int| 0 <= w < vs.len() ==> vs[w] == #[trigger] out@[w]@,
            icons_sorted_by_key(vs),
            icons_distinct(vs),
            k@ == icon_key(icon@),
            i <= j <= out@.len() == vs.len(),
            forall|w: int| 0 <= w < i ==> lex_lt(icon_key(#[trigger] vs[w]), icon_key(icon@)),
            forall|w: int|
                i <= w < j ==> icon_key(#[trigger] vs[w]) == icon_key(icon@) && vs[w] != icon@,
        decreases out@.len() - j,
    {
        if icon_eq(&out[j], &icon) {
            proof {
                assert(vs[j as int] == icon@);
                assert(vs.contains(icon@));
                assert(icon_views(xs@).contains(icon@));
                assert forall|v: IconView|
                    icon_views(out@).contains(v) <==> (icon_views(xs@).contains(v) || v
                        == icon@) by {}
            }
            return out;
        }
        j += 1;
    }
    proof {
        if j < vs.len() {
            if j == i {
                lemma_lex_le_total(icon_key(vs[j as int]), icon_key(icon@));
            } else {
                assert(icon_key(vs[j - 1]) == icon_key(icon@));
                assert(lex_le(icon_key(vs[j - 1]), icon_key(vs[j as int])));
            }
            assert(lex_lt(icon_key(icon@), icon_key(vs[j as int])));
        }
    }
    let ghost iv = icon@;
    out.insert(j, icon);
    proof {
        let dv = icon_views(out@);
        assert(dv.len() == vs.len() + 1);
        assert(forall|w: int| 0 <= w < dv.len() ==> dv[w] == #[trigger] out@[w]@);
        assert forall|w: int| 0 <= w < dv.len() implies #[trigger] dv[w] == (if w < j {
            vs[w]
        } else if w == j {
            iv
        } else {
            vs[w - 1]
        }) by {
            assert(dv[w] == out@[w]@);
        }
        assert forall|p: int, q: int| 0 <= p < q < dv.len() implies lex_le(
            icon_key(#[trigger] dv[p]),
            icon_key(#[trigger] dv[q]),
        ) by {
            lemma_lex_le_reflexive(icon_key(iv));
            if q < j {
            } else if q == j {
                if p < i {
                } else {
                    assert(icon_key(dv[p]) == icon_key(iv));
                    lemma_lex_le_reflexive(icon_key(iv));
                }
            } else if p == j {
                let w = q - 1;
                assert(dv[q] == vs[w]);
                assert(lex_lt(icon_key(iv), icon_key(vs[j as int])));
                if w == j {
                } else {
                    lemma_lex_lt_le_lt(icon_key(iv), icon_key(vs[j as int]), icon_key(vs[w]));
                }
            } else {
                if p < j {
                    assert(dv[p] == vs[p] && dv[q] == vs[q - 1]);
                    if p == q - 1 {
                        lemma_lex_le_reflexive(icon_key(vs[p]));
                    }
                } else {
                    assert(dv[p] == vs[p - 1] && dv[q] == vs[q - 1]);
                }
            }
        }
        assert forall|p: int, q: int| 0 <= p < q < dv.len() implies #[trigger] dv[p]
            != #[trigger] dv[q] by {
            if q == j {
                if p < i {
                    assert(lex_lt(icon_key(vs[p]), icon_key(iv)));
                } else {
                    assert(vs[p] != iv);
                }
            } else if p == j {
                let w = q - 1;
                assert(lex_lt(icon_key(iv), icon_key(vs[j as int])));
                if w == j {
                } else {
                    lemma_lex_lt_le_lt(icon_key(iv), icon_key(vs[j as int]), icon_key(vs[w]));
                }
            }
        }
        assert forall|v: IconView| dv.contains(v) <==> (icon_views(xs@).contains(v) || v
            == iv) by {
            if dv.contains(v) {
                let w = choose|w: int| 0 <= w < dv.len() && dv[w] == v;
                if w < j {
                    assert(vs[w] == v);
                } else if w > j {
                    assert(vs[w - 1] == v);
                }
            }
            if icon_views(xs@).contains(v) {
                let w = choose|w: int| 0 <= w < vs.len() && vs[w] == v;
                if w < j {
                    assert(dv[w] == v);
                } else {
                    assert(dv[w + 1] == v);
                }
            }
            if v == iv {
                assert(dv[j as int] == v);
            }
        }
    }
    out
}

/// Builds the canonical icon set of one font build: sorted by key,
/// deduplicated by identity, holding exactly the identities handed in.
pub fn canonical_icon_set(icons: Vec<Icon>) -> (r: Vec<Icon>)
    ensures
        icons_sorted_by_key(icon_views(r@)),
        icons_distinct(icon_views(r@)),
        forall|v: IconView| icon_views(r@).contains(v) <==> icon_views(icons@).contains(v),
{
    let ghost vs = icon_views(icons@);
    proof {
        assert(forall|w: int| 0 <= w < vs.len() ==> vs[w] == #[trigger] icons@[w]@);
    }
    let mut out: Vec<Icon> = Vec::new();
    let mut i: usize = 0;
    proof {
        assert(icon_views(out@) =~= Seq::<IconView>::empty());
    }
    while i < icons.len()
        invariant
            vs == icon_views(icons@),
            forall|w: int| 0 <= w < vs.len() ==> vs[w] == #[trigger] icons@[w]@,
            i <= icons@.len() == vs.len(),
            icons_sorted_by_key(icon_views(out@)),
            icons_distinct(icon_views(out@)),
            forall|v: IconView|
                icon_views(out@).contains(v) <==> exists|w: int| 0 <= w < i && vs[w] == v,
        decreases icons@.len() - i,
    {
        let ghost prev = icon_views(out@);
        let icon = icons[i].dup();
        out = insert_icon(out, icon);
        proof {
            assert forall|v: IconView|
                icon_views(out@).contains(v) <==> exists|w: int| 0 <= w < i + 1 && vs[w] == v by {
                if icon_views(out@).contains(v) {
                    if prev.contains(v) {
                        let w = choose|w: int| 0 <= w < i && vs[w] == v;
                        assert(0 <= w < i + 1 && vs[w] == v);
                    } else {
                        assert(vs[i as int] == v);
                    }
                }
                if exists|w: int| 0 <= w < i + 1 && vs[w] == v {
                    let w = choose|w: int| 0 <= w < i + 1 && vs[w] == v;
                    if w < i {
                        assert(prev.contains(v));
                    }
                }
            }
        }
        i += 1;
    }
    proof {
        assert forall|v: IconView| icon_views(out@).contains(v) <==> vs.contains(v) by {
            if vs.contains(v) {
                let w = choose|w: int| 0 <= w < vs.len() && vs[w] == v;
            }
        }
    }
    out
}

impl Icon {
    /// A copy of this icon with the same identity.
    pub fn dup(&self) -> (r: Icon)
        ensures
            r@ == self@,
    {
        let mut names: Vec<String> = Vec::new();
        let mut i: usize = 0;
        while i < self.names.len()
            invariant
                i <= self.names@.len(),
                names@.len() == i as int,
                forall|j: int| 0 <= j < i ==> #[trigger] names@[j]@ == self.names@[j]@,
            decreases self.names@.len() - i,
        {
            names.push(self.names[i].clone());
            i += 1;
        }
        let mut codepoints: Vec<u32> = Vec::new();
        let mut k: usize = 0;
        while k < self.codepoints.len()
            invariant
                k <= self.codepoints@.len(),
                codepoints@ == self.codepoints@.take(k as int),
            decreases self.codepoints@.len() - k,
        {
            codepoints.push(self.codepoints[k]);
            proof {
                assert(codepoints@ =~= self.codepoints@.take(k + 1));
            }
            k += 1;
        }
        let r = Icon { names, codepoints };
        proof {
            assert(codepoints@ =~= self.codepoints@);
            assert forall|j: int| 0 <= j < r@.names.len() implies #[trigger] r@.names[j]
                == self@.names[j] by {
                assert(r@.names[j] == r.names@[j]@);
                assert(self@.names[j] == self.names@[j]@);
            }
            assert(r@.names =~= self@.names);
            assert(r@ =~= self@);
        }
        r
    }
}

} // verus!
