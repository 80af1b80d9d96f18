use vstd::prelude::*;

verus! {

/// Copies the characters of `s` into a vector.
pub fn chars_of(s: &str) -> (v: Vec<char>)
    ensures
        v@ == s@,
{
    let n = s.unicode_len();
    let mut v: Vec<char> = Vec::new();
    let mut i: usize = 0;
    while i < n
        invariant
            n == s@.len(),
            i <= n,
            v@ == s@.take(i as int),
        decreases n - i,
    {
        v.push(s.get_char(i));
        assert(v@ =~= s@.take(i + 1));
        i += 1;
    }
    assert(v@ =~= s@);
    v
}

/// Relies on `String: FromIterator<char>`: collecting characters yields the
/// string holding exactly those characters in order.
#[verifier::external_body]
pub fn chars_to_string(v: &Vec<char>) -> (s: String)
    ensures
        s@ == v@,
{
    v.iter().collect()
}

/// The first position at or after `i` where `pat` occurs in `s`, if any.
pub open spec fn find_from(s: Seq<char>, pat: Seq<char>, i: int) -> Option<int>
    decreases s.len() - i,
    when 0 <= i && pat.len() >= 1
{
    if i + pat.len() > s.len() {
        None
    } else if s.subrange(i, i + pat.len()) == pat {
        Some(i)
    } else {
        find_from(s, pat, i + 1)
    }
}

/// What `find_from` returns is an occurrence of `pat`, and the earliest one.
pub proof fn lemma_find_from(s: Seq<char>, pat: Seq<char>, i: int)
    requires
        0 <= i,
        pat.len() >= 1,
    ensures
        match find_from(s, pat, i) {
            Some(j) => {
                &&& i <= j
                &&& j + pat.len() <= s.len()
                &&& s.subrange(j, j + pat.len()) == pat
                &&& forall|k: int|
                    i <= k < j ==> #[trigger] s.subrange(k, k + pat.len()) != pat
            },
            None => forall|k: int|
                i <= k && k + pat.len() <= s.len() ==> #[trigger] s.subrange(k, k + pat.len())
                    != pat,
        },
    decreases s.len() - i,
{
    if i + pat.len() > s.len() {
    } else if s.subrange(i, i + pat.len()) == pat {
    } else {
        lemma_find_from(s, pat, i + 1);
    }
}

/// Scans `hay` from position `from` for the first occurrence of `pat`.
pub fn find_pattern(hay: &Vec<char>, pat: &Vec<char>, from: usize) -> (r: Option<usize>)
    requires
        pat@.len() >= 1,
    ensures
        match r {
            Some(j) => Some(j as int) == find_from(hay@, pat@, from as int),
            None => find_from(hay@, pat@, from as int) is None,
        },
{
    let n = hay.len();
    let m = pat.len();
    let mut i: usize = from;
    loop
        invariant
            m == pat@.len() >= 1,
            n == hay@.len(),
            from <= i,
            find_from(hay@, pat@, from as int) == find_from(hay@, pat@, i as int),
        decreases n + m - i,
    {
        if i > n || m > n - i {
            return None;
        }
        let mut k: usize = 0;
        let mut matched = true;
        proof {
            assert(hay@.subrange(i as int, i as int) =~= pat@.take(0));
        }
        while k < m
            invariant
                m == pat@.len(),
                n == hay@.len(),
                i + m <= n,
                k <= m,
                matched <==> hay@.subrange(i as int, i + k) == pat@.take(k as int),
            decreases m - k,
        {
            let ghost pre_matched = matched;
            if hay[i + k] != pat[k] {
                matched = false;
            }
            proof {
                if pre_matched && hay@[i + k] == pat@[k as int] {
                    assert(hay@.subrange(i as int, i + k + 1) =~= hay@.subrange(i as int, i + k).push(
                        hay@[i + k]));
                    assert(pat@.take(k + 1) =~= pat@.take(k as int).push(pat@[k as int]));
                } else {
                    assert(hay@.subrange(i as int, i + k + 1).len() == k + 1);
                    if hay@.subrange(i as int, i + k + 1) == pat@.take(k + 1) {
                        assert(hay@.subrange(i as int, i + k + 1)[k as int] == hay@[i + k]);
                        assert(pat@.take(k + 1)[k as int] == pat@[k as int]);
                        if pre_matched {
                        } else {
                            assert forall|x: int| 0 <= x < k implies hay@.subrange(i as int, i + k)[x]
                                == pat@.take(k as int)[x] by {
                                assert(hay@.subrange(i as int, i + k + 1)[x] == pat@.take(k + 1)[x]);
                            }
                            assert(hay@.subrange(i as int, i + k) =~= pat@.take(k as int));
                        }
                    }
                }
            }
            k += 1;
        }
        if matched {
            proof {
                assert(pat@.take(m as int) =~= pat@);
            }
            return Some(i);
        }
        proof {
            assert(pat@.take(m as int) =~= pat@);
        }
        i += 1;
    }
}

/// The decimal digit character for `d`.
pub open spec fn spec_digit_char(d: int) -> char {
    if d == 0 {
        '0'
    } else if d == 1 {
        '1'
    } else if d == 2 {
        '2'
    } else if d == 3 {
        '3'
    } else if d == 4 {
        '4'
    } else if d == 5 {
        '5'
    } else if d == 6 {
        '6'
    } else if d == 7 {
        '7'
    } else if d == 8 {
        '8'
    } else {
        '9'
    }
}

fn digit_char(d: usize) -> (c: char)
    requires
        d < 10,
    ensures
        c == spec_digit_char(d as int),
{
    if d == 0 {
        '0'
    } else if d == 1 {
        '1'
    } else if d == 2 {
        '2'
    } else if d == 3 {
        '3'
    } else if d == 4 {
        '4'
    } else if d == 5 {
        '5'
    } else if d == 6 {
        '6'
    } else if d == 7 {
        '7'
    } else if d == 8 {
        '8'
    } else {
        '9'
    }
}

/// The decimal representation of `n`, most significant digit first.
pub open spec fn dec_rep(n: nat) -> Seq<char>
    decreases n,
{
    if n < 10 {
        seq![spec_digit_char(n as int)]
    } else {
        dec_rep(n / 10).push(spec_digit_char((n % 10) as int))
    }
}

/// Renders `n` in decimal.
pub fn decimal_chars(n: usize) -> (r: Vec<char>)
    ensures
        r@ == dec_rep(n as nat),
    decreases n,
{
    if n < 10 {
        let mut v: Vec<char> = Vec::new();
        v.push(digit_char(n));
        assert(v@ =~= seq![spec_digit_char(n as int)]);
        v
    } else {
        let mut v = decimal_chars(n / 10);
        v.push(digit_char(n % 10));
        v
    }
}

} // verus!
