use vstd::prelude::*;

verus! {

/// One variation axis of a variable font: a four-byte tag packed big-endian
/// into a `u32`, plus the axis's minimum, default and maximum design-space
/// coordinates. Well-formed axes satisfy `min <= default <= max`.
#[derive(Clone, Copy, Debug, PartialEq, Eq, Structural, Hash)]
pub struct Axis {
    pub tag: u32,
    pub min: i32,
    pub default: i32,
    pub max: i32,
}

/// The `FILL` axis tag, packed big-endian.
pub const FILL_TAG: u32 = 0x46494C4C;

/// The `GRAD` axis tag, packed big-endian.
pub const GRAD_TAG: u32 = 0x47524144;

/// The `ROND` axis tag, packed big-endian.
pub const ROND_TAG: u32 = 0x524F4E44;

/// The `opsz` axis tag, packed big-endian.
pub const OPSZ_TAG: u32 = 0x6F70737A;

/// The `wght` axis tag, packed big-endian.
pub const WGHT_TAG: u32 = 0x77676874;

/// Packs the four bytes of an axis tag big-endian into a `u32`.
pub fn tag_value(b0: u8, b1: u8, b2: u8, b3: u8) -> (r: u32)
    ensures
        r == b0 * 0x1000000 + b1 * 0x10000 + b2 * 0x100 + b3,
{
    (b0 as u32) * 0x1000000 + (b1 as u32) * 0x10000 + (b2 as u32) * 0x100 + (b3 as u32)
}

/// The sampling step for each recognized axis tag; `None` for a tag with no
/// stepped policy, which falls back to `{min, default, max}`.
pub open spec fn spec_policy_step(tag: u32) -> Option<i32> {
    if tag == FILL_TAG {
        Some(1i32)
    } else if tag == GRAD_TAG {
        Some(25i32)
    } else if tag == ROND_TAG {
        Some(50i32)
    } else if tag == OPSZ_TAG {
        Some(16i32)
    } else if tag == WGHT_TAG {
        Some(200i32)
    } else {
        None
    }
}

/// Looks the sampling step for an axis tag up in the policy table.
pub fn policy_step(tag: u32) -> (r: Option<i32>)
    ensures
        r == spec_policy_step(tag),
{
    if tag == FILL_TAG {
        Some(1)
    } else if tag == GRAD_TAG {
        Some(25)
    } else if tag == ROND_TAG {
        Some(50)
    } else if tag == OPSZ_TAG {
        Some(16)
    } else if tag == WGHT_TAG {
        Some(200)
    } else {
        None
    }
}

/// `s` is the whole ladder `min, min + step, min + 2*step, ...` of values
/// that do not exceed `max`: every element is on the ladder, no element
/// exceeds `max`, and the next ladder value after the last would exceed `max`.
pub open spec fn is_full_ladder(min: int, max: int, step: int, s: Seq<i32>) -> bool {
    &&& forall|j: int| 0 <= j < s.len() ==> s[j] as int == min + j * step
    &&& forall|j: int| 0 <= j < s.len() ==> s[j] as int <= max
    &&& min + s.len() * step > max
    &&& (s.len() == 0 <==> min > max)
}

/// Walks from `min` upward in increments of `step` while the running value
/// does not exceed `max`, then appends `default` and `max` unconditionally.
/// The result is not yet sorted or deduplicated.
pub fn stops(min: i32, default: i32, max: i32, step: i32) -> (r: Vec<i32>)
    requires
        step >= 1,
    ensures
        r@.len() >= 2,
        r@[r@.len() - 2] == default,
        r@[r@.len() - 1] == max,
        is_full_ladder(min as int, max as int, step as int, r@.take(r@.len() - 2)),
{
    let mut out: Vec<i32> = Vec::new();
    let mut curr: i64 = min as i64;
    while curr <= max as i64
        invariant
            step >= 1,
            curr == min as int + out@.len() * (step as int),
            forall|j: int| 0 <= j < out@.len() ==> out@[j] as int == min as int + j * (step as int),
            forall|j: int| 0 <= j < out@.len() ==> out@[j] as int <= max as int,
            out@.len() == 0 ==> curr == min as int,
            out@.len() > 0 ==> min <= max,
        decreases max as int + step as int - curr,
    {
        assert(min as int <= curr) by {
            assert(out@.len() * (step as int) >= 0) by (nonlinear_arith)
                requires step >= 1;
        };
        out.push(curr as i32);
        assert((out@.len() - 1) * (step as int) + step as int == out@.len() * (step as int))
            by (nonlinear_arith);
        curr = curr + step as i64;
    }
    let ghost ladder = out@;
    out.push(default);
    out.push(max);
    assert(out@.take(out@.len() - 2) =~= ladder);
    out
}

/// `v` is one of the sampled coordinates the policy table prescribes for the
/// axis: for a recognized tag, a ladder value not exceeding `max`, or the
/// `default` or `max` anchor; for an unrecognized tag, one of `min`,
/// `default`, `max`.
pub open spec fn is_stop(a: Axis, v: int) -> bool {
    match spec_policy_step(a.tag) {
        Some(step) => v == a.default || v == a.max || (v <= a.max && exists|k: nat|
            v == a.min + #[trigger] (k * step)),
        None => v == a.min || v == a.default || v == a.max,
    }
}

/// Every element of `s` is smaller than its successors.
pub open spec fn strictly_sorted(s: Seq<i32>) -> bool {
    forall|i: int, j: int| 0 <= i < j < s.len() ==> s[i] < s[j]
}

/// Inserts `x` into the strictly sorted vector `out`, keeping it strictly
/// sorted; a value already present is not duplicated.
fn insert_sorted_unique(out: Vec<i32>, x: i32) -> (r: Vec<i32>)
    requires
        strictly_sorted(out@),
    ensures
        strictly_sorted(r@),
        forall|v: i32| r@.contains(v) <==> (out@.contains(v) || v == x),
{
    let ghost pre = out@;
    let mut out = out;
    let mut i: usize = 0;
    while i < out.len() && out[i] < x
        invariant
            strictly_sorted(out@),
            out@ == pre,
            i <= out@.len(),
            forall|j: int| 0 <= j < i ==> out@[j] < x,
        decreases out@.len() - i,
    {
        i += 1;
    }
    if i < out.len() && out[i] == x {
        assert forall|v: i32| out@.contains(v) <==> (pre.contains(v) || v == x) by {
            if v == x {
                assert(out@[i as int] == v);
                assert(out@.contains(v));
            }
        }
    } else {
        out.insert(i, x);
        assert forall|v: i32| out@.contains(v) <==> (pre.contains(v) || v == x) by {
            if out@.contains(v) {
                let w = choose|w: int| 0 <= w < out@.len() && out@[w] == v;
                if w < i {
                    assert(pre[w] == v);
                } else if w > i {
                    assert(pre[w - 1] == v);
                }
            }
            if pre.contains(v) {
                let w = choose|w: int| 0 <= w < pre.len() && pre[w] == v;
                if w < i {
                    assert(out@[w] == v);
                } else {
                    assert(out@[w + 1] == v);
                }
            }
            if v == x {
                assert(out@[i as int] == v);
            }
        }
        assert forall|p: int, q: int| 0 <= p < q < out@.len() implies out@[p] < out@[q] by {
            if p < i && q > i {
                assert(pre[p] == out@[p] && pre[q - 1] == out@[q]);
            }
            if q == i {
                assert(out@[p] == pre[p]);
            }
            if p == i && q > i {
                assert(out@[q] == pre[q - 1]);
                if q - 1 > i {
                    assert(pre[i as int] > x);
                }
            }
        }
    }
    out
}

impl Axis {
    /// `min <= default <= max`.
    pub open spec fn wf(self) -> bool {
        self.min <= self.default <= self.max
    }

    /// The sampled stop list for this axis: the policy ladder for a
    /// recognized tag (falling back to `{min, default, max}` for an
    /// unrecognized one), plus the `default` and `max` anchors, sorted
    /// ascending and deduplicated.
    pub fn stops(&self) -> (r: Vec<i32>)
        requires
            self.wf(),
        ensures
            strictly_sorted(r@),
            forall|i: int| 0 <= i < r@.len() ==> is_stop(*self, r@[i] as int),
            forall|v: i32| is_stop(*self, v as int) ==> r@.contains(v),
            r@.contains(self.min),
            r@.contains(self.default),
            r@.contains(self.max),
    {
        let raw: Vec<i32> = match policy_step(self.tag) {
            Some(step) => stops(self.min, self.default, self.max, step),
            None => {
                let mut v: Vec<i32> = Vec::new();
                v.push(self.min);
                v.push(self.default);
                v.push(self.max);
                v
            },
        };
        proof {
            lemma_raw_stops_exact(*self, raw@);
        }
        let mut out: Vec<i32> = Vec::new();
        let mut i: usize = 0;
        while i < raw.len()
            invariant
                strictly_sorted(out@),
                i <= raw@.len(),
                forall|v: i32| out@.contains(v) <==> exists|j: int| 0 <= j < i && raw@[j] == v,
            decreases raw@.len() - i,
        {
            out = insert_sorted_unique(out, raw[i]);
            i += 1;
        }
        assert(forall|v: i32| raw@.contains(v) ==> out@.contains(v));
        assert(raw@.contains(self.min) && raw@.contains(self.default) && raw@.contains(self.max));
        assert forall|j: int| 0 <= j < out@.len() implies is_stop(*self, out@[j] as int) by {
            assert(out@.contains(out@[j]));
            let w = choose|w: int| 0 <= w < raw@.len() && raw@[w] == out@[j];
            assert(is_stop(*self, raw@[w] as int));
        }
        out
    }
}

/// The unsorted stop vector built for a well-formed axis holds exactly the
/// values that `is_stop` admits.
proof fn lemma_raw_stops_exact(a: Axis, raw: Seq<i32>)
    requires
        a.wf(),
        match spec_policy_step(a.tag) {
            Some(step) => {
                &&& raw.len() >= 2
                &&& raw[raw.len() - 2] == a.default
                &&& raw[raw.len() - 1] == a.max
                &&& is_full_ladder(a.min as int, a.max as int, step as int, raw.take(raw.len() - 2))
            },
            None => raw =~= seq![a.min, a.default, a.max],
        },
    ensures
        forall|i: int| 0 <= i < raw.len() ==> is_stop(a, raw[i] as int),
        forall|v: i32| is_stop(a, v as int) ==> raw.contains(v),
        raw.contains(a.min),
        raw.contains(a.default),
        raw.contains(a.max),
{
    match spec_policy_step(a.tag) {
        Some(step) => {
            let ladder = raw.take(raw.len() - 2);
            let n = ladder.len();
            assert forall|i: int| 0 <= i < raw.len() implies is_stop(a, raw[i] as int) by {
                if i < raw.len() - 2 {
                    assert(ladder[i] == raw[i]);
                    assert(raw[i] as int == a.min + i * step);
                    assert(raw[i] as int == a.min + (i as nat) * step);
                }
            }
            assert forall|v: i32| is_stop(a, v as int) implies raw.contains(v) by {
                if v == a.default {
                    assert(raw[raw.len() - 2] == v);
                } else if v == a.max {
                    assert(raw[raw.len() - 1] == v);
                } else {
                    let k = choose|k: nat| v as int == a.min + #[trigger] (k * step);
                    assert(v as int <= a.max);
                    if k >= n {
                        assert(k * step >= n * step) by (nonlinear_arith)
                            requires k >= n && n >= 0 && step >= 1;
                        assert(a.min + n * step > a.max);
                        assert(false);
                    }
                    assert(ladder[k as int] as int == a.min + k * step);
                    assert(raw[k as int] == v);
                }
            }
            // the anchors stand at the end; min is ladder value 0 since min <= max
            assert(a.min + 0 * step == a.min);
            assert(is_stop(a, a.min as int));
            assert(raw[raw.len() - 2] == a.default && raw.contains(a.default));
            assert(raw[raw.len() - 1] == a.max && raw.contains(a.max));
            if n > 0 {
                assert(ladder[0] == raw[0] && ladder[0] as int == a.min + 0 * step);
                assert(raw.contains(a.min));
            } else {
                assert(a.min > a.max);
                assert(false);
            }
        },
        None => {
            assert(raw[0] == a.min && raw[1] == a.default && raw[2] == a.max);
        },
    }
}

} // verus!
