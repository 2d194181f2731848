//! Linear interpolation of a partly set LED strip.
use vstd::prelude::*;
use crate::types::Rgba;

verus! {

/// The nearest set slot at or before `i`.
pub open spec fn prev_stop(s: Seq<Option<Rgba>>, i: int) -> Option<int>
    decreases i + 1,
{
    if i < 0 {
        None
    } else if i < s.len() && s[i] is Some {
        Some(i)
    } else {
        prev_stop(s, i - 1)
    }
}

/// The nearest set slot at or after `i`.
pub open spec fn next_stop(s: Seq<Option<Rgba>>, i: int) -> Option<int>
    decreases s.len() - i,
{
    if i >= s.len() {
        None
    } else if i >= 0 && s[i] is Some {
        Some(i)
    } else {
        next_stop(s, i + 1)
    }
}

/// The value at `i` on the straight line from `a` at `p` to `b` at `q`, truncated.
pub open spec fn lerp(a: int, b: int, p: int, q: int, i: int) -> int {
    (a * (q - i) + b * (i - p)) / (q - p)
}

pub open spec fn lerp_rgba(a: Rgba, b: Rgba, p: int, q: int, i: int) -> Rgba {
    Rgba {
        r: lerp(a.r as int, b.r as int, p, q, i) as i32,
        g: lerp(a.g as int, b.g as int, p, q, i) as i32,
        b: lerp(a.b as int, b.b as int, p, q, i) as i32,
        a: lerp(a.a as int, b.a as int, p, q, i) as i32,
    }
}

/// The interpolated value of slot `i`: the line between the set slots around
/// it, or the nearest set slot where there is one on a single side.
pub open spec fn interp_at(s: Seq<Option<Rgba>>, i: int) -> Rgba {
    match (prev_stop(s, i), next_stop(s, i)) {
        (Some(p), Some(q)) => if p == q {
            s[p]->0
        } else {
            lerp_rgba(s[p]->0, s[q]->0, p, q, i)
        },
        (Some(p), None) => s[p]->0,
        (None, Some(q)) => s[q]->0,
        (None, None) => Rgba::transparent(),
    }
}

/// Every slot of the strip filled in from its set slots.
pub open spec fn interpolate(s: Seq<Option<Rgba>>) -> Seq<Rgba> {
    Seq::new(s.len(), |i: int| interp_at(s, i))
}

pub open spec fn sparse_wf(s: Seq<Option<Rgba>>) -> bool {
    forall|i: int| 0 <= i < s.len() && (#[trigger] s[i]) is Some ==> s[i]->0.wf()
}

proof fn lemma_prev_stop(s: Seq<Option<Rgba>>, i: int)
    ensures
        prev_stop(s, i) matches Some(p) ==> p <= i && 0 <= p < s.len() && s[p] is Some,
    decreases i + 1,
{
    if i >= 0 && !(i < s.len() && s[i] is Some) {
        lemma_prev_stop(s, i - 1);
    }
}

proof fn lemma_next_stop(s: Seq<Option<Rgba>>, i: int)
    ensures
        next_stop(s, i) matches Some(q) ==> i <= q && 0 <= q < s.len() && s[q] is Some,
    decreases s.len() - i,
{
    if i < s.len() && !(i >= 0 && s[i] is Some) {
        lemma_next_stop(s, i + 1);
    }
}

proof fn lemma_lerp_between(a: int, b: int, p: int, q: int, i: int, lo: int, hi: int)
    requires
        p <= i <= q,
        p < q,
        lo <= a <= hi,
        lo <= b <= hi,
    ensures
        lo <= lerp(a, b, p, q, i) <= hi,
{
    let d = q - p;
    assert(lo * d <= a * (q - i) + b * (i - p) <= hi * d) by (nonlinear_arith)
        requires
            p <= i <= q,
            d == q - p,
            lo <= a <= hi,
            lo <= b <= hi,
    ;
    assert(lo * d / d == lo) by (nonlinear_arith) requires d > 0;
    assert(hi * d / d == hi) by (nonlinear_arith) requires d > 0;
    vstd::arithmetic::div_mod::lemma_div_is_ordered(lo * d, a * (q - i) + b * (i - p), d);
    vstd::arithmetic::div_mod::lemma_div_is_ordered(a * (q - i) + b * (i - p), hi * d, d);
}

/// One channel on the line from `a` at `p` to `b` at `q`.
fn lerp_channel(a: i32, b: i32, p: usize, q: usize, i: usize) -> (r: i32)
    requires
        p <= i <= q,
        p < q,
        q <= i32::MAX,
        0 <= a <= 255,
        0 <= b <= 255,
    ensures
        r == lerp(a as int, b as int, p as int, q as int, i as int),
        0 <= r <= 255,
{
    proof {
        lemma_lerp_between(a as int, b as int, p as int, q as int, i as int, 0, 255);
    }
    let a64 = a as i64;
    let b64 = b as i64;
    let x: i64 = (q - i) as i64;
    let y: i64 = (i - p) as i64;
    assert(0 <= a64 * x <= 255 * 0x7fff_ffff) by (nonlinear_arith)
        requires 0 <= a64 <= 255, 0 <= x <= 0x7fff_ffff;
    assert(0 <= b64 * y <= 255 * 0x7fff_ffff) by (nonlinear_arith)
        requires 0 <= b64 <= 255, 0 <= y <= 0x7fff_ffff;
    let num: i64 = a64 * x + b64 * y;
    (num / ((q - p) as i64)) as i32
}

fn lerp_value(a: Rgba, b: Rgba, p: usize, q: usize, i: usize) -> (r: Rgba)
    requires
        p <= i <= q,
        p < q,
        q <= i32::MAX,
        a.wf(),
        b.wf(),
    ensures
        r == lerp_rgba(a, b, p as int, q as int, i as int),
        r.wf(),
{
    Rgba {
        r: lerp_channel(a.r, b.r, p, q, i),
        g: lerp_channel(a.g, b.g, p, q, i),
        b: lerp_channel(a.b, b.b, p, q, i),
        a: lerp_channel(a.a, b.a, p, q, i),
    }
}

pub open spec fn same_stop(o: Option<usize>, s: Option<int>) -> bool {
    match o {
        Some(x) => s == Some(x as int),
        None => s is None,
    }
}

/// Fills in every slot of a partly set LED strip: between two set slots the
/// colour and alpha go linearly along the strip; before the first and after
/// the last set slot they repeat it.
pub fn interpolate_gradient(s: &Vec<Option<Rgba>>) -> (r: Vec<Rgba>)
    requires
        s@.len() <= i32::MAX,
        sparse_wf(s@),
    ensures
        r@ == interpolate(s@),
        forall|i: int| 0 <= i < r@.len() ==> (#[trigger] r@[i]).wf(),
{
    let n = s.len();
    // nearest set slot at or after each slot
    let mut nexts: Vec<Option<usize>> = Vec::new();
    let mut k: usize = 0;
    while k < n
        invariant
            k <= n,
            nexts@.len() == k,
        decreases n - k,
    {
        nexts.push(None);
        k = k + 1;
    }
    let mut cur: Option<usize> = None;
    let mut j: usize = n;
    while j > 0
        invariant
            j <= n,
            n == s@.len(),
            nexts@.len() == n,
            same_stop(cur, next_stop(s@, j as int)),
            forall|t: int| j <= t < n ==> same_stop(#[trigger] nexts@[t], next_stop(s@, t)),
        decreases j,
    {
        j = j - 1;
        if s[j].is_some() {
            cur = Some(j);
        }
        nexts.set(j, cur);
    }
    let mut out: Vec<Rgba> = Vec::new();
    let mut prev: Option<usize> = None;
    let mut i: usize = 0;
    while i < n
        invariant
            i <= n,
            n == s@.len(),
            n <= i32::MAX,
            sparse_wf(s@),
            nexts@.len() == n,
            forall|t: int| 0 <= t < n ==> same_stop(#[trigger] nexts@[t], next_stop(s@, t)),
            same_stop(prev, prev_stop(s@, i - 1)),
            out@.len() == i,
            forall|t: int| 0 <= t < i ==> (#[trigger] out@[t]) == interp_at(s@, t),
            forall|t: int| 0 <= t < i ==> (#[trigger] out@[t]).wf(),
        decreases n - i,
    {
        if s[i].is_some() {
            prev = Some(i);
        }
        let nx = nexts[i];
        proof {
            lemma_prev_stop(s@, i as int);
            lemma_next_stop(s@, i as int);
        }
        let v = match (prev, nx) {
            (Some(p), Some(q)) => {
                if p == q {
                    s[p].unwrap()
                } else {
                    lerp_value(s[p].unwrap(), s[q].unwrap(), p, q, i)
                }
            },
            (Some(p), None) => s[p].unwrap(),
            (None, Some(q)) => s[q].unwrap(),
            (None, None) => Rgba { r: 0, g: 0, b: 0, a: 0 },
        };
        out.push(v);
        i = i + 1;
    }
    assert(out@ =~= interpolate(s@));
    out
}

proof fn lemma_prev_single(s: Seq<Option<Rgba>>, k: int, i: int)
    requires
        0 <= k < s.len(),
        i < s.len(),
        forall|t: int| 0 <= t < s.len() ==> ((#[trigger] s[t]) is Some <==> t == k),
    ensures
        prev_stop(s, i) == (if i >= k { Some(k) } else { None::<int> }),
    decreases i + 1,
{
    if i >= 0 && i != k {
        lemma_prev_single(s, k, i - 1);
    }
}

proof fn lemma_next_single(s: Seq<Option<Rgba>>, k: int, i: int)
    requires
        0 <= k < s.len(),
        0 <= i,
        forall|t: int| 0 <= t < s.len() ==> ((#[trigger] s[t]) is Some <==> t == k),
    ensures
        next_stop(s, i) == (if i <= k { Some(k) } else { None::<int> }),
    decreases s.len() - i,
{
    if i < s.len() && i != k {
        lemma_next_single(s, k, i + 1);
    }
}

/// A strip with exactly one set slot takes that slot's value everywhere.
pub proof fn lemma_single_stop(s: Seq<Option<Rgba>>, k: int)
    requires
        0 <= k < s.len(),
        forall|t: int| 0 <= t < s.len() ==> ((#[trigger] s[t]) is Some <==> t == k),
    ensures
        interpolate(s).len() == s.len(),
        forall|i: int| 0 <= i < s.len() ==> #[trigger] interpolate(s)[i] == s[k]->0,
{
    assert forall|i: int| 0 <= i < s.len() implies #[trigger] interpolate(s)[i] == s[k]->0 by {
        lemma_prev_single(s, k, i);
        lemma_next_single(s, k, i);
    }
}

/// `u` then `v` move from `x` towards `y`: up when `y` is not below `x`,
/// down when it is not above.
pub open spec fn ramps(x: i32, y: i32, u: i32, v: i32) -> bool {
    &&& x <= y ==> u <= v
    &&& x >= y ==> u >= v
}

proof fn lemma_lerp_monotone(a: int, b: int, d: int, i: int, j: int)
    requires
        0 <= i <= j <= d,
        0 < d,
    ensures
        a <= b ==> lerp(a, b, 0, d, i) <= lerp(a, b, 0, d, j),
        a >= b ==> lerp(a, b, 0, d, i) >= lerp(a, b, 0, d, j),
{
    let ni = a * (d - i) + b * (i - 0);
    let nj = a * (d - j) + b * (j - 0);
    assert(nj - ni == (b - a) * (j - i)) by (nonlinear_arith)
        requires
            ni == a * (d - i) + b * (i - 0),
            nj == a * (d - j) + b * (j - 0),
    ;
    if a <= b {
        assert((b - a) * (j - i) >= 0) by (nonlinear_arith) requires a <= b, i <= j;
        vstd::arithmetic::div_mod::lemma_div_is_ordered(ni, nj, d);
    }
    if a >= b {
        assert((b - a) * (j - i) <= 0) by (nonlinear_arith) requires a >= b, i <= j;
        vstd::arithmetic::div_mod::lemma_div_is_ordered(nj, ni, d);
    }
}

proof fn lemma_lerp_ends(a: int, b: int, d: int)
    requires
        0 < d,
    ensures
        lerp(a, b, 0, d, 0) == a,
        lerp(a, b, 0, d, d) == b,
{
    assert((a * (d - 0) + b * (0 - 0)) / (d - 0) == a) by (nonlinear_arith) requires 0 < d;
    assert((a * (d - d) + b * (d - 0)) / (d - 0) == b) by (nonlinear_arith) requires 0 < d;
}

/// A strip set only at its two ends is a linear ramp between them, each
/// channel moving monotonically from the first end towards the second.
pub proof fn lemma_two_stop_ramp(s: Seq<Option<Rgba>>, a: Rgba, b: Rgba)
    requires
        s.len() >= 2,
        a.wf(),
        b.wf(),
        s[0] == Some(a),
        s[s.len() - 1] == Some(b),
        forall|t: int| 0 < t < s.len() - 1 ==> (#[trigger] s[t]) is None,
    ensures
        interpolate(s).len() == s.len(),
        forall|i: int| 0 <= i < s.len() ==> #[trigger] interpolate(s)[i] == lerp_rgba(a, b, 0, s.len() - 1, i),
        forall|i: int, j: int|
            0 <= i <= j < s.len() ==> {
                let u = #[trigger] interpolate(s)[i];
                let v = #[trigger] interpolate(s)[j];
                &&& ramps(a.r, b.r, u.r, v.r)
                &&& ramps(a.g, b.g, u.g, v.g)
                &&& ramps(a.b, b.b, u.b, v.b)
                &&& ramps(a.a, b.a, u.a, v.a)
            },
{
    let n = s.len() as int;
    let d = n - 1;
    lemma_lerp_ends(a.r as int, b.r as int, d);
    lemma_lerp_ends(a.g as int, b.g as int, d);
    lemma_lerp_ends(a.b as int, b.b as int, d);
    lemma_lerp_ends(a.a as int, b.a as int, d);
    assert forall|i: int| 0 <= i < n implies #[trigger] interpolate(s)[i] == lerp_rgba(a, b, 0, d, i) by {
        if i == 0 {
            assert(prev_stop(s, 0) == Some(0int));
            assert(next_stop(s, 0) == Some(0int));
        } else if i == d {
            assert(prev_stop(s, d) == Some(d));
            assert(next_stop(s, d) == Some(d));
        } else {
            lemma_prev_ends(s, i);
            lemma_next_ends(s, i);
        }
    }
    assert forall|i: int, j: int| 0 <= i <= j < n implies {
        let u = #[trigger] interpolate(s)[i];
        let v = #[trigger] interpolate(s)[j];
        &&& ramps(a.r, b.r, u.r, v.r)
        &&& ramps(a.g, b.g, u.g, v.g)
        &&& ramps(a.b, b.b, u.b, v.b)
        &&& ramps(a.a, b.a, u.a, v.a)
    } by {
        lemma_lerp_monotone(a.r as int, b.r as int, d, i, j);
        lemma_lerp_monotone(a.g as int, b.g as int, d, i, j);
        lemma_lerp_monotone(a.b as int, b.b as int, d, i, j);
        lemma_lerp_monotone(a.a as int, b.a as int, d, i, j);
        lemma_lerp_between(a.r as int, b.r as int, 0, d, i, 0, 255);
        lemma_lerp_between(a.g as int, b.g as int, 0, d, i, 0, 255);
        lemma_lerp_between(a.b as int, b.b as int, 0, d, i, 0, 255);
        lemma_lerp_between(a.a as int, b.a as int, 0, d, i, 0, 255);
        lemma_lerp_between(a.r as int, b.r as int, 0, d, j, 0, 255);
        lemma_lerp_between(a.g as int, b.g as int, 0, d, j, 0, 255);
        lemma_lerp_between(a.b as int, b.b as int, 0, d, j, 0, 255);
        lemma_lerp_between(a.a as int, b.a as int, 0, d, j, 0, 255);
    }
}

proof fn lemma_prev_ends(s: Seq<Option<Rgba>>, i: int)
    requires
        s.len() >= 2,
        s[0] is Some,
        0 <= i < s.len() - 1,
        forall|t: int| 0 < t < s.len() - 1 ==> (#[trigger] s[t]) is None,
    ensures
        prev_stop(s, i) == Some(0int),
    decreases i,
{
    if i > 0 {
        lemma_prev_ends(s, i - 1);
    }
}

proof fn lemma_next_ends(s: Seq<Option<Rgba>>, i: int)
    requires
        s.len() >= 2,
        s[s.len() - 1] is Some,
        0 < i < s.len(),
        forall|t: int| 0 < t < s.len() - 1 ==> (#[trigger] s[t]) is None,
    ensures
        next_stop(s, i) == Some(s.len() - 1),
    decreases s.len() - i,
{
    if i < s.len() - 1 {
        lemma_next_ends(s, i + 1);
    }
}

} // verus!
