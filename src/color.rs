//! Alpha compositing of a colour.
use vstd::prelude::*;
use crate::types::{Color, Rgba, MAX_ALPHA};

verus! {

/// One channel scaled by `alpha / MAX_ALPHA`, truncated.
pub open spec fn scale(c: i32, alpha: i32) -> i32 {
    (c * alpha / (MAX_ALPHA as int)) as i32
}

/// The colour shown for a colour dimmed by its alpha.
pub open spec fn composite(c: Rgba) -> Color {
    Color { r: scale(c.r, c.a), g: scale(c.g, c.a), b: scale(c.b, c.a) }
}

proof fn lemma_scale_bounds(c: i32, alpha: i32)
    requires
        0 <= c <= 255,
        0 <= alpha <= MAX_ALPHA,
    ensures
        0 <= c * alpha / (MAX_ALPHA as int) <= c,
{
    assert(0 <= c * alpha <= c * 255) by (nonlinear_arith)
        requires 0 <= c <= 255, 0 <= alpha <= 255;
    assert(c * alpha / 255 <= c * 255 / 255) by (nonlinear_arith)
        requires 0 <= c * alpha <= c * 255;
    assert(c * 255 / 255 == c) by (nonlinear_arith);
}

/// Dims a colour by its alpha: each channel is scaled by `a / MAX_ALPHA`.
pub fn alpha(c: &Rgba) -> (r: Color)
    requires
        c.wf(),
    ensures
        r == composite(*c),
        r.wf(),
{
    proof {
        lemma_scale_bounds(c.r, c.a);
        lemma_scale_bounds(c.g, c.a);
        lemma_scale_bounds(c.b, c.a);
    }
    Color { r: c.r * c.a / MAX_ALPHA, g: c.g * c.a / MAX_ALPHA, b: c.b * c.a / MAX_ALPHA }
}

/// Compositing at the extremes: no opacity gives black, full opacity keeps the
/// colour as it is.
pub proof fn lemma_alpha_extremes(c: Rgba)
    requires
        c.wf(),
    ensures
        c.a == 0 ==> composite(c) == Color::black(),
        c.a == MAX_ALPHA ==> composite(c) == (Color { r: c.r, g: c.g, b: c.b }),
{
    assert(c.r * 0 / 255 == 0 && c.g * 0 / 255 == 0 && c.b * 0 / 255 == 0);
    assert(c.r * 255 / 255 == c.r) by (nonlinear_arith);
    assert(c.g * 255 / 255 == c.g) by (nonlinear_arith);
    assert(c.b * 255 / 255 == c.b) by (nonlinear_arith);
}

} // verus!
