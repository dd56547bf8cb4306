//! The spiral renderer's document assembly: one SVG circle element per
//! spiral point, between a fixed prolog and a fixed filter epilog.
//!
//! A point's coordinates and opacity arrive pre-rendered as text and its
//! brightness as an integer: their floating-point evaluation cannot live in
//! the verified core, which holds no floats, so callers evaluate the
//! geometry and hand the plain values in.

use vstd::prelude::*;

use crate::fmt::{dec_digits, push_dec_digits};

verus! {

/// One plotted point of the spiral: rendered coordinates, the green channel
/// of its fill, and its rendered opacity.
pub struct SpiralPoint {
    pub cx: String,
    pub cy: String,
    pub green: u8,
    pub opacity: String,
}

/// The circle element printed for one point.
pub open spec fn circle_elem(p: SpiralPoint) -> Seq<char> {
    "<circle cx='"@ + p.cx@ + "' cy='"@ + p.cy@ + "' r='0.008' fill='rgb(255,"@ + dec_digits(
        p.green as nat,
    ) + ",20)' stroke='#ffaa00' stroke-width='0.002' opacity='"@ + p.opacity@ + "'/>"@
}

/// The circle elements of the first `k` points, in order.
pub open spec fn circle_elems(ps: Seq<SpiralPoint>, k: int) -> Seq<char>
    decreases k,
{
    if k <= 0 {
        Seq::<char>::empty()
    } else {
        circle_elems(ps, k - 1) + circle_elem(ps[k - 1])
    }
}

/// The fixed opening of the document.
pub open spec fn spiral_prolog() -> Seq<char> {
    "<svg viewBox='-2 -2 4 4' style='background:black;'>"@
}

/// The fixed glow filter that closes the document.
pub open spec fn spiral_epilog() -> Seq<char> {
    "<filter id='g'><feGaussianBlur stdDeviation='0.01'/><feMerge><feMergeNode/><feMergeNode in='SourceGraphic'/></feMerge></filter></svg>"@
}

/// Appends the circle element of one point.
#[verifier::rlimit(60)]
fn push_circle(s: &mut String, p: &SpiralPoint)
    ensures
        final(s)@ == old(s)@ + circle_elem(*p),
{
    s.append("<circle cx='");
    s.append(p.cx.as_str());
    s.append("' cy='");
    s.append(p.cy.as_str());
    s.append("' r='0.008' fill='rgb(255,");
    push_dec_digits(s, p.green as u64);
    s.append(",20)' stroke='#ffaa00' stroke-width='0.002' opacity='");
    s.append(p.opacity.as_str());
    s.append("'/>");
    proof {
        assert(s@ =~= old(s)@ + circle_elem(*p));
    }
}

/// Builds the spiral SVG document over the given points: the prolog, one
/// circle element per point in order, and the filter epilog.
pub fn phi_spiral(points: &Vec<SpiralPoint>) -> (s: String)
    ensures
        s@ == spiral_prolog() + circle_elems(points@, points@.len() as int) + spiral_epilog(),
{
    let mut s = String::from_str("<svg viewBox='-2 -2 4 4' style='background:black;'>");
    assert(s@ =~= spiral_prolog() + circle_elems(points@, 0));
    let mut i: usize = 0;
    while i < points.len()
        invariant
            i <= points@.len(),
            s@ == spiral_prolog() + circle_elems(points@, i as int),
        decreases points@.len() - i,
    {
        push_circle(&mut s, &points[i]);
        assert(s@ =~= spiral_prolog() + circle_elems(points@, i + 1 as int));
        i = i + 1;
    }
    s.append(
        "<filter id='g'><feGaussianBlur stdDeviation='0.01'/><feMerge><feMergeNode/><feMergeNode in='SourceGraphic'/></feMerge></filter></svg>",
    );
    proof {
        assert(s@ =~= spiral_prolog() + circle_elems(points@, points@.len() as int)
            + spiral_epilog());
    }
    s
}

} // verus!
