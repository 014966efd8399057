use vstd::prelude::*;

verus! {

/// Which vertex of a contour of `n` vertices stands at place `i` once the contour has been
/// put in counter-clockwise order: reversed if it was clockwise.
pub open spec fn wound(n: int, reversed: bool, i: int) -> int {
    if reversed {
        n - 1 - i
    } else {
        i
    }
}

/// Fan triangulation of a contour of `n` vertices, anchored at its first vertex after the
/// winding fix (`reversed` when the contour's signed area is negative): triangle `t` joins
/// the anchor to the vertices at places `t + 1` and `t + 2`. Indices are into the contour as
/// given.
pub fn fan(n: usize, reversed: bool) -> (r: Vec<[usize; 3]>)
    ensures
        r@.len() == if n >= 3 {
            n - 2
        } else {
            0
        },
        forall|t: int| #![trigger r@[t]] 0 <= t < r@.len() ==> {
            &&& r@[t][0] == wound(n as int, reversed, 0)
            &&& r@[t][1] == wound(n as int, reversed, t + 1)
            &&& r@[t][2] == wound(n as int, reversed, t + 2)
        },
{
    let mut r: Vec<[usize; 3]> = Vec::new();
    if n < 3 {
        return r;
    }
    let anchor = if reversed { n - 1 } else { 0 };
    let mut t: usize = 0;
    while t + 2 < n
        invariant
            n >= 3,
            t + 2 <= n,
            r@.len() == t,
            anchor == wound(n as int, reversed, 0),
            forall|s: int| #![trigger r@[s]] 0 <= s < t ==> {
                &&& r@[s][0] == wound(n as int, reversed, 0)
                &&& r@[s][1] == wound(n as int, reversed, s + 1)
                &&& r@[s][2] == wound(n as int, reversed, s + 2)
            },
        decreases n - t,
    {
        let b = if reversed { n - 2 - t } else { t + 1 };
        let c = if reversed { n - 3 - t } else { t + 2 };
        r.push([anchor, b, c]);
        t = t + 1;
    }
    r
}

} // verus!
