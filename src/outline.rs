//! The smoothed outline drawn around the ring.
use crate::fixed::Vec2;
use crate::point::vec_of;
use crate::soft_body::{next_index, ring_wf};
use vstd::prelude::*;

verus! {

/// The point `q / 4` of the way from `a` to `b`, rounded down.
pub open spec fn quarter_point(a: int, b: int, q: int) -> int {
    a + ((b - a) * q) / 4
}

/// One pass of Chaikin corner cutting over a closed ring: each edge `(a, b)`
/// gives the points a quarter and three quarters of the way along it. Rings
/// under three points are returned unchanged.
pub open spec fn chaikin(ps: Seq<Vec2>) -> Seq<Vec2> {
    let n = ps.len() as int;
    if n < 3 {
        ps
    } else {
        Seq::new(
            (2 * n) as nat,
            |k: int|
                {
                    let a = ps[k / 2];
                    let b = ps[next_index(n, k / 2)];
                    let q = if k % 2 == 0 {
                        1int
                    } else {
                        3int
                    };
                    vec_of(quarter_point(a.x as int, b.x as int, q), quarter_point(a.y as int, b.y as int, q))
                },
        )
    }
}

/// The outline to draw: the smoothed ring, closed by repeating its first point.
pub open spec fn closed_outline(ps: Seq<Vec2>) -> Seq<Vec2> {
    let s = chaikin(ps);
    if s.len() == 0 {
        s
    } else {
        s.push(s[0])
    }
}

proof fn lemma_quarter_between(a: int, b: int, q: int)
    requires
        0 <= q <= 4,
    ensures
        a <= b ==> a <= quarter_point(a, b, q) <= b,
        b < a ==> b <= quarter_point(a, b, q) <= a,
{
    let d = b - a;
    if d >= 0 {
        assert(0 <= (d * q) / 4 <= d) by (nonlinear_arith)
            requires
                d >= 0,
                0 <= q <= 4,
        ;
    } else {
        assert(d <= (d * q) / 4 <= 0) by (nonlinear_arith)
            requires
                d < 0,
                0 <= q <= 4,
        ;
    }
}

fn quarter_exec(a: i64, b: i64, q: i64) -> (r: i64)
    requires
        crate::fixed::in_range(a as int),
        crate::fixed::in_range(b as int),
        q == 1 || q == 3,
    ensures
        r == quarter_point(a as int, b as int, q as int),
        crate::fixed::in_range(r as int),
{
    proof {
        lemma_quarter_between(a as int, b as int, q as int);
    }
    let d = (b as i128 - a as i128) * q as i128;
    (a as i128 + crate::fixed::floor_div(d, 4)) as i64
}

/// One pass of Chaikin corner cutting over the closed ring `input`, written to `out`.
pub fn chaikin_closed_once(input: &[Vec2], out: &mut Vec<Vec2>)
    requires
        input.len() <= 0x1000_0000,
        ring_wf(input@),
    ensures
        final(out)@ == chaikin(input@),
        ring_wf(final(out)@),
{
    out.clear();
    let n = input.len();
    if n < 3 {
        let mut i: usize = 0;
        while i < n
            invariant
                n == input.len(),
                i <= n,
                out@ == input@.subrange(0, i as int),
            decreases n - i,
        {
            out.push(input[i]);
            i = i + 1;
            assert(out@ =~= input@.subrange(0, i as int));
        }
        assert(out@ =~= input@);
        return;
    }
    let mut i: usize = 0;
    while i < n
        invariant
            n == input.len(),
            3 <= n <= 0x1000_0000,
            ring_wf(input@),
            i <= n,
            out.len() == 2 * i,
            forall|k: int| 0 <= k < 2 * i ==> #[trigger] out@[k] == chaikin(input@)[k],
            ring_wf(out@),
        decreases n - i,
    {
        let j = if i + 1 == n {
            0
        } else {
            i + 1
        };
        let a = input[i];
        let b = input[j];
        assert(a.wf() && b.wf());
        out.push(Vec2 { x: quarter_exec(a.x, b.x, 1), y: quarter_exec(a.y, b.y, 1) });
        out.push(Vec2 { x: quarter_exec(a.x, b.x, 3), y: quarter_exec(a.y, b.y, 3) });
        assert((2 * i) / 2 == i && (2 * i) % 2 == 0);
        assert((2 * i + 1) / 2 == i && (2 * i + 1) % 2 == 1);
        i = i + 1;
    }
    assert(out@ =~= chaikin(input@));
}

/// The vertices of the outline to draw: the smoothed ring, closed by repeating
/// its first point.
pub fn outline_vertices(ring: &[Vec2]) -> (v: Vec<Vec2>)
    requires
        ring.len() <= 0x1000_0000,
        ring_wf(ring@),
    ensures
        v@ == closed_outline(ring@),
{
    let mut smooth: Vec<Vec2> = Vec::new();
    chaikin_closed_once(ring, &mut smooth);
    if smooth.len() > 0 {
        let first = smooth[0];
        smooth.push(first);
    }
    smooth
}

/// Smoothing doubles a ring of three or more points and leaves a shorter one as
/// it is.
pub proof fn lemma_chaikin_length(ps: Seq<Vec2>)
    ensures
        ps.len() >= 3 ==> chaikin(ps).len() == 2 * ps.len(),
        ps.len() < 3 ==> chaikin(ps) == ps,
{
}

} // verus!
