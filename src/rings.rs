use vstd::prelude::*;

use crate::geometry::{Line, Point};

verus! {

/// The segments between consecutive points of a ring given closed (its last
/// point repeats its first).
pub open spec fn ring_lines_spec(ring: Seq<Point>) -> Seq<Line> {
    Seq::new(
        if ring.len() == 0 {
            0
        } else {
            (ring.len() - 1) as nat
        },
        |i: int| Line { start: ring[i], end: ring[i + 1] },
    )
}

/// The segments of all rings, ring after ring.
pub open spec fn rings_lines_spec(rings: Seq<Vec<Point>>) -> Seq<Line>
    decreases rings.len(),
{
    if rings.len() == 0 {
        Seq::empty()
    } else {
        rings_lines_spec(rings.drop_last()) + ring_lines_spec(rings.last()@)
    }
}

/// Appends the segments of one closed ring to `out`.
pub fn push_ring_lines(ring: &Vec<Point>, out: &mut Vec<Line>)
    ensures
        final(out)@ == old(out)@ + ring_lines_spec(ring@),
{
    let ghost start = out@;
    if ring.len() == 0 {
        assert(ring_lines_spec(ring@) =~= Seq::<Line>::empty());
        assert(out@ =~= start + ring_lines_spec(ring@));
        return;
    }
    let mut i: usize = 1;
    assert(ring_lines_spec(ring@.subrange(0, 1)) =~= Seq::<Line>::empty());
    assert(out@ =~= start + ring_lines_spec(ring@.subrange(0, 1)));
    while i < ring.len()
        invariant
            1 <= i <= ring@.len(),
            out@ == start + ring_lines_spec(ring@.subrange(0, i as int)),
        decreases ring@.len() - i,
    {
        let ghost before = out@;
        out.push(Line::new(ring[i - 1], ring[i]));
        proof {
            let prev = ring_lines_spec(ring@.subrange(0, i as int));
            let next = ring_lines_spec(ring@.subrange(0, i as int + 1));
            assert(next =~= prev.push(Line { start: ring@[i - 1], end: ring@[i as int] }));
            assert(out@ =~= start + next);
        }
        i = i + 1;
    }
    assert(ring@.subrange(0, i as int) =~= ring@);
}

/// The segments of every closed ring (exterior and interior rings of
/// polygons alike), in ring order.
pub fn rings_lines(rings: &Vec<Vec<Point>>) -> (r: Vec<Line>)
    ensures
        r@ == rings_lines_spec(rings@),
{
    let mut out: Vec<Line> = Vec::new();
    let mut k: usize = 0;
    while k < rings.len()
        invariant
            0 <= k <= rings@.len(),
            out@ == rings_lines_spec(rings@.subrange(0, k as int)),
        decreases rings@.len() - k,
    {
        push_ring_lines(&rings[k], &mut out);
        proof {
            let next = rings@.subrange(0, k as int + 1);
            assert(next.drop_last() =~= rings@.subrange(0, k as int));
        }
        k = k + 1;
    }
    assert(rings@.subrange(0, rings@.len() as int) =~= rings@);
    out
}

} // verus!
