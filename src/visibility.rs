use vstd::prelude::*;

use crate::angle_comparator::{
    angle_less, lemma_angle_asymmetric, lemma_angle_irreflexive, lemma_angle_total,
    lemma_angle_transitive, AngleComparator,
};
use crate::comparable_line::{segment_cmp, sees_segment, ComparableLine};
use crate::geometry::{approx_equal, Line, Point, Vertex};
use crate::orientation::{lemma_orient_swap, orient_spec, vertex_orient_spec, Orientation};
use crate::ray::{
    lemma_between_on_segment, lemma_ray_hit_on_segment, on_segment, ray_hit, vertex_of, Ray,
};
use crate::visibility_event::{VisibilityEvent, VisibilityEventType};

verus! {

/// `e1` is handled before `e2`: by the sweep order of their points, and at
/// one point an end before a start.
pub open spec fn event_less(o: Point, e1: VisibilityEvent, e2: VisibilityEvent) -> bool {
    if e1.point_spec() == e2.point_spec() {
        e1.event_type == VisibilityEventType::EndVertex && e2.event_type
            == VisibilityEventType::StartVertex
    } else {
        angle_less(o@, e1.point_spec()@, e2.point_spec()@)
    }
}

/// `e` inserted into `s` behind every event it does not precede.
pub open spec fn insert_event(o: Point, s: Seq<VisibilityEvent>, e: VisibilityEvent) -> Seq<
    VisibilityEvent,
>
    decreases s.len(),
{
    if s.len() == 0 {
        seq![e]
    } else if event_less(o, e, s.last()) {
        insert_event(o, s.drop_last(), e).push(s.last())
    } else {
        s.push(e)
    }
}

/// The events in handling order; events that neither precedes keep their
/// input order.
pub open spec fn sorted_events(o: Point, s: Seq<VisibilityEvent>) -> Seq<VisibilityEvent>
    decreases s.len(),
{
    if s.len() == 0 {
        Seq::empty()
    } else {
        insert_event(o, sorted_events(o, s.drop_last()), s.last())
    }
}

/// No event of `s` is handled before an event that comes earlier in `s`.
pub open spec fn events_in_order(o: Point, s: Seq<VisibilityEvent>) -> bool {
    forall|i: int, j: int| 0 <= i < j < s.len() ==> !event_less(o, #[trigger] s[j], #[trigger] s[i])
}

/// No event happens at `o`.
pub open spec fn events_away_from(o: Point, s: Seq<VisibilityEvent>) -> bool {
    forall|i: int| 0 <= i < s.len() ==> (#[trigger] s[i]).point_spec() != o
}

proof fn lemma_event_asymmetric(o: Point, x: VisibilityEvent, y: VisibilityEvent)
    requires
        x.point_spec() != o,
        y.point_spec() != o,
        event_less(o, x, y),
    ensures
        !event_less(o, y, x),
{
    if x.point_spec() != y.point_spec() {
        lemma_angle_asymmetric(o@, x.point_spec()@, y.point_spec()@);
    }
}

/// When `x` precedes `z`, every `y` follows `x` or precedes `z`.
proof fn lemma_event_split(o: Point, x: VisibilityEvent, y: VisibilityEvent, z: VisibilityEvent)
    requires
        x.point_spec() != o,
        y.point_spec() != o,
        z.point_spec() != o,
        event_less(o, x, z),
    ensures
        event_less(o, x, y) || event_less(o, y, z),
{
    let (px, py, pz) = (x.point_spec(), y.point_spec(), z.point_spec());
    if px == pz {
        if py != px {
            lemma_angle_total(o@, px@, py@);
        }
    } else if py != px && py != pz {
        lemma_angle_total(o@, px@, py@);
        if angle_less(o@, py@, px@) {
            lemma_angle_transitive(o@, py@, px@, pz@);
        }
    }
}

proof fn lemma_insert_event_multiset(o: Point, s: Seq<VisibilityEvent>, e: VisibilityEvent)
    ensures
        insert_event(o, s, e).to_multiset() == s.to_multiset().insert(e),
    decreases s.len(),
{
    broadcast use vstd::seq_lib::group_to_multiset_ensures;

    if s.len() == 0 {
        assert(seq![e] =~= Seq::<VisibilityEvent>::empty().push(e));
    } else {
        assert(s.drop_last().push(s.last()) =~= s);
        if event_less(o, e, s.last()) {
            lemma_insert_event_multiset(o, s.drop_last(), e);
            assert(s.drop_last().to_multiset().insert(e).insert(s.last()) =~= s.drop_last().to_multiset().insert(
                s.last(),
            ).insert(e));
        }
    }
}

proof fn lemma_sorted_events_multiset(o: Point, s: Seq<VisibilityEvent>)
    ensures
        sorted_events(o, s).to_multiset() == s.to_multiset(),
    decreases s.len(),
{
    broadcast use vstd::seq_lib::group_to_multiset_ensures;

    if s.len() > 0 {
        lemma_sorted_events_multiset(o, s.drop_last());
        lemma_insert_event_multiset(o, sorted_events(o, s.drop_last()), s.last());
        assert(s.drop_last().push(s.last()) =~= s);
    }
}

proof fn lemma_member_of_multiset(s: Seq<VisibilityEvent>, t: Seq<VisibilityEvent>, i: int)
    requires
        s.to_multiset() == t.to_multiset(),
        0 <= i < s.len(),
    ensures
        exists|j: int| 0 <= j < t.len() && t[j] == s[i],
{
    broadcast use vstd::seq_lib::group_to_multiset_ensures;

    assert(s.contains(s[i]));
    assert(s.to_multiset().count(s[i]) > 0);
    assert(t.to_multiset().count(s[i]) > 0);
    assert(t.contains(s[i]));
}

proof fn lemma_insert_event_in_order(o: Point, s: Seq<VisibilityEvent>, e: VisibilityEvent)
    requires
        events_in_order(o, s),
        events_away_from(o, s),
        e.point_spec() != o,
    ensures
        events_in_order(o, insert_event(o, s, e)),
    decreases s.len(),
{
    if s.len() == 0 {
        assert(seq![e].len() == 1);
    } else {
        let last = s.last();
        let init = s.drop_last();
        assert(events_in_order(o, init)) by {
            assert forall|i: int, j: int| 0 <= i < j < init.len() implies !event_less(
                o,
                #[trigger] init[j],
                #[trigger] init[i],
            ) by {
                assert(init[i] == s[i] && init[j] == s[j]);
            }
        }
        assert(events_away_from(o, init)) by {
            assert forall|i: int| 0 <= i < init.len() implies (#[trigger] init[i]).point_spec() != o by {
                assert(init[i] == s[i]);
            }
        }
        assert(last == s[s.len() - 1]);
        if event_less(o, e, last) {
            lemma_insert_event_in_order(o, init, e);
            let r = insert_event(o, init, e);
            lemma_insert_event_multiset(o, init, e);
            let rp = r.push(last);
            assert forall|i: int, j: int| 0 <= i < j < rp.len() implies !event_less(
                o,
                #[trigger] rp[j],
                #[trigger] rp[i],
            ) by {
                if j < r.len() {
                    assert(rp[i] == r[i] && rp[j] == r[j]);
                } else {
                    assert(rp[i] == r[i]);
                    broadcast use vstd::seq_lib::group_to_multiset_ensures;

                    assert(r.contains(r[i]));
                    assert(r.to_multiset().count(r[i]) > 0);
                    if r[i] == e {
                        lemma_event_asymmetric(o, e, last);
                    } else {
                        assert(init.to_multiset().count(r[i]) > 0);
                        assert(init.contains(r[i]));
                        let k = choose|k: int| 0 <= k < init.len() && init[k] == r[i];
                        assert(s[k] == r[i]);
                        assert(!event_less(o, s[s.len() - 1], s[k]));
                    }
                }
            }
        } else {
            let rp = s.push(e);
            assert forall|i: int, j: int| 0 <= i < j < rp.len() implies !event_less(
                o,
                #[trigger] rp[j],
                #[trigger] rp[i],
            ) by {
                if j < s.len() {
                    assert(rp[i] == s[i] && rp[j] == s[j]);
                } else {
                    assert(rp[i] == s[i]);
                    assert(rp[j] == e);
                    if i < s.len() - 1 {
                        assert(!event_less(o, s[s.len() - 1], s[i]));
                        if event_less(o, e, s[i]) {
                            lemma_event_split(o, e, last, s[i]);
                        }
                    }
                }
            }
        }
    }
}

/// The handling order puts the events in order: none precedes an earlier one.
pub proof fn lemma_sorted_events_in_order(o: Point, s: Seq<VisibilityEvent>)
    requires
        events_away_from(o, s),
    ensures
        events_in_order(o, sorted_events(o, s)),
        sorted_events(o, s).to_multiset() == s.to_multiset(),
    decreases s.len(),
{
    lemma_sorted_events_multiset(o, s);
    if s.len() > 0 {
        let init = s.drop_last();
        assert(events_away_from(o, init)) by {
            assert forall|i: int| 0 <= i < init.len() implies (#[trigger] init[i]).point_spec() != o by {
                assert(init[i] == s[i]);
            }
        }
        lemma_sorted_events_in_order(o, init);
        let sorted = sorted_events(o, init);
        assert(events_away_from(o, sorted)) by {
            assert forall|i: int| 0 <= i < sorted.len() implies (#[trigger] sorted[i]).point_spec()
                != o by {
                lemma_member_of_multiset(sorted, init, i);
            }
        }
        assert(s.last() == s[s.len() - 1]);
        lemma_insert_event_in_order(o, sorted, s.last());
    }
}

pub open spec fn events_in_range(events: Seq<VisibilityEvent>) -> bool {
    forall|i: int| 0 <= i < events.len() ==> (#[trigger] events[i]).segment.in_range()
}

fn event_precedes(comparator: &AngleComparator, e1: &VisibilityEvent, e2: &VisibilityEvent) -> (r:
    bool)
    requires
        comparator.origin.in_range(),
        e1.segment.in_range(),
        e2.segment.in_range(),
    ensures
        r == event_less(comparator.origin, *e1, *e2),
{
    let p1 = e1.point();
    let p2 = e2.point();
    if approx_equal(&p1, &p2) {
        e1.event_type == VisibilityEventType::EndVertex && e2.event_type
            == VisibilityEventType::StartVertex
    } else {
        match comparator.cmp(&p1, &p2) {
            std::cmp::Ordering::Less => true,
            _ => false,
        }
    }
}

proof fn lemma_insert_split(o: Point, pre: Seq<VisibilityEvent>, e: VisibilityEvent, j: int)
    requires
        0 < j <= pre.len(),
        event_less(o, e, pre[j - 1]),
    ensures
        insert_event(o, pre.subrange(0, j), e) == insert_event(o, pre.subrange(0, j - 1), e).push(
            pre[j - 1],
        ),
{
    let s = pre.subrange(0, j);
    assert(s.drop_last() == pre.subrange(0, j - 1));
}

/// Sorts the events into handling order (stable insertion sort).
pub fn sort_events_by_angle(origin: &Point, events: &mut Vec<VisibilityEvent>)
    requires
        origin.in_range(),
        events_in_range(old(events)@),
    ensures
        final(events)@ == sorted_events(*origin, old(events)@),
        final(events)@.to_multiset() == old(events)@.to_multiset(),
        events_away_from(*origin, old(events)@) ==> events_in_order(*origin, final(events)@),
{
    let comparator = AngleComparator { origin: *origin };
    let ghost input = events@;
    let n = events.len();
    let mut i: usize = 0;
    while i < n
        invariant
            n == input.len(),
            events@.len() == n,
            0 <= i <= n,
            comparator.origin == *origin,
            origin.in_range(),
            events_in_range(input),
            events_in_range(events@),
            events@.subrange(0, i as int) == sorted_events(*origin, input.subrange(0, i as int)),
            events@.subrange(i as int, n as int) == input.subrange(i as int, n as int),
        decreases n - i,
    {
        let ghost pre = events@.subrange(0, i as int);
        let ghost e = input[i as int];
        assert(events@[i as int] == input.subrange(i as int, n as int)[0]);
        assert(events@.subrange(i as int + 1, n as int) =~= input.subrange(i as int + 1, n as int))
            by {
            assert forall|k: int| i as int + 1 <= k < n as int implies events@[k] == input[k] by {
                assert(events@.subrange(i as int, n as int)[k - i as int] == events@[k]);
            }
        }
        let mut j: usize = i;
        proof {
            assert(pre.subrange(0, j as int) == pre);
            assert(pre.subrange(j as int, i as int) =~= Seq::<VisibilityEvent>::empty());
        }
        while j > 0 && event_precedes(&comparator, &events[j], &events[j - 1])
            invariant
                n == input.len(),
                events@.len() == n,
                0 <= j <= i < n,
                comparator.origin == *origin,
                origin.in_range(),
                events_in_range(input),
                events_in_range(events@),
                pre.len() == i,
                events@[j as int] == e,
                events@.subrange(0, j as int) == pre.subrange(0, j as int),
                events@.subrange(j as int + 1, i as int + 1) == pre.subrange(j as int, i as int),
                events@.subrange(i as int + 1, n as int) == input.subrange(i as int + 1, n as int),
                insert_event(*origin, pre, e) == insert_event(
                    *origin,
                    pre.subrange(0, j as int),
                    e,
                ) + pre.subrange(j as int, i as int),
            decreases j,
        {
            let ghost before = events@;
            let prev = events[j - 1];
            let cur = events[j];
            events.set(j - 1, cur);
            events.set(j, prev);
            proof {
                let jj = j as int;
                assert(before.subrange(0, jj)[jj - 1] == before[jj - 1]);
                assert(pre[jj - 1] == before[jj - 1]);
                lemma_insert_split(*origin, pre, e, jj);
                assert(events@.subrange(0, jj - 1) =~= pre.subrange(0, jj - 1)) by {
                    assert forall|k: int| 0 <= k < jj - 1 implies events@[k] == pre[k] by {
                        assert(before.subrange(0, jj)[k] == before[k]);
                    }
                }
                assert(events@.subrange(jj, i as int + 1) =~= pre.subrange(jj - 1, i as int)) by {
                    assert forall|k: int| jj < k < i as int + 1 implies events@[k] == pre[k - 1] by {
                        assert(before.subrange(jj + 1, i as int + 1)[k - jj - 1] == before[k]);
                        assert(pre.subrange(jj, i as int)[k - jj - 1] == pre[k - 1]);
                    }
                }
                assert(events@.subrange(i as int + 1, n as int) =~= before.subrange(
                    i as int + 1,
                    n as int,
                ));
                assert(insert_event(*origin, pre.subrange(0, jj - 1), e).push(pre[jj - 1])
                    + pre.subrange(jj, i as int) =~= insert_event(
                    *origin,
                    pre.subrange(0, jj - 1),
                    e,
                ) + pre.subrange(jj - 1, i as int));
            }
            j = j - 1;
        }
        proof {
            let jj = j as int;
            let ii = i as int;
            if jj > 0 {
                assert(events@.subrange(0, jj)[jj - 1] == events@[jj - 1]);
                assert(pre.subrange(0, jj).drop_last() == pre.subrange(0, jj - 1));
            }
            assert(insert_event(*origin, pre.subrange(0, jj), e) == pre.subrange(0, jj).push(e));
            assert(events@.subrange(0, ii + 1) =~= pre.subrange(0, jj).push(e) + pre.subrange(
                jj,
                ii,
            )) by {
                assert forall|k: int| 0 <= k < ii + 1 implies events@[k] == (pre.subrange(
                    0,
                    jj,
                ).push(e) + pre.subrange(jj, ii))[k] by {
                    if k < jj {
                        assert(events@.subrange(0, jj)[k] == events@[k]);
                    } else if k > jj {
                        assert(events@.subrange(jj + 1, ii + 1)[k - jj - 1] == events@[k]);
                    }
                }
            }
            assert(input.subrange(0, ii + 1).drop_last() =~= input.subrange(0, ii));
            assert(events@.subrange(ii + 1, n as int) =~= input.subrange(ii + 1, n as int));
        }
        i = i + 1;
    }
    assert(input.subrange(0, n as int) == input);
    assert(events@.subrange(0, n as int) == events@);
    proof {
        lemma_sorted_events_multiset(*origin, input);
        if events_away_from(*origin, input) {
            lemma_sorted_events_in_order(*origin, input);
        }
    }
}

/// Each event's segment is in range and not on a line through `o`.
pub open spec fn events_ok(o: Point, events: Seq<VisibilityEvent>) -> bool {
    forall|i: int|
        0 <= i < events.len() ==> (#[trigger] events[i]).segment.in_range() && sees_segment(
            o,
            events[i].segment,
        )
}

proof fn lemma_insert_event_ok(o: Point, s: Seq<VisibilityEvent>, e: VisibilityEvent)
    requires
        events_ok(o, s),
        events_ok(o, seq![e]),
    ensures
        events_ok(o, insert_event(o, s, e)),
    decreases s.len(),
{
    if s.len() > 0 {
        if event_less(o, e, s.last()) {
            lemma_insert_event_ok(o, s.drop_last(), e);
            let r = insert_event(o, s.drop_last(), e);
            assert forall|i: int| 0 <= i < r.push(s.last()).len() implies (#[trigger] r.push(
                s.last(),
            )[i]).segment.in_range() && sees_segment(o, r.push(s.last())[i].segment) by {
                if i < r.len() {
                    assert(r.push(s.last())[i] == r[i]);
                }
            }
        } else {
            assert forall|i: int| 0 <= i < s.push(e).len() implies (#[trigger] s.push(
                e,
            )[i]).segment.in_range() && sees_segment(o, s.push(e)[i].segment) by {
                if i < s.len() {
                    assert(s.push(e)[i] == s[i]);
                } else {
                    assert(seq![e][0] == e);
                }
            }
        }
    }
}

proof fn lemma_sorted_events_ok(o: Point, s: Seq<VisibilityEvent>)
    requires
        events_ok(o, s),
    ensures
        events_ok(o, sorted_events(o, s)),
    decreases s.len(),
{
    if s.len() > 0 {
        lemma_sorted_events_ok(o, s.drop_last());
        assert(seq![s.last()][0] == s.last());
        lemma_insert_event_ok(o, sorted_events(o, s.drop_last()), s.last());
    }
}

/// Two segments with the same endpoints, either way round.
pub open spec fn same_segment(s1: Line, s2: Line) -> bool {
    s1 == s2 || s1 == s2.reversed()
}

/// `i` is the first place of `active` that holds `s`.
pub open spec fn first_match(active: Seq<Line>, s: Line, i: int) -> bool {
    0 <= i < active.len() && same_segment(active[i], s) && forall|k: int|
        0 <= k < i ==> !same_segment(#[trigger] active[k], s)
}

/// The active set after inserting `s`: unchanged when it holds `s` already.
pub open spec fn active_insert(active: Seq<Line>, s: Line) -> Seq<Line> {
    if exists|i: int| first_match(active, s, i) {
        active
    } else {
        active.push(s)
    }
}

/// The active set after removing `s`, if it holds it.
pub open spec fn active_remove(active: Seq<Line>, s: Line) -> Seq<Line> {
    if exists|i: int| first_match(active, s, i) {
        active.remove(choose|i: int| first_match(active, s, i))
    } else {
        active
    }
}

/// The nearest of the first `k` active segments, found by one pass that
/// keeps the current best and takes a later segment only when it is nearer.
pub open spec fn nearest_upto(o: Point, active: Seq<Line>, k: int) -> Line
    decreases k,
{
    if k <= 1 {
        active[0]
    } else {
        let m = nearest_upto(o, active, k - 1);
        if segment_cmp(o, active[k - 1], m) == std::cmp::Ordering::Less {
            active[k - 1]
        } else {
            m
        }
    }
}

pub open spec fn nearest(o: Point, active: Seq<Line>) -> Line {
    nearest_upto(o, active, active.len() as int)
}

/// Each active segment is in range and not on a line through `o`.
pub open spec fn active_ok(o: Point, active: Seq<Line>) -> bool {
    forall|i: int|
        0 <= i < active.len() ==> (#[trigger] active[i]).in_range() && sees_segment(o, active[i])
}

/// What one event does: the new active set, the vertices it emits and the
/// points where an expected ray crossing was not found.
pub open spec fn sweep_step(o: Point, active: Seq<Line>, ev: VisibilityEvent) -> (
    Seq<Line>,
    Seq<Vertex>,
    Seq<Point>,
) {
    let seg = ev.segment;
    let p = ev.point_spec();
    let after_end = if ev.event_type == VisibilityEventType::EndVertex {
        active_remove(active, seg)
    } else {
        active
    };
    let emitted: (Seq<Vertex>, Seq<Point>) = if after_end.len() == 0 {
        (seq![vertex_of(p@)], Seq::empty())
    } else {
        let n = nearest(o, after_end);
        if segment_cmp(o, seg, n) == std::cmp::Ordering::Less {
            match ray_hit(o@, p@, n.start@, n.end@) {
                Some(v) => if ev.event_type == VisibilityEventType::StartVertex {
                    (seq![v, vertex_of(p@)], Seq::empty())
                } else {
                    (seq![vertex_of(p@), v], Seq::empty())
                },
                None => (Seq::empty(), seq![p]),
            }
        } else {
            (Seq::empty(), Seq::empty())
        }
    };
    let after = if ev.event_type == VisibilityEventType::StartVertex {
        active_insert(after_end, seg)
    } else {
        after_end
    };
    (after, emitted.0, emitted.1)
}

/// The vertices and missed crossings of the whole sweep over `events`.
pub open spec fn run_sweep(o: Point, active: Seq<Line>, events: Seq<VisibilityEvent>) -> (
    Seq<Vertex>,
    Seq<Point>,
)
    decreases events.len(),
{
    if events.len() == 0 {
        (Seq::empty(), Seq::empty())
    } else {
        let (next, out, missed) = sweep_step(o, active, events[0]);
        let rest = run_sweep(o, next, events.skip(1));
        (out + rest.0, missed + rest.1)
    }
}

fn same_segment_exec(s1: &Line, s2: &Line) -> (r: bool)
    ensures
        r == same_segment(*s1, *s2),
{
    (approx_equal(&s1.start, &s2.start) && approx_equal(&s1.end, &s2.end)) || (approx_equal(
        &s1.start,
        &s2.end,
    ) && approx_equal(&s1.end, &s2.start))
}

/// The first place of `active` that holds `s`, if any.
fn find_active(active: &Vec<Line>, s: &Line) -> (r: Option<usize>)
    ensures
        r matches Some(i) ==> first_match(active@, *s, i as int),
        r is None ==> !exists|i: int| first_match(active@, *s, i),
{
    let mut i: usize = 0;
    while i < active.len()
        invariant
            0 <= i <= active@.len(),
            forall|k: int| 0 <= k < i ==> !same_segment(#[trigger] active@[k], *s),
        decreases active@.len() - i,
    {
        if same_segment_exec(&active[i], s) {
            return Some(i);
        }
        i = i + 1;
    }
    None
}

proof fn lemma_first_match_unique(active: Seq<Line>, s: Line, i: int, j: int)
    requires
        first_match(active, s, i),
        first_match(active, s, j),
    ensures
        i == j,
{
    if i < j {
        assert(!same_segment(active[i], s));
    } else if j < i {
        assert(!same_segment(active[j], s));
    }
}

fn insert_active(active: &mut Vec<Line>, s: Line)
    ensures
        final(active)@ == active_insert(old(active)@, s),
{
    if find_active(active, &s).is_none() {
        active.push(s);
    }
}

fn remove_active(active: &mut Vec<Line>, s: &Line)
    ensures
        final(active)@ == active_remove(old(active)@, *s),
{
    match find_active(active, s) {
        Some(i) => {
            proof {
                let c = choose|k: int| first_match(old(active)@, *s, k);
                lemma_first_match_unique(old(active)@, *s, i as int, c);
            }
            active.remove(i);
        },
        None => {},
    }
}

proof fn lemma_active_insert_ok(o: Point, active: Seq<Line>, s: Line)
    requires
        active_ok(o, active),
        s.in_range(),
        sees_segment(o, s),
    ensures
        active_ok(o, active_insert(active, s)),
{
    assert forall|i: int| 0 <= i < active.push(s).len() implies (#[trigger] active.push(
        s,
    )[i]).in_range() && sees_segment(o, active.push(s)[i]) by {
        if i < active.len() {
            assert(active.push(s)[i] == active[i]);
        }
    }
}

proof fn lemma_active_remove_ok(o: Point, active: Seq<Line>, s: Line)
    requires
        active_ok(o, active),
    ensures
        active_ok(o, active_remove(active, s)),
{
    if exists|i: int| first_match(active, s, i) {
        let c = choose|i: int| first_match(active, s, i);
        let r = active.remove(c);
        assert forall|i: int| 0 <= i < r.len() implies (#[trigger] r[i]).in_range()
            && sees_segment(o, r[i]) by {
            if i < c {
                assert(r[i] == active[i]);
            } else {
                assert(r[i] == active[i + 1]);
            }
        }
    }
}

proof fn lemma_nearest_ok(o: Point, active: Seq<Line>, k: int)
    requires
        active_ok(o, active),
        1 <= k <= active.len(),
    ensures
        nearest_upto(o, active, k).in_range(),
        sees_segment(o, nearest_upto(o, active, k)),
    decreases k,
{
    if k > 1 {
        lemma_nearest_ok(o, active, k - 1);
        assert(active[k - 1].in_range());
    } else {
        assert(active[0].in_range());
    }
}

/// The nearest active segment, by one pass over the active set.
fn nearest_active(origin: &Point, active: &Vec<Line>) -> (r: Line)
    requires
        origin.in_range(),
        active@.len() > 0,
        active_ok(*origin, active@),
    ensures
        r == nearest(*origin, active@),
{
    let mut best = active[0];
    let mut k: usize = 1;
    while k < active.len()
        invariant
            1 <= k <= active@.len(),
            origin.in_range(),
            active_ok(*origin, active@),
            best == nearest_upto(*origin, active@, k as int),
        decreases active@.len() - k,
    {
        proof {
            lemma_nearest_ok(*origin, active@, k as int);
            assert(active@[k as int].in_range());
        }
        let candidate = ComparableLine::new(*origin, active[k]);
        let nearer = match candidate.cmp(&ComparableLine::new(*origin, best)) {
            std::cmp::Ordering::Less => true,
            _ => false,
        };
        if nearer {
            best = active[k];
        }
        k = k + 1;
    }
    best
}

/// The segment run so that `o` lies on its right.
pub open spec fn canonical(o: Point, s: Line) -> Line {
    if orient_spec(o@, s.start@, s.end@) == Orientation::RightTurn {
        s
    } else {
        s.reversed()
    }
}

/// A start and an end event for each segment not on a line through `o`.
pub open spec fn segment_events(o: Point, segments: Seq<Line>) -> Seq<VisibilityEvent>
    decreases segments.len(),
{
    if segments.len() == 0 {
        Seq::empty()
    } else {
        let prev = segment_events(o, segments.drop_last());
        let s = segments.last();
        if !sees_segment(o, s) {
            prev
        } else {
            let c = canonical(o, s);
            prev.push(VisibilityEvent { event_type: VisibilityEventType::StartVertex, segment: c }).push(
                VisibilityEvent { event_type: VisibilityEventType::EndVertex, segment: c.reversed() },
            )
        }
    }
}

/// The segment meets the vertical line through `o` (at an interior point or
/// at its right end) and has `o` on its right when run left to right: the
/// sweep starts with it active.
pub open spec fn initially_active(o: Point, s: Line) -> bool {
    let (a, b) = if s.start.x > s.end.x {
        (s.end, s.start)
    } else {
        (s.start, s.end)
    };
    sees_segment(o, s) && (b.x == o.x || (a.x < o.x && o.x < b.x)) && orient_spec(a@, b@, o@)
        == Orientation::RightTurn
}

/// The active set the sweep starts from.
pub open spec fn initial_active(o: Point, segments: Seq<Line>) -> Seq<Line>
    decreases segments.len(),
{
    if segments.len() == 0 {
        Seq::empty()
    } else {
        let prev = initial_active(o, segments.drop_last());
        if initially_active(o, segments.last()) {
            active_insert(prev, segments.last())
        } else {
            prev
        }
    }
}

pub open spec fn lines_in_range(segments: Seq<Line>) -> bool {
    forall|i: int| 0 <= i < segments.len() ==> (#[trigger] segments[i]).in_range()
}

/// Events and the starting active set of a sweep around `origin`.
fn prepare(origin: &Point, obstacles: &[Line]) -> (r: (Vec<VisibilityEvent>, Vec<Line>))
    requires
        origin.in_range(),
        lines_in_range(obstacles@),
    ensures
        r.0@ == segment_events(*origin, obstacles@),
        r.1@ == initial_active(*origin, obstacles@),
        events_ok(*origin, r.0@),
        active_ok(*origin, r.1@),
{
    let mut events: Vec<VisibilityEvent> = Vec::new();
    let mut active: Vec<Line> = Vec::new();
    let mut i: usize = 0;
    while i < obstacles.len()
        invariant
            0 <= i <= obstacles@.len(),
            origin.in_range(),
            lines_in_range(obstacles@),
            events@ == segment_events(*origin, obstacles@.subrange(0, i as int)),
            active@ == initial_active(*origin, obstacles@.subrange(0, i as int)),
            events_ok(*origin, events@),
            active_ok(*origin, active@),
        decreases obstacles@.len() - i,
    {
        let segment = obstacles[i];
        let ghost prefix = obstacles@.subrange(0, i as int + 1);
        proof {
            assert(prefix.drop_last() =~= obstacles@.subrange(0, i as int));
            assert(prefix.last() == segment);
            assert(segment.in_range());
            lemma_orient_swap(origin@, segment.start@, segment.end@);
        }
        let a = segment.start;
        let b = segment.end;
        let ghost events_before = events@;
        match Orientation::from(*origin, a, b) {
            Orientation::Collinear => {
                i = i + 1;
                continue;
            },
            Orientation::RightTurn => {
                events.push(VisibilityEvent::start(&segment));
                events.push(VisibilityEvent::end(&Line::new(b, a)));
            },
            Orientation::LeftTurn => {
                events.push(VisibilityEvent::start(&Line::new(b, a)));
                events.push(VisibilityEvent::end(&segment));
            },
        }
        proof {
            assert forall|k: int| 0 <= k < events@.len() implies (#[trigger] events@[k]).segment.in_range()
                && sees_segment(*origin, events@[k].segment) by {
                if k < events_before.len() {
                    assert(events@[k] == events_before[k]);
                }
            }
        }
        let (lo, hi) = if a.x > b.x {
            (b, a)
        } else {
            (a, b)
        };
        let abp = Orientation::from(lo, hi, *origin);
        if (hi.x == origin.x || (lo.x < origin.x && origin.x < hi.x)) && abp
            == Orientation::RightTurn {
            proof {
                lemma_active_insert_ok(*origin, active@, segment);
            }
            insert_active(&mut active, segment);
        }
        i = i + 1;
    }
    assert(obstacles@.subrange(0, obstacles@.len() as int) =~= obstacles@);
    (events, active)
}

/// Handles one event: updates the active set and appends what it emits.
fn sweep_event(
    origin: &Point,
    active: &mut Vec<Line>,
    event: &VisibilityEvent,
    vertices: &mut Vec<Vertex>,
    unresolved: &mut Vec<Point>,
)
    requires
        origin.in_range(),
        active_ok(*origin, old(active)@),
        event.segment.in_range(),
        sees_segment(*origin, event.segment),
        forall|k: int| 0 <= k < old(vertices)@.len() ==> (#[trigger] old(vertices)@[k]).wf(),
    ensures
        ({
            let (next, out, missed) = sweep_step(*origin, old(active)@, *event);
            &&& final(active)@ == next
            &&& final(vertices)@ == old(vertices)@ + out
            &&& final(unresolved)@ == old(unresolved)@ + missed
        }),
        active_ok(*origin, final(active)@),
        forall|k: int| 0 <= k < final(vertices)@.len() ==> (#[trigger] final(vertices)@[k]).wf(),
{
    let ghost vertices_before = vertices@;
    let ghost unresolved_before = unresolved@;
    let point = event.point();
    let segment = ComparableLine::new(*origin, event.segment);
    if event.event_type == VisibilityEventType::EndVertex {
        proof {
            lemma_active_remove_ok(*origin, active@, event.segment);
        }
        remove_active(active, &event.segment);
    }
    let ghost after_end = active@;
    if active.len() == 0 {
        vertices.push(Vertex::from_point(point));
    } else {
        let first = nearest_active(origin, active);
        proof {
            lemma_nearest_ok(*origin, active@, active@.len() as int);
        }
        let nearer = match segment.cmp(&ComparableLine::new(*origin, first)) {
            std::cmp::Ordering::Less => true,
            _ => false,
        };
        if nearer {
            let ray = Ray::new(Line::new(*origin, point));
            match ray.intersects(&first) {
                Some(intersection) => {
                    match event.event_type {
                        VisibilityEventType::StartVertex => {
                            vertices.push(intersection);
                            vertices.push(Vertex::from_point(point));
                        },
                        VisibilityEventType::EndVertex => {
                            vertices.push(Vertex::from_point(point));
                            vertices.push(intersection);
                        },
                    }
                },
                None => {
                    unresolved.push(point);
                },
            }
        }
    }
    if event.event_type == VisibilityEventType::StartVertex {
        proof {
            lemma_active_insert_ok(*origin, active@, event.segment);
        }
        insert_active(active, event.segment);
    }
    proof {
        let (next, out, missed) = sweep_step(*origin, old(active)@, *event);
        assert(vertices@ =~= vertices_before + out);
        assert(unresolved@ =~= unresolved_before + missed);
    }
}

/// Runs the sweep over events already in handling order.
fn sweep(origin: &Point, events: &Vec<VisibilityEvent>, active: Vec<Line>) -> (r: (
    Vec<Vertex>,
    Vec<Point>,
))
    requires
        origin.in_range(),
        events_ok(*origin, events@),
        active_ok(*origin, active@),
    ensures
        (r.0@, r.1@) == run_sweep(*origin, active@, events@),
        forall|k: int| 0 <= k < r.0@.len() ==> (#[trigger] r.0@[k]).wf(),
{
    let ghost start = active@;
    let mut active = active;
    let mut vertices: Vec<Vertex> = Vec::new();
    let mut unresolved: Vec<Point> = Vec::new();
    let mut i: usize = 0;
    assert(events@.skip(0) =~= events@);
    while i < events.len()
        invariant
            0 <= i <= events@.len(),
            origin.in_range(),
            events_ok(*origin, events@),
            active_ok(*origin, active@),
            forall|k: int| 0 <= k < vertices@.len() ==> (#[trigger] vertices@[k]).wf(),
            run_sweep(*origin, start, events@) == (
                vertices@ + run_sweep(*origin, active@, events@.skip(i as int)).0,
                unresolved@ + run_sweep(*origin, active@, events@.skip(i as int)).1,
            ),
        decreases events@.len() - i,
    {
        let event = events[i];
        let ghost rest = events@.skip(i as int);
        let ghost active_before = active@;
        let ghost vertices_before = vertices@;
        let ghost unresolved_before = unresolved@;
        proof {
            assert(rest[0] == event);
            assert(rest.skip(1) =~= events@.skip(i as int + 1));
        }
        sweep_event(origin, &mut active, &event, &mut vertices, &mut unresolved);
        proof {
            let (next, out, missed) = sweep_step(*origin, active_before, event);
            let tail = run_sweep(*origin, next, events@.skip(i as int + 1));
            assert(vertices_before + (out + tail.0) =~= vertices@ + tail.0);
            assert(unresolved_before + (missed + tail.1) =~= unresolved@ + tail.1);
        }
        i = i + 1;
    }
    proof {
        assert(events@.skip(events@.len() as int) =~= Seq::<VisibilityEvent>::empty());
        assert(vertices@ + Seq::<Vertex>::empty() =~= vertices@);
        assert(unresolved@ + Seq::<Point>::empty() =~= unresolved@);
    }
    (vertices, unresolved)
}

/// The vertices kept by one forward pass from place `it` on, `kept` being
/// the vertices kept so far: a vertex is dropped when it is collinear with
/// the last vertex kept (the last input vertex while none is) and the next
/// input vertex (the first vertex kept, or the first input vertex while none
/// is, after the last).
pub open spec fn compact_from(v: Seq<Vertex>, it: int, kept: Seq<Vertex>) -> Seq<Vertex>
    decreases v.len() - it,
{
    if it >= v.len() || it < 0 {
        kept
    } else {
        let prev = if kept.len() == 0 {
            v.last()
        } else {
            kept.last()
        };
        let next = if it + 1 == v.len() {
            if kept.len() == 0 {
                v[0]
            } else {
                kept[0]
            }
        } else {
            v[it + 1]
        };
        if vertex_orient_spec(prev, v[it], next) != Orientation::Collinear {
            compact_from(v, it + 1, kept.push(v[it]))
        } else {
            compact_from(v, it + 1, kept)
        }
    }
}

/// The ring without its collinear vertices.
pub open spec fn remove_collinear(v: Seq<Vertex>) -> Seq<Vertex> {
    compact_from(v, 0, Seq::empty())
}

/// Drops, in one forward pass, each vertex collinear with its neighbours in
/// what is kept.
pub fn remove_collinear_vertices(vertices: &Vec<Vertex>) -> (r: Vec<Vertex>)
    requires
        forall|k: int| 0 <= k < vertices@.len() ==> (#[trigger] vertices@[k]).wf(),
    ensures
        r@ == remove_collinear(vertices@),
{
    let n = vertices.len();
    let mut kept: Vec<Vertex> = Vec::new();
    let mut it: usize = 0;
    while it < n
        invariant
            n == vertices@.len(),
            0 <= it <= n,
            forall|k: int| 0 <= k < vertices@.len() ==> (#[trigger] vertices@[k]).wf(),
            forall|k: int| 0 <= k < kept@.len() ==> (#[trigger] kept@[k]).wf(),
            remove_collinear(vertices@) == compact_from(vertices@, it as int, kept@),
        decreases n - it,
    {
        let prev = if kept.len() == 0 {
            vertices[n - 1]
        } else {
            kept[kept.len() - 1]
        };
        let next = if it + 1 == n {
            if kept.len() == 0 {
                vertices[0]
            } else {
                kept[0]
            }
        } else {
            vertices[it + 1]
        };
        if Orientation::of_vertices(&prev, &vertices[it], &next) != Orientation::Collinear {
            kept.push(vertices[it]);
        }
        it = it + 1;
    }
    kept
}

/// The visibility polygon of a point and the event points at which an
/// expected ray crossing was not found (the polygon then lacks that jump).
pub struct VisibilityPolygon {
    pub vertices: Vec<Vertex>,
    pub unresolved: Vec<Point>,
}

/// The vertex ring and missed crossings of the sweep around `o`.
pub open spec fn visibility_spec(o: Point, segments: Seq<Line>) -> (Seq<Vertex>, Seq<Point>) {
    let swept = run_sweep(
        o,
        initial_active(o, segments),
        sorted_events(o, segment_events(o, segments)),
    );
    (remove_collinear(swept.0), swept.1)
}

/// Visibility polygon of `origin` among segment obstacles.
pub fn point_visibility(origin: &Point, obstacles: &[Line]) -> (r: VisibilityPolygon)
    requires
        origin.in_range(),
        lines_in_range(obstacles@),
    ensures
        (r.vertices@, r.unresolved@) == visibility_spec(*origin, obstacles@),
{
    let (mut events, active) = prepare(origin, obstacles);
    proof {
        assert forall|i: int| 0 <= i < events@.len() implies (#[trigger] events@[i]).segment.in_range() by {}
        lemma_sorted_events_ok(*origin, events@);
    }
    sort_events_by_angle(origin, &mut events);
    let (raw, unresolved) = sweep(origin, &events, active);
    let vertices = remove_collinear_vertices(&raw);
    VisibilityPolygon { vertices, unresolved }
}

/// Whether every segment lies within the coordinate bound.
pub fn lines_within_limit(obstacles: &[Line]) -> (r: bool)
    ensures
        r == lines_in_range(obstacles@),
{
    let mut i: usize = 0;
    while i < obstacles.len()
        invariant
            0 <= i <= obstacles@.len(),
            forall|k: int| 0 <= k < i ==> (#[trigger] obstacles@[k]).in_range(),
        decreases obstacles@.len() - i,
    {
        let s = obstacles[i];
        if !(s.start.within_limit() && s.end.within_limit()) {
            return false;
        }
        i = i + 1;
    }
    true
}

/// Visibility of a point among segment obstacles (`None` when a coordinate
/// exceeds [`crate::geometry::COORD_LIMIT`]).
pub trait Visibility<T: ?Sized> {
    fn visibility(&self, obstacles: &T) -> Option<VisibilityPolygon>;
}

impl Visibility<[Line]> for Point {
    fn visibility(&self, obstacles: &[Line]) -> (r: Option<VisibilityPolygon>)
        ensures
            r is Some <==> self.in_range() && lines_in_range(obstacles@),
            r matches Some(p) ==> (p.vertices@, p.unresolved@) == visibility_spec(
                *self,
                obstacles@,
            ),
    {
        checked_visibility(self, obstacles)
    }
}

/// [`point_visibility`] when every coordinate is within the bound, `None`
/// otherwise.
pub fn checked_visibility(origin: &Point, obstacles: &[Line]) -> (r: Option<VisibilityPolygon>)
    ensures
        r is Some <==> origin.in_range() && lines_in_range(obstacles@),
        r matches Some(p) ==> (p.vertices@, p.unresolved@) == visibility_spec(*origin, obstacles@),
{
    if origin.within_limit() && lines_within_limit(obstacles) {
        Some(point_visibility(origin, obstacles))
    } else {
        None
    }
}

/// Segments the origin does not see (on a line through it) make no events
/// and are never active.
proof fn lemma_unseen_prefix(o: Point, segments: Seq<Line>)
    requires
        forall|i: int| 0 <= i < segments.len() ==> !sees_segment(o, #[trigger] segments[i]),
    ensures
        segment_events(o, segments) == Seq::<VisibilityEvent>::empty(),
        initial_active(o, segments) == Seq::<Line>::empty(),
    decreases segments.len(),
{
    if segments.len() > 0 {
        let init = segments.drop_last();
        assert forall|i: int| 0 <= i < init.len() implies !sees_segment(o, #[trigger] init[i]) by {
            assert(init[i] == segments[i]);
        }
        lemma_unseen_prefix(o, init);
        assert(!sees_segment(o, segments[segments.len() - 1]));
    }
}

/// When no obstacle is usable (each lies on a line through the origin, or
/// there is none), the polygon is empty: no boundary is made up.
pub proof fn lemma_no_usable_obstacle(o: Point, segments: Seq<Line>)
    requires
        forall|i: int| 0 <= i < segments.len() ==> !sees_segment(o, #[trigger] segments[i]),
    ensures
        visibility_spec(o, segments).0 == Seq::<Vertex>::empty(),
        visibility_spec(o, segments).1 == Seq::<Point>::empty(),
{
    lemma_unseen_prefix(o, segments);
    assert(sorted_events(o, Seq::<VisibilityEvent>::empty()) == Seq::<VisibilityEvent>::empty());
}

proof fn lemma_insert_unseen(o: Point, segments: Seq<Line>, i: int, s: Line)
    requires
        0 <= i <= segments.len(),
        !sees_segment(o, s),
    ensures
        segment_events(o, segments.insert(i, s)) == segment_events(o, segments),
        initial_active(o, segments.insert(i, s)) == initial_active(o, segments),
    decreases segments.len(),
{
    let longer = segments.insert(i, s);
    if i == segments.len() {
        assert(longer.drop_last() =~= segments);
        assert(longer.last() == s);
    } else {
        let init = segments.drop_last();
        lemma_insert_unseen(o, init, i, s);
        assert(longer.drop_last() =~= init.insert(i, s));
        assert(longer.last() == segments.last());
    }
}

/// Adding, anywhere, a segment on a line through the origin changes neither
/// the polygon nor the missed crossings.
pub proof fn lemma_unseen_segment_changes_nothing(o: Point, segments: Seq<Line>, i: int, s: Line)
    requires
        0 <= i <= segments.len(),
        !sees_segment(o, s),
    ensures
        visibility_spec(o, segments.insert(i, s)) == visibility_spec(o, segments),
{
    lemma_insert_unseen(o, segments, i, s);
}

/// `s` is one of the obstacles, run either way.
pub open spec fn is_obstacle(s: Line, segments: Seq<Line>) -> bool {
    exists|i: int| 0 <= i < segments.len() && same_segment(s, #[trigger] segments[i])
}

/// The rational point `v` lies on one of the obstacles.
pub open spec fn on_obstacle(v: Vertex, segments: Seq<Line>) -> bool {
    exists|i: int|
        0 <= i < segments.len() && (on_segment(v, segments[i].start@, segments[i].end@)
            || on_segment(v, (#[trigger] segments[i]).end@, segments[i].start@))
}

pub open spec fn all_obstacles(lines: Seq<Line>, segments: Seq<Line>) -> bool {
    forall|k: int| 0 <= k < lines.len() ==> is_obstacle(#[trigger] lines[k], segments)
}

pub open spec fn events_on_obstacles(events: Seq<VisibilityEvent>, segments: Seq<Line>) -> bool {
    forall|k: int| 0 <= k < events.len() ==> is_obstacle((#[trigger] events[k]).segment, segments)
}

proof fn lemma_on_obstacle(v: Vertex, s: Line, segments: Seq<Line>)
    requires
        is_obstacle(s, segments),
        on_segment(v, s.start@, s.end@),
    ensures
        on_obstacle(v, segments),
{
    let i = choose|i: int| 0 <= i < segments.len() && same_segment(s, #[trigger] segments[i]);
    assert(on_segment(v, segments[i].start@, segments[i].end@) || on_segment(
        v,
        segments[i].end@,
        segments[i].start@,
    ));
}

proof fn lemma_is_obstacle_prefix(s: Line, segments: Seq<Line>)
    requires
        segments.len() > 0,
        is_obstacle(s, segments.drop_last()),
    ensures
        is_obstacle(s, segments),
{
    let init = segments.drop_last();
    let i = choose|i: int| 0 <= i < init.len() && same_segment(s, #[trigger] init[i]);
    assert(init[i] == segments[i]);
}

proof fn lemma_last_is_obstacle(s: Line, segments: Seq<Line>)
    requires
        segments.len() > 0,
        same_segment(s, segments.last()),
    ensures
        is_obstacle(s, segments),
{
    assert(same_segment(s, segments[segments.len() - 1]));
}

proof fn lemma_segment_events_on_obstacles(o: Point, segments: Seq<Line>)
    ensures
        events_on_obstacles(segment_events(o, segments), segments),
    decreases segments.len(),
{
    if segments.len() > 0 {
        let init = segments.drop_last();
        lemma_segment_events_on_obstacles(o, init);
        let prev = segment_events(o, init);
        let evs = segment_events(o, segments);
        assert forall|k: int| 0 <= k < evs.len() implies is_obstacle(
            (#[trigger] evs[k]).segment,
            segments,
        ) by {
            if k < prev.len() {
                assert(evs[k] == prev[k]);
                lemma_is_obstacle_prefix(prev[k].segment, segments);
            } else {
                let c = canonical(o, segments.last());
                assert(evs[k].segment == c || evs[k].segment == c.reversed());
                assert(c.reversed().reversed() == c);
                lemma_last_is_obstacle(evs[k].segment, segments);
            }
        }
    }
}

proof fn lemma_insert_on_obstacles(active: Seq<Line>, s: Line, segments: Seq<Line>)
    requires
        all_obstacles(active, segments),
        is_obstacle(s, segments),
    ensures
        all_obstacles(active_insert(active, s), segments),
{
    assert forall|k: int| 0 <= k < active.push(s).len() implies is_obstacle(
        #[trigger] active.push(s)[k],
        segments,
    ) by {
        if k < active.len() {
            assert(active.push(s)[k] == active[k]);
        }
    }
}

proof fn lemma_remove_on_obstacles(active: Seq<Line>, s: Line, segments: Seq<Line>)
    requires
        all_obstacles(active, segments),
    ensures
        all_obstacles(active_remove(active, s), segments),
{
    if exists|i: int| first_match(active, s, i) {
        let c = choose|i: int| first_match(active, s, i);
        let r = active.remove(c);
        assert forall|k: int| 0 <= k < r.len() implies is_obstacle(#[trigger] r[k], segments) by {
            if k < c {
                assert(r[k] == active[k]);
            } else {
                assert(r[k] == active[k + 1]);
            }
        }
    }
}

proof fn lemma_initial_active_on_obstacles(o: Point, segments: Seq<Line>)
    ensures
        all_obstacles(initial_active(o, segments), segments),
    decreases segments.len(),
{
    if segments.len() > 0 {
        let init = segments.drop_last();
        lemma_initial_active_on_obstacles(o, init);
        let prev = initial_active(o, init);
        assert forall|k: int| 0 <= k < prev.len() implies is_obstacle(#[trigger] prev[k], segments) by {
            lemma_is_obstacle_prefix(prev[k], segments);
        }
        lemma_last_is_obstacle(segments.last(), segments);
        lemma_insert_on_obstacles(prev, segments.last(), segments);
    }
}

proof fn lemma_nearest_member(o: Point, active: Seq<Line>, k: int)
    requires
        1 <= k <= active.len(),
    ensures
        exists|j: int| 0 <= j < k && active[j] == nearest_upto(o, active, k),
    decreases k,
{
    if k > 1 {
        lemma_nearest_member(o, active, k - 1);
        if nearest_upto(o, active, k) == active[k - 1] {
            assert(active[k - 1] == nearest_upto(o, active, k));
        }
    } else {
        assert(active[0] == nearest_upto(o, active, k));
    }
}

proof fn lemma_point_on_own_segment(s: Line)
    requires
        s.in_range(),
    ensures
        on_segment(vertex_of(s.start@), s.start@, s.end@),
{
    lemma_between_on_segment(s.start@, s.end@, 0, 1);
    assert(vertex_of(s.start@) == (Vertex {
        x: (s.start@.0 * 1 + 0 * (s.end@.0 - s.start@.0)) as i128,
        y: (s.start@.1 * 1 + 0 * (s.end@.1 - s.start@.1)) as i128,
        w: 1 as i128,
    }));
}

proof fn lemma_run_sweep_on_obstacles(
    o: Point,
    active: Seq<Line>,
    events: Seq<VisibilityEvent>,
    segments: Seq<Line>,
)
    requires
        o.in_range(),
        active_ok(o, active),
        events_ok(o, events),
        all_obstacles(active, segments),
        events_on_obstacles(events, segments),
    ensures
        forall|k: int|
            0 <= k < run_sweep(o, active, events).0.len() ==> on_obstacle(
                #[trigger] run_sweep(o, active, events).0[k],
                segments,
            ),
    decreases events.len(),
{
    if events.len() > 0 {
        let ev = events[0];
        let seg = ev.segment;
        let p = ev.point_spec();
        assert(seg.in_range() && sees_segment(o, seg));
        assert(is_obstacle(seg, segments));
        let after_end = if ev.event_type == VisibilityEventType::EndVertex {
            active_remove(active, seg)
        } else {
            active
        };
        lemma_active_remove_ok(o, active, seg);
        lemma_remove_on_obstacles(active, seg, segments);
        let (next, out, missed) = sweep_step(o, active, ev);
        lemma_point_on_own_segment(seg);
        lemma_on_obstacle(vertex_of(p@), seg, segments);
        if after_end.len() > 0 {
            let n = nearest(o, after_end);
            lemma_nearest_member(o, after_end, after_end.len() as int);
            let j = choose|j: int|
                0 <= j < after_end.len() && after_end[j] == nearest_upto(
                    o,
                    after_end,
                    after_end.len() as int,
                );
            assert(is_obstacle(after_end[j], segments));
            assert(after_end[j].in_range());
            lemma_ray_hit_on_segment(o@, p@, n.start@, n.end@);
            if let Some(v) = ray_hit(o@, p@, n.start@, n.end@) {
                lemma_on_obstacle(v, n, segments);
            }
        }
        lemma_active_insert_ok(o, after_end, seg);
        lemma_insert_on_obstacles(after_end, seg, segments);
        let rest = events.skip(1);
        assert forall|k: int| 0 <= k < rest.len() implies (#[trigger] rest[k]).segment.in_range()
            && sees_segment(o, rest[k].segment) && is_obstacle(rest[k].segment, segments) by {
            assert(rest[k] == events[k + 1]);
        }
        lemma_run_sweep_on_obstacles(o, next, rest, segments);
        let tail = run_sweep(o, next, rest).0;
        let all = run_sweep(o, active, events).0;
        assert(all == out + tail);
        assert forall|k: int| 0 <= k < all.len() implies on_obstacle(#[trigger] all[k], segments) by {
            if k < out.len() {
                assert(all[k] == out[k]);
            } else {
                assert(all[k] == tail[k - out.len()]);
            }
        }
    }
}

proof fn lemma_compact_keeps_property(
    v: Seq<Vertex>,
    it: int,
    kept: Seq<Vertex>,
    segments: Seq<Line>,
)
    requires
        forall|k: int| 0 <= k < v.len() ==> on_obstacle(#[trigger] v[k], segments),
        forall|k: int| 0 <= k < kept.len() ==> on_obstacle(#[trigger] kept[k], segments),
    ensures
        forall|k: int|
            0 <= k < compact_from(v, it, kept).len() ==> on_obstacle(
                #[trigger] compact_from(v, it, kept)[k],
                segments,
            ),
    decreases v.len() - it,
{
    if it < v.len() && it >= 0 {
        let pushed = kept.push(v[it]);
        assert forall|k: int| 0 <= k < pushed.len() implies on_obstacle(#[trigger] pushed[k], segments) by {
            if k < kept.len() {
                assert(pushed[k] == kept[k]);
            }
        }
        lemma_compact_keeps_property(v, it + 1, pushed, segments);
        lemma_compact_keeps_property(v, it + 1, kept, segments);
        let r = compact_from(v, it, kept);
        assert(r == compact_from(v, it + 1, pushed) || r == compact_from(v, it + 1, kept));
        assert forall|k: int| 0 <= k < r.len() implies on_obstacle(#[trigger] r[k], segments) by {
            if r == compact_from(v, it + 1, pushed) {
                assert(on_obstacle(compact_from(v, it + 1, pushed)[k], segments));
            } else {
                assert(on_obstacle(compact_from(v, it + 1, kept)[k], segments));
            }
        }
    }
}

proof fn lemma_segment_events_ok(o: Point, segments: Seq<Line>)
    requires
        lines_in_range(segments),
    ensures
        events_ok(o, segment_events(o, segments)),
    decreases segments.len(),
{
    if segments.len() > 0 {
        let init = segments.drop_last();
        assert forall|i: int| 0 <= i < init.len() implies (#[trigger] init[i]).in_range() by {
            assert(init[i] == segments[i]);
        }
        lemma_segment_events_ok(o, init);
        let s = segments.last();
        assert(s == segments[segments.len() - 1]);
        lemma_orient_swap(o@, s.start@, s.end@);
        let prev = segment_events(o, init);
        let evs = segment_events(o, segments);
        assert forall|k: int| 0 <= k < evs.len() implies (#[trigger] evs[k]).segment.in_range()
            && sees_segment(o, evs[k].segment) by {
            if k < prev.len() {
                assert(evs[k] == prev[k]);
            }
        }
    }
}

proof fn lemma_initial_active_ok(o: Point, segments: Seq<Line>)
    requires
        lines_in_range(segments),
    ensures
        active_ok(o, initial_active(o, segments)),
    decreases segments.len(),
{
    if segments.len() > 0 {
        let init = segments.drop_last();
        assert forall|i: int| 0 <= i < init.len() implies (#[trigger] init[i]).in_range() by {
            assert(init[i] == segments[i]);
        }
        lemma_initial_active_ok(o, init);
        assert(segments.last() == segments[segments.len() - 1]);
        if initially_active(o, segments.last()) {
            lemma_active_insert_ok(o, initial_active(o, init), segments.last());
        }
    }
}

/// Every vertex of the polygon lies on one of the obstacles.
pub proof fn lemma_vertices_on_obstacles(o: Point, segments: Seq<Line>)
    requires
        o.in_range(),
        lines_in_range(segments),
    ensures
        forall|k: int|
            0 <= k < visibility_spec(o, segments).0.len() ==> on_obstacle(
                #[trigger] visibility_spec(o, segments).0[k],
                segments,
            ),
{
    let evs = segment_events(o, segments);
    let sorted = sorted_events(o, evs);
    let active = initial_active(o, segments);
    lemma_segment_events_ok(o, segments);
    lemma_initial_active_ok(o, segments);
    lemma_sorted_events_ok(o, evs);
    lemma_segment_events_on_obstacles(o, segments);
    lemma_initial_active_on_obstacles(o, segments);
    lemma_sorted_events_multiset(o, evs);
    assert forall|k: int| 0 <= k < sorted.len() implies is_obstacle(
        (#[trigger] sorted[k]).segment,
        segments,
    ) by {
        lemma_member_of_multiset(sorted, evs, k);
    }
    lemma_run_sweep_on_obstacles(o, active, sorted, segments);
    let raw = run_sweep(o, active, sorted).0;
    lemma_compact_keeps_property(raw, 0, Seq::empty(), segments);
}

} // verus!
