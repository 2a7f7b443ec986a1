use vstd::prelude::*;

use crate::geometry::{Line, Point};

verus! {

/// Whether the sweep reaches the start or the end of a segment.
#[derive(Debug, Clone, Copy, PartialEq, Eq, Structural)]
pub enum VisibilityEventType {
    StartVertex,
    EndVertex,
}

/// A sweep event at `segment.start`; for an end event the segment is run
/// backwards, so its start is the segment's end.
#[derive(Debug, Clone, Copy, PartialEq, Eq, Structural)]
pub struct VisibilityEvent {
    pub event_type: VisibilityEventType,
    pub segment: Line,
}

impl VisibilityEvent {
    pub fn start(segment: &Line) -> (r: VisibilityEvent)
        ensures
            r.event_type == VisibilityEventType::StartVertex,
            r.segment == *segment,
    {
        VisibilityEvent { event_type: VisibilityEventType::StartVertex, segment: *segment }
    }

    pub fn end(segment: &Line) -> (r: VisibilityEvent)
        ensures
            r.event_type == VisibilityEventType::EndVertex,
            r.segment == *segment,
    {
        VisibilityEvent { event_type: VisibilityEventType::EndVertex, segment: *segment }
    }

    pub open spec fn point_spec(self) -> Point {
        self.segment.start
    }

    /// The point where the event happens.
    pub fn point(&self) -> (r: Point)
        ensures
            r == self.point_spec(),
    {
        self.segment.start
    }
}

} // verus!
