//! The decisions of the tracer: which terms a light adds, and how deep a
//! reflected ray may go.
use vstd::prelude::*;
use crate::scalar::Scalar;

verus! {

/// The greatest bounce depth: a hit at this depth is shaded and not followed.
pub const MAX_DEPTH: u32 = 3;

/// The terms that one light adds to the colour of a point.
#[derive(Clone, Copy, Debug, PartialEq, Eq, Structural)]
pub struct LightTerms {
    pub diffuse: bool,
    pub specular: bool,
}

/// The terms of a light. A light in shadow adds nothing. Else the diffuse term
/// counts where the light's direction and the normal make a positive product,
/// and the specular term where the light's direction and the mirrored ray do.
pub fn light_terms(in_shadow: bool, illumination: Scalar, highlight: Scalar) -> (terms: LightTerms)
    ensures
        terms.diffuse == (!in_shadow && Scalar::zero().less(illumination)),
        terms.specular == (!in_shadow && Scalar::zero().less(highlight)),
{
    if in_shadow {
        LightTerms { diffuse: false, specular: false }
    } else {
        LightTerms { diffuse: illumination.is_positive(), specular: highlight.is_positive() }
    }
}

/// What the scene answered to a ray.
#[derive(Clone, Copy, Debug, PartialEq, Eq, Structural)]
pub enum Event {
    Miss,
    Hit,
}

/// What the tracer does next.
#[derive(Clone, Copy, Debug, PartialEq, Eq, Structural)]
pub enum Action {
    /// The colour gathered so far is the result.
    Finish,
    /// Follow the ray that leaves the hit point along the normal, and add
    /// what it gathers.
    Bounce,
}

/// The state of one trace: the depth of the ray in flight, and whether the
/// trace has ended.
#[derive(Clone, Copy, Debug, PartialEq, Eq, Structural)]
pub struct Tracer {
    pub depth: u32,
    pub finished: bool,
}

impl Tracer {
    /// The state after an event. A miss ends the trace. A hit below the
    /// greatest depth sends a ray one level deeper; a hit at that depth, or
    /// beyond, ends the trace. Nothing moves a trace that has ended.
    pub open spec fn after(self, event: Event) -> Tracer {
        if self.finished {
            self
        } else if event == Event::Hit && self.depth < MAX_DEPTH {
            Tracer { depth: (self.depth + 1) as u32, finished: false }
        } else {
            Tracer { depth: self.depth, finished: true }
        }
    }

    /// The action that an event calls for.
    pub open spec fn answer(self, event: Event) -> Action {
        if !self.finished && event == Event::Hit && self.depth < MAX_DEPTH {
            Action::Bounce
        } else {
            Action::Finish
        }
    }

    /// The rays that may still follow the one in flight.
    pub open spec fn bounces_left(self) -> nat {
        if self.finished || self.depth >= MAX_DEPTH {
            0
        } else {
            (MAX_DEPTH - self.depth) as nat
        }
    }

    /// A trace whose first ray has the given depth.
    pub fn new(depth: u32) -> (tracer: Tracer)
        ensures
            tracer.depth == depth,
            !tracer.finished,
    {
        Tracer { depth, finished: false }
    }

    pub fn depth(&self) -> (depth: u32)
        ensures
            depth == self.depth,
    {
        self.depth
    }

    pub fn is_finished(&self) -> (finished: bool)
        ensures
            finished == self.finished,
    {
        self.finished
    }

    /// Takes the scene's answer to the ray in flight and says what to do.
    pub fn step(&mut self, event: Event) -> (action: Action)
        ensures
            *final(self) == old(self).after(event),
            action == old(self).answer(event),
            action == Action::Bounce ==> final(self).bounces_left() < old(self).bounces_left(),
            action == Action::Finish ==> final(self).finished,
    {
        if self.finished {
            return Action::Finish;
        }
        match event {
            Event::Hit => {
                if self.depth < MAX_DEPTH {
                    self.depth = self.depth + 1;
                    Action::Bounce
                } else {
                    self.finished = true;
                    Action::Finish
                }
            },
            Event::Miss => {
                self.finished = true;
                Action::Finish
            },
        }
    }
}

/// The state after a row of events.
pub open spec fn run(start: Tracer, events: Seq<Event>) -> Tracer
    decreases events.len(),
{
    if events.len() == 0 {
        start
    } else {
        run(start, events.drop_last()).after(events.last())
    }
}

/// A trace that starts at depth 0 never goes deeper than the greatest depth,
/// and has ended once the scene has answered more rays than that depth:
/// four rays at most are cast for one pixel.
pub proof fn lemma_trace_is_bounded(events: Seq<Event>)
    ensures
        run(Tracer { depth: 0, finished: false }, events).depth <= MAX_DEPTH,
        run(Tracer { depth: 0, finished: false }, events).depth <= events.len(),
        events.len() > MAX_DEPTH ==> run(Tracer { depth: 0, finished: false }, events).finished,
    decreases events.len(),
{
    let start = Tracer { depth: 0, finished: false };
    if events.len() > 0 {
        lemma_trace_is_bounded(events.drop_last());
        if !run(start, events.drop_last()).finished {
            lemma_live_trace_saw_only_hits(start, events.drop_last());
        }
    }
}

/// While a trace has not ended, every event was a hit and each took the ray
/// one level deeper.
pub proof fn lemma_live_trace_saw_only_hits(start: Tracer, events: Seq<Event>)
    requires
        !run(start, events).finished,
    ensures
        run(start, events).depth == start.depth + events.len(),
        forall|i: int| 0 <= i < events.len() ==> events[i] == Event::Hit,
    decreases events.len(),
{
    if events.len() > 0 {
        let front = events.drop_last();
        lemma_live_trace_saw_only_hits(start, front);
        assert forall|i: int| 0 <= i < events.len() implies events[i] == Event::Hit by {
            if i < front.len() {
                assert(front[i] == events[i]);
            }
        }
    }
}

} // verus!
