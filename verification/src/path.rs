//! The depth budget of a light path.
//!
//! A path starts with a depth: the number of surfaces it may meet. Each meeting
//! is reported as an event. A miss ends the path under the sky, an absorption
//! ends it in black, and a scatter takes one from the depth and goes on, until
//! the depth is used up and the path ends in black.

use vstd::prelude::*;

verus! {

/// What a ray met.
#[derive(Clone, Copy, Debug, PartialEq, Eq, Structural)]
pub enum Event {
    /// The ray left the world without a hit.
    Miss,
    /// The ray hit a surface that scattered no ray.
    Absorbed,
    /// The ray hit a surface that scattered an attenuated ray.
    Scattered,
}

/// How a finished path is coloured.
#[derive(Clone, Copy, Debug, PartialEq, Eq, Structural)]
pub enum Shade {
    /// Black, whatever was gathered on the way.
    Black,
    /// The background at the last ray, attenuated by every scatter on the way.
    Sky,
}

/// The state of a path: the depth that is left, and the shade once it has ended.
pub struct State {
    pub remaining: nat,
    pub shade: Option<Shade>,
}

/// The state of a fresh path of the given depth.
pub open spec fn start(depth: nat) -> State {
    if depth == 0 {
        State { remaining: 0, shade: Some(Shade::Black) }
    } else {
        State { remaining: depth, shade: None }
    }
}

/// The state after one event. A finished path stays as it is.
pub open spec fn step(s: State, event: Event) -> State {
    if s.shade is Some {
        s
    } else {
        match event {
            Event::Miss => State { remaining: s.remaining, shade: Some(Shade::Sky) },
            Event::Absorbed => State { remaining: s.remaining, shade: Some(Shade::Black) },
            Event::Scattered => if s.remaining <= 1 {
                State { remaining: 0, shade: Some(Shade::Black) }
            } else {
                State { remaining: (s.remaining - 1) as nat, shade: None }
            },
        }
    }
}

/// The state after a sequence of events, the first of them first.
pub open spec fn replay(s: State, events: Seq<Event>) -> State
    decreases events.len(),
{
    if events.len() == 0 {
        s
    } else {
        replay(step(s, events.first()), events.drop_first())
    }
}

/// The shade of a path by recursion on its depth: a path without depth is
/// black; a miss shows the sky; an absorption is black; and after a scatter
/// the shade is that of the scattered ray's path, of one less depth. `None`
/// for a path that the events leave under way.
pub open spec fn shade_by_recursion(depth: nat, events: Seq<Event>) -> Option<Shade>
    decreases depth,
{
    if depth == 0 {
        Some(Shade::Black)
    } else if events.len() == 0 {
        None
    } else {
        match events.first() {
            Event::Miss => Some(Shade::Sky),
            Event::Absorbed => Some(Shade::Black),
            Event::Scattered => shade_by_recursion((depth - 1) as nat, events.drop_first()),
        }
    }
}

/// A light path with its depth budget.
#[derive(Clone, Copy, Debug)]
pub struct Path {
    remaining: u64,
    shade: Option<Shade>,
}

impl View for Path {
    type V = State;

    closed spec fn view(&self) -> State {
        State { remaining: self.remaining as nat, shade: self.shade }
    }
}

impl Path {
    /// A fresh path that may meet `max_depth` surfaces. With no depth it has
    /// ended in black before any ray is cast.
    pub fn new(max_depth: u64) -> (p: Path)
        ensures
            p@ == start(max_depth as nat),
    {
        if max_depth == 0 {
            Path { remaining: 0, shade: Some(Shade::Black) }
        } else {
            Path { remaining: max_depth, shade: None }
        }
    }

    /// Takes in what the path's current ray met.
    pub fn record(&mut self, event: Event)
        ensures
            final(self)@ == step(old(self)@, event),
    {
        if self.shade.is_none() {
            match event {
                Event::Miss => {
                    self.shade = Some(Shade::Sky);
                },
                Event::Absorbed => {
                    self.shade = Some(Shade::Black);
                },
                Event::Scattered => {
                    if self.remaining <= 1 {
                        self.remaining = 0;
                        self.shade = Some(Shade::Black);
                    } else {
                        self.remaining = self.remaining - 1;
                    }
                },
            }
        }
    }

    /// The shade of the path if it has ended; `None` while a ray is to be cast.
    pub fn shade(&self) -> (r: Option<Shade>)
        ensures
            r == self@.shade,
    {
        self.shade
    }

    /// The depth that is left.
    pub fn remaining(&self) -> (r: u64)
        ensures
            r == self@.remaining,
    {
        self.remaining
    }
}

/// A finished path stays finished, with its shade, whatever follows.
pub proof fn lemma_finished_stays(s: State, events: Seq<Event>)
    requires
        s.shade is Some,
    ensures
        replay(s, events) == s,
    decreases events.len(),
{
    if events.len() > 0 {
        lemma_finished_stays(s, events.drop_first());
    }
}

/// Stepping through the events gives the shade that the recursion on the
/// depth gives.
pub proof fn lemma_steps_give_the_recursion(depth: nat, events: Seq<Event>)
    ensures
        replay(start(depth), events).shade == shade_by_recursion(depth, events),
    decreases depth,
{
    if depth == 0 {
        lemma_finished_stays(start(0), events);
    } else if events.len() > 0 {
        let rest = events.drop_first();
        match events.first() {
            Event::Scattered => {
                lemma_steps_give_the_recursion((depth - 1) as nat, rest);
                assert(step(start(depth), Event::Scattered) == start((depth - 1) as nat));
            },
            _ => {
                lemma_finished_stays(step(start(depth), events.first()), rest);
            },
        }
    }
}

/// A path without depth is black, whatever the world holds.
pub proof fn lemma_no_depth_is_black(events: Seq<Event>)
    ensures
        replay(start(0), events).shade == Some(Shade::Black),
{
    lemma_finished_stays(start(0), events);
}

/// The work of a path is bounded by its depth: once as many events as the
/// depth have been taken in, the path has ended.
pub proof fn lemma_depth_bounds_work(depth: nat, events: Seq<Event>)
    requires
        events.len() >= depth,
    ensures
        replay(start(depth), events).shade is Some,
{
    if depth == 0 {
        lemma_finished_stays(start(0), events);
    } else {
        lemma_ends_within(start(depth), events);
    }
}

proof fn lemma_ends_within(s: State, events: Seq<Event>)
    requires
        s.shade is None ==> events.len() >= s.remaining >= 1,
    ensures
        replay(s, events).shade is Some,
    decreases events.len(),
{
    if s.shade is Some {
        lemma_finished_stays(s, events);
    } else {
        lemma_ends_within(step(s, events.first()), events.drop_first());
    }
}

/// The sky shows only after a miss: a path that ends under the sky has taken in
/// a miss, within its depth, and before it nothing but scatters.
pub proof fn lemma_sky_needs_miss(depth: nat, events: Seq<Event>) -> (k: int)
    requires
        replay(start(depth), events).shade == Some(Shade::Sky),
    ensures
        0 <= k < events.len(),
        k < depth,
        events[k] == Event::Miss,
        forall|j: int| 0 <= j < k ==> events[j] == Event::Scattered,
        replay(start(depth), events).remaining == depth - k,
{
    if depth == 0 {
        lemma_finished_stays(start(0), events);
        0
    } else {
        lemma_sky_after(start(depth), events)
    }
}

proof fn lemma_sky_after(s: State, events: Seq<Event>) -> (k: int)
    requires
        s.shade is None,
        s.remaining >= 1,
        replay(s, events).shade == Some(Shade::Sky),
    ensures
        0 <= k < events.len(),
        k < s.remaining,
        events[k] == Event::Miss,
        forall|j: int| 0 <= j < k ==> events[j] == Event::Scattered,
        replay(s, events).remaining == s.remaining - k,
    decreases events.len(),
{
    let next = step(s, events.first());
    let rest = events.drop_first();
    if next.shade is Some {
        lemma_finished_stays(next, rest);
        0
    } else {
        let k = lemma_sky_after(next, rest);
        assert forall|j: int| 0 <= j < k + 1 implies events[j] == Event::Scattered by {
            if j > 0 {
                assert(events[j] == rest[j - 1]);
            }
        }
        assert(events[k + 1] == rest[k]);
        k + 1
    }
}

} // verus!
