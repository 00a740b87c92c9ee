use vstd::prelude::*;
use std::collections::VecDeque;
use crate::polar::{add_radials, radial_sum, Radial};
use crate::arithmetic::{difference, from_int, product, quotient, Arithmetic, Op};
use crate::scalar::{Scalar, THOUSAND_BITS, ZERO_BITS};

verus! {

/// Where an agent is on its way: its place, the displacement still to cover
/// towards the waypoint it is heading for, and the waypoints after that.
pub struct Journey {
    pub position: Radial,
    pub current: Option<Radial>,
    pub path: Seq<Radial>,
}

/// The next leg from `position`: the displacement to the first waypoint, which
/// leaves the path; none where the path is empty.
pub open spec fn next_leg(unit: spec_fn(Op) -> Scalar, position: Radial, path: Seq<Radial>) -> (
    Option<Radial>,
    Seq<Radial>,
) {
    if path.len() == 0 {
        (None, path)
    } else {
        (Some(position.displacement_to(unit, path[0])), path.drop_first())
    }
}

/// How many legs a journey still has at most: the one under way and one for
/// each waypoint.
pub open spec fn legs_left(j: Journey) -> nat {
    if j.current is Some {
        j.path.len() + 1
    } else {
        0
    }
}

/// The journey after the agent has moved the distance `budget`.
///
/// While there is distance left and a leg under way: if the distance covers
/// the leg, the agent arrives, the leg's length is taken off the distance, and
/// the next leg starts from the new place; if not, the agent moves the distance
/// along the leg, which gets that much shorter, and stops.
pub open spec fn travelled(unit: spec_fn(Op) -> Scalar, j: Journey, budget: Scalar) -> Journey
    decreases legs_left(j),
{
    if !Scalar::from_bits(ZERO_BITS).lt(budget) || j.current is None {
        j
    } else {
        let leg = j.current->Some_0;
        if leg.radius.le(budget) {
            let position = radial_sum(unit, seq![j.position, leg]);
            let next = next_leg(unit, position, j.path);
            travelled(
                unit,
                Journey { position, current: next.0, path: next.1 },
                difference(unit, budget, leg.radius),
            )
        } else {
            Journey {
                position: radial_sum(
                    unit,
                    seq![j.position, Radial { id: leg.id, radius: budget, angle: leg.angle }],
                ),
                current: Some(
                    Radial { id: leg.id, radius: difference(unit, leg.radius, budget), angle: leg.angle },
                ),
                path: j.path,
            }
        }
    }
}

/// Whether the journey is in one of its two states: at rest, with no leg
/// under way and no waypoint waiting, or travelling, with a leg under way.
pub open spec fn is_state(j: Journey) -> bool {
    j.current is None ==> j.path.len() == 0
}

/// Moving takes a journey from one of its two states to one of them.
pub proof fn lemma_travelled_keeps_state(unit: spec_fn(Op) -> Scalar, j: Journey, budget: Scalar)
    requires
        is_state(j),
    ensures
        is_state(travelled(unit, j, budget)),
    decreases legs_left(j),
{
    if Scalar::from_bits(ZERO_BITS).lt(budget) && j.current is Some {
        let leg = j.current->Some_0;
        if leg.radius.le(budget) {
            let position = radial_sum(unit, seq![j.position, leg]);
            let next = next_leg(unit, position, j.path);
            lemma_travelled_keeps_state(
                unit,
                Journey { position, current: next.0, path: next.1 },
                difference(unit, budget, leg.radius),
            );
        }
    }
}

/// Moving no distance, or less, changes nothing.
pub proof fn lemma_travelled_nowhere(unit: spec_fn(Op) -> Scalar, j: Journey, budget: Scalar)
    requires
        !Scalar::from_bits(ZERO_BITS).lt(budget),
    ensures
        travelled(unit, j, budget) == j,
{
}

/// The microseconds from `last` to `now`; none where the clock ran backwards.
pub open spec fn elapsed(last: u64, now: u64) -> u64 {
    if now >= last {
        (now - last) as u64
    } else {
        0
    }
}

/// The distance that an agent of the given velocity, in distance per
/// millisecond, may cover between two readings of the clock.
pub open spec fn budget_for(unit: spec_fn(Op) -> Scalar, velocity: Scalar, last: u64, now: u64) -> Scalar {
    product(
        unit,
        quotient(unit, from_int(unit, elapsed(last, now)), Scalar::from_bits(THOUSAND_BITS)),
        velocity,
    )
}

/// An entity that moves at constant velocity from waypoint to waypoint.
///
/// `position` is where it last was seen to be. `current_coord`, where there is
/// one, is the displacement still to cover towards the waypoint it is heading
/// for; `path` holds the waypoints after that. The clock is read in
/// microseconds, the velocity is in distance per millisecond.
#[derive(Debug, Clone)]
pub struct Agent {
    pub origin: usize,
    pub position: Radial,
    pub current_coord: Option<Radial>,
    pub path: VecDeque<Radial>,
    pub velocity: Scalar,
    pub last_update: u64,
}

impl Agent {
    /// Whether the agent has nowhere to go.
    pub open spec fn is_idle(&self) -> bool {
        self.current_coord is None && self.path@.len() == 0
    }

    /// Whether the agent is at rest or travelling, and nothing in between: it
    /// has no waypoint waiting without a leg under way.
    pub open spec fn well_formed(&self) -> bool {
        is_state(self.journey())
    }

    /// Where the agent is on its way.
    pub open spec fn journey(&self) -> Journey {
        Journey { position: self.position, current: self.current_coord, path: self.path@ }
    }

    /// An idle agent at `position`, as of the clock reading `now`.
    pub fn new(origin: usize, position: Radial, velocity: Scalar, now: u64) -> (r: Agent)
        ensures
            r.origin == origin,
            r.position == position,
            r.velocity == velocity,
            r.last_update == now,
            r.is_idle(),
            r.well_formed(),
    {
        Agent { origin, position, current_coord: None, path: VecDeque::new(), velocity, last_update: now }
    }

    /// Starts the leg to the next waypoint, or comes to rest where there is
    /// none.
    fn path_next<F: Fn(Op) -> Scalar>(&mut self, unit: &Arithmetic<F>)
        ensures
            final(self).origin == old(self).origin,
            final(self).position == old(self).position,
            final(self).velocity == old(self).velocity,
            final(self).last_update == old(self).last_update,
            final(self).current_coord == next_leg(unit.answers(), old(self).position, old(self).path@).0,
            final(self).path@ == next_leg(unit.answers(), old(self).position, old(self).path@).1,
    {
        match self.path.pop_front() {
            None => {
                self.current_coord = None;
            },
            Some(next) => {
                assert(self.path@ =~= old(self).path@.drop_first());
                self.current_coord = Some(self.position.subtract(&next, unit));
            },
        }
    }

    /// Moves the agent by what the clock says has passed since the last
    /// reading. An idle agent stays as it is, its clock too.
    fn update_position<F: Fn(Op) -> Scalar>(&mut self, now: u64, unit: &Arithmetic<F>)
        ensures
            final(self).origin == old(self).origin,
            final(self).velocity == old(self).velocity,
            old(self).is_idle() ==> final(self).last_update == old(self).last_update && final(self).journey()
                == old(self).journey(),
            !old(self).is_idle() ==> final(self).last_update == now && final(self).journey() == travelled(
                unit.answers(),
                old(self).journey(),
                budget_for(unit.answers(), old(self).velocity, old(self).last_update, now),
            ),
    {
        if self.current_coord.is_none() && self.path.len() == 0 {
            assert(self.journey() == old(self).journey());
            return ;
        }
        let micros: u64 = if now >= self.last_update {
            now - self.last_update
        } else {
            0
        };
        let millis = unit.apply(Op::Div(unit.apply(Op::FromInt(micros)), Scalar::from_bits(THOUSAND_BITS)));
        self.last_update = now;
        let mut distance_to_travel = unit.apply(Op::Mul(millis, self.velocity));
        let ghost goal = travelled(unit.answers(), old(self).journey(), distance_to_travel);
        let zero = Scalar::from_bits(ZERO_BITS);
        while zero.lt(distance_to_travel) && self.current_coord.is_some()
            invariant
                zero == Scalar::from_bits(ZERO_BITS),
                self.origin == old(self).origin,
                self.velocity == old(self).velocity,
                self.last_update == now,
                goal == travelled(unit.answers(), self.journey(), distance_to_travel),
            decreases
                    legs_left(self.journey()),
                    (if zero.lt(distance_to_travel) {
                        1nat
                    } else {
                        0nat
                    }),
        {
            let leg = self.current_coord.unwrap();
            let mut radials: Vec<Radial> = Vec::new();
            radials.push(self.position);
            if leg.radius.le(distance_to_travel) {
                radials.push(leg);
                assert(radials@ =~= seq![self.position, leg]);
                self.position = add_radials(&radials, unit);
                distance_to_travel = unit.apply(Op::Sub(distance_to_travel, leg.radius));
                self.path_next(unit);
            } else {
                radials.push(Radial { id: leg.id, radius: distance_to_travel, angle: leg.angle });
                assert(radials@ =~= seq![
                    self.position,
                    Radial { id: leg.id, radius: distance_to_travel, angle: leg.angle },
                ]);
                self.position = add_radials(&radials, unit);
                self.current_coord = Some(
                    Radial {
                        id: leg.id,
                        radius: unit.apply(Op::Sub(leg.radius, distance_to_travel)),
                        angle: leg.angle,
                    },
                );
                distance_to_travel = zero;
            }
        }
    }

    /// Adds a waypoint. An agent without a leg under way sets out at once for
    /// the first waypoint of its path.
    pub fn send_position<F: Fn(Op) -> Scalar>(&mut self, position: &Radial, unit: &Arithmetic<F>)
        ensures
            final(self).origin == old(self).origin,
            final(self).position == old(self).position,
            final(self).velocity == old(self).velocity,
            final(self).last_update == old(self).last_update,
            old(self).current_coord is Some ==> final(self).current_coord == old(self).current_coord
                && final(self).path@ == old(self).path@.push(*position),
            old(self).current_coord is None ==> final(self).current_coord == next_leg(
                unit.answers(),
                old(self).position,
                old(self).path@.push(*position),
            ).0 && final(self).path@ == next_leg(unit.answers(), old(self).position, old(self).path@.push(*position)).1,
            final(self).current_coord is Some,
            old(self).well_formed() ==> final(self).well_formed(),
    {
        self.path.push_back(*position);
        if self.current_coord.is_none() {
            self.path_next(unit);
        }
    }

    /// Where the agent is at the clock reading `now`.
    ///
    /// An idle agent is where it was, and its clock is not touched. Otherwise
    /// the agent has moved, along its legs, the distance that its velocity
    /// covers in the time since the last reading (see [`travelled`]), and the
    /// clock stands at `now`. A clock that ran backwards counts as no time.
    pub fn get_position<F: Fn(Op) -> Scalar>(&mut self, now: u64, unit: &Arithmetic<F>) -> (r: Radial)
        ensures
            r == final(self).position,
            final(self).origin == old(self).origin,
            final(self).velocity == old(self).velocity,
            old(self).is_idle() ==> final(self).last_update == old(self).last_update && final(self).journey()
                == old(self).journey(),
            !old(self).is_idle() ==> final(self).last_update == now && final(self).journey() == travelled(
                unit.answers(),
                old(self).journey(),
                budget_for(unit.answers(), old(self).velocity, old(self).last_update, now),
            ),
            old(self).well_formed() ==> final(self).well_formed(),
    {
        proof {
            if old(self).well_formed() {
                lemma_travelled_keeps_state(
                    unit.answers(),
                    old(self).journey(),
                    budget_for(unit.answers(), old(self).velocity, old(self).last_update, now),
                );
            }
        }
        self.update_position(now, unit);
        self.position
    }
}

} // verus!
