use vstd::prelude::*;
use std::collections::hash_map::Entry;
use std::collections::HashMap;
use crate::error::ResolveError;
use crate::identity::{contains_id, first_position, lemma_first_position_unique, Identity};
use crate::matrix::{check_square, is_square, rows};
use crate::arithmetic::{
    arccosine, arcsine, cosine, difference, product, quotient, root, sine, square, sum, Arithmetic,
    Op,
};
use crate::scalar::{
    clamp_unit, Scalar, DEGREES_PER_RADIAN_BITS, PI_BITS, TOLERANCE_BITS, TWO_BITS, ZERO_BITS,
};

verus! {

/// The quarter of the plane that a point lies in.
#[derive(Clone, Copy, PartialEq, Eq, Structural, Debug)]
pub enum Quadrant {
    TopRight,
    TopLeft,
    BottomLeft,
    BottomRight,
}

/// A vector from the shared origin to `id`, in polar form.
#[derive(Clone, Copy, PartialEq, Eq, Structural, Debug)]
pub struct Radial {
    pub id: Identity,
    pub radius: Scalar,
    pub angle: Scalar,
}

/// The quarter that `(x, y)` lies in. A point on an axis belongs to the first
/// quarter, in the order written, whose test it passes.
pub open spec fn quadrant_of(x: Scalar, y: Scalar) -> Quadrant {
    let zero = Scalar::from_bits(ZERO_BITS);
    if zero.le(x) && zero.le(y) {
        Quadrant::TopRight
    } else if x.lt(zero) && y.lt(zero) {
        Quadrant::BottomLeft
    } else if x.lt(zero) {
        Quadrant::TopLeft
    } else if y.lt(zero) {
        Quadrant::BottomRight
    } else {
        Quadrant::TopRight
    }
}

/// Tells the quarter that `(x, y)` lies in.
pub fn get_quadrant_from_cartesian(x: Scalar, y: Scalar) -> (q: Quadrant)
    ensures
        q == quadrant_of(x, y),
{
    let zero = Scalar::from_bits(ZERO_BITS);
    if zero.le(x) && zero.le(y) {
        return Quadrant::TopRight;
    }
    if x.lt(zero) && y.lt(zero) {
        return Quadrant::BottomLeft;
    }
    if x.lt(zero) {
        return Quadrant::TopLeft;
    }
    if y.lt(zero) {
        return Quadrant::BottomRight;
    }
    Quadrant::TopRight
}

/// The cartesian components of the vector with the given radius and angle:
/// `(radius * cos(angle), radius * sin(angle))`.
pub open spec fn cartesian_of(unit: spec_fn(Op) -> Scalar, radius: Scalar, angle: Scalar) -> (
    Scalar,
    Scalar,
) {
    (product(unit, radius, cosine(unit, angle)), product(unit, radius, sine(unit, angle)))
}

/// The polar form of the cartesian vector `(x, y)`, labelled `id`.
///
/// The radius is `sqrt(x * x + y * y)`. The angle is `asin(y / radius)`, its
/// argument held to the interval from -1 to 1, and then set right for the
/// quarter of `(x, y)`. A vector of radius zero has no direction: its angle
/// starts from 0.
pub open spec fn polar_of(unit: spec_fn(Op) -> Scalar, id: Identity, x: Scalar, y: Scalar) -> Radial {
    let radius = root(unit, sum(unit, square(unit, x), square(unit, y)));
    let raw = if radius.is_zero() {
        Scalar::from_bits(ZERO_BITS)
    } else {
        arcsine(unit, clamp_unit(quotient(unit, y, radius)))
    };
    let pi = Scalar::from_bits(PI_BITS);
    Radial {
        id,
        radius,
        angle: match quadrant_of(x, y) {
            Quadrant::TopRight => raw,
            Quadrant::TopLeft => difference(unit, pi, raw),
            Quadrant::BottomLeft => sum(unit, raw.abs(), pi),
            Quadrant::BottomRight => raw,
        },
    }
}

/// Converts the cartesian vector `(x, y)` to polar form.
pub fn to_polar<F: Fn(Op) -> Scalar>(id: Identity, x: Scalar, y: Scalar, unit: &Arithmetic<F>) -> (r: Radial)
    ensures
        r == polar_of(unit.answers(), id, x, y),
{
    let xx = unit.apply(Op::Mul(x, x));
    let yy = unit.apply(Op::Mul(y, y));
    let radius = unit.apply(Op::Sqrt(unit.apply(Op::Add(xx, yy))));
    let raw = if radius.is_zero() {
        Scalar::from_bits(ZERO_BITS)
    } else {
        unit.apply(Op::Asin(clamp_unit(unit.apply(Op::Div(y, radius)))))
    };
    let pi = Scalar::from_bits(PI_BITS);
    let angle = match get_quadrant_from_cartesian(x, y) {
        Quadrant::TopRight => raw,
        Quadrant::TopLeft => unit.apply(Op::Sub(pi, raw)),
        Quadrant::BottomLeft => unit.apply(Op::Add(raw.abs(), pi)),
        Quadrant::BottomRight => raw,
    };
    Radial { id, radius, angle }
}

/// The angle opposite side `c` in the triangle with sides `a`, `b`, `c`, by the
/// law of cosines: `acos((a*a + b*b - c*c) / (2*a*b))`, the argument held to
/// the interval from -1 to 1. A triangle with a side of length zero has angle 0.
pub open spec fn triangle_angle(unit: spec_fn(Op) -> Scalar, a: Scalar, b: Scalar, c: Scalar) -> Scalar {
    if a.is_zero() || b.is_zero() || c.is_zero() {
        Scalar::from_bits(ZERO_BITS)
    } else {
        let top = difference(unit, sum(unit, square(unit, a), square(unit, b)), square(unit, c));
        let bottom = product(unit, product(unit, Scalar::from_bits(TWO_BITS), a), b);
        arccosine(unit, clamp_unit(quotient(unit, top, bottom)))
    }
}

/// Computes the angle opposite side `c` in the triangle with sides `a`, `b`,
/// `c`.
pub fn get_unknown_triangle_angle<F: Fn(Op) -> Scalar>(a: Scalar, b: Scalar, c: Scalar, unit: &Arithmetic<F>) -> (r:
    Scalar)
    ensures
        r == triangle_angle(unit.answers(), a, b, c),
{
    if a.is_zero() || b.is_zero() || c.is_zero() {
        return Scalar::from_bits(ZERO_BITS);
    }
    let aa = unit.apply(Op::Mul(a, a));
    let bb = unit.apply(Op::Mul(b, b));
    let cc = unit.apply(Op::Mul(c, c));
    let top = unit.apply(Op::Sub(unit.apply(Op::Add(aa, bb)), cc));
    let two_a = unit.apply(Op::Mul(Scalar::from_bits(TWO_BITS), a));
    let bottom = unit.apply(Op::Mul(two_a, b));
    unit.apply(Op::Acos(clamp_unit(unit.apply(Op::Div(top, bottom)))))
}

/// The side opposite the angle `theta` between sides `a` and `b`, by the law of
/// cosines: `sqrt(a*a + b*b - 2*a*b*cos(theta))`. With `theta` zero it is
/// `|a - b|`; otherwise, with `a` or `b` zero, it is 0.
pub open spec fn triangle_side(unit: spec_fn(Op) -> Scalar, a: Scalar, b: Scalar, theta: Scalar) -> Scalar {
    if theta.is_zero() {
        difference(unit, a, b).abs()
    } else if a.is_zero() || b.is_zero() {
        Scalar::from_bits(ZERO_BITS)
    } else {
        let squares = sum(unit, square(unit, a), square(unit, b));
        let twice = product(unit, product(unit, Scalar::from_bits(TWO_BITS), a), b);
        root(unit, difference(unit, squares, product(unit, twice, cosine(unit, theta))))
    }
}

/// Computes the side opposite the angle `theta` between sides `a` and `b`.
pub fn get_unknown_triangle_side<F: Fn(Op) -> Scalar>(a: Scalar, b: Scalar, theta: Scalar, unit: &Arithmetic<F>) -> (r:
    Scalar)
    ensures
        r == triangle_side(unit.answers(), a, b, theta),
{
    if theta.is_zero() {
        return unit.apply(Op::Sub(a, b)).abs();
    }
    if a.is_zero() || b.is_zero() {
        return Scalar::from_bits(ZERO_BITS);
    }
    let aa = unit.apply(Op::Mul(a, a));
    let bb = unit.apply(Op::Mul(b, b));
    let two_a = unit.apply(Op::Mul(Scalar::from_bits(TWO_BITS), a));
    let two_ab = unit.apply(Op::Mul(two_a, b));
    let turn = unit.apply(Op::Mul(two_ab, unit.apply(Op::Cos(theta))));
    unit.apply(Op::Sqrt(unit.apply(Op::Sub(unit.apply(Op::Add(aa, bb)), turn))))
}

/// The sum of the first components of `radials`, taken from the left,
/// starting from 0.
pub open spec fn total_x(unit: spec_fn(Op) -> Scalar, radials: Seq<Radial>) -> Scalar
    decreases radials.len(),
{
    if radials.len() == 0 {
        Scalar::from_bits(ZERO_BITS)
    } else {
        sum(
            unit,
            total_x(unit, radials.drop_last()),
            cartesian_of(unit, radials.last().radius, radials.last().angle).0,
        )
    }
}

/// The sum of the second components of `radials`, taken from the left,
/// starting from 0.
pub open spec fn total_y(unit: spec_fn(Op) -> Scalar, radials: Seq<Radial>) -> Scalar
    decreases radials.len(),
{
    if radials.len() == 0 {
        Scalar::from_bits(ZERO_BITS)
    } else {
        sum(
            unit,
            total_y(unit, radials.drop_last()),
            cartesian_of(unit, radials.last().radius, radials.last().angle).1,
        )
    }
}

/// The vector sum of `radials`, labelled as the first of them.
pub open spec fn radial_sum(unit: spec_fn(Op) -> Scalar, radials: Seq<Radial>) -> Radial
    recommends
        radials.len() > 0,
{
    polar_of(unit, radials[0].id, total_x(unit, radials), total_y(unit, radials))
}

/// Adds the vectors `radials`. The sum carries the label of the first.
pub fn add_radials<F: Fn(Op) -> Scalar>(radials: &Vec<Radial>, unit: &Arithmetic<F>) -> (r: Radial)
    requires
        radials.len() > 0,
    ensures
        r == radial_sum(unit.answers(), radials@),
{
    let mut x = Scalar::from_bits(ZERO_BITS);
    let mut y = Scalar::from_bits(ZERO_BITS);
    let id = radials[0].id;
    let mut i: usize = 0;
    while i < radials.len()
        invariant
            i <= radials.len(),
            x == total_x(unit.answers(), radials@.take(i as int)),
            y == total_y(unit.answers(), radials@.take(i as int)),
        decreases radials.len() - i,
    {
        let (dx, dy) = radials[i].get_cartesian(unit);
        proof {
            assert(radials@.take(i + 1).drop_last() =~= radials@.take(i as int));
        }
        x = unit.apply(Op::Add(x, dx));
        y = unit.apply(Op::Add(y, dy));
        i += 1;
    }
    proof {
        assert(radials@.take(radials.len() as int) =~= radials@);
    }
    to_polar(id, x, y, unit)
}

impl Radial {
    /// The vector of length zero, labelled `id`.
    pub fn empty(id: Identity) -> (r: Radial)
        ensures
            r == (Radial { id, radius: Scalar::from_bits(ZERO_BITS), angle: Scalar::from_bits(ZERO_BITS) }),
    {
        Radial { id, radius: Scalar::from_bits(ZERO_BITS), angle: Scalar::from_bits(ZERO_BITS) }
    }

    /// The place of a node at distance `b` from the origin, where the axis node
    /// is at distance `a` from the origin and `c` from the node.
    pub fn from_distances<F: Fn(Op) -> Scalar>(
        id: Identity,
        a: Scalar,
        b: Scalar,
        c: Scalar,
        unit: &Arithmetic<F>,
    ) -> (r: Radial)
        ensures
            r == (Radial { id, radius: b, angle: triangle_angle(unit.answers(), a, b, c) }),
    {
        Radial { id, radius: b, angle: get_unknown_triangle_angle(a, b, c, unit) }
    }

    /// The same vector with its angle in degrees.
    pub fn to_degrees<F: Fn(Op) -> Scalar>(&self, unit: &Arithmetic<F>) -> (r: Radial)
        ensures
            r == (Radial {
                id: self.id,
                radius: self.radius,
                angle: product(unit.answers(), self.angle, Scalar::from_bits(DEGREES_PER_RADIAN_BITS)),
            }),
    {
        Radial {
            id: self.id,
            radius: self.radius,
            angle: unit.apply(Op::Mul(self.angle, Scalar::from_bits(DEGREES_PER_RADIAN_BITS))),
        }
    }

    /// The cartesian components of the vector.
    pub fn get_cartesian<F: Fn(Op) -> Scalar>(&self, unit: &Arithmetic<F>) -> (r: (Scalar, Scalar))
        ensures
            r == cartesian_of(unit.answers(), self.radius, self.angle),
    {
        let x = unit.apply(Op::Mul(self.radius, unit.apply(Op::Cos(self.angle))));
        let y = unit.apply(Op::Mul(self.radius, unit.apply(Op::Sin(self.angle))));
        (x, y)
    }

    /// The displacement that leads from `self` to `other`, labelled as `self`.
    pub open spec fn displacement_to(self, unit: spec_fn(Op) -> Scalar, other: Radial) -> Radial {
        let s = cartesian_of(unit, self.radius, self.angle);
        let o = cartesian_of(unit, other.radius, other.angle);
        polar_of(unit, self.id, difference(unit, o.0, s.0), difference(unit, o.1, s.1))
    }

    /// The displacement that leads from `self` to `other`: what is to be
    /// added to `self` to arrive at `other`. It carries the label of `self`.
    pub fn subtract<F: Fn(Op) -> Scalar>(&self, other: &Radial, unit: &Arithmetic<F>) -> (r: Radial)
        ensures
            r == self.displacement_to(unit.answers(), *other),
    {
        let (s_x, s_y) = self.get_cartesian(unit);
        let (o_x, o_y) = other.get_cartesian(unit);
        let x = unit.apply(Op::Sub(o_x, s_x));
        let y = unit.apply(Op::Sub(o_y, s_y));
        to_polar(self.id, x, y, unit)
    }
}

/// The labels of a calibration list, in its order.
pub open spec fn labels(calibration: Seq<(Identity, Scalar)>) -> Seq<Identity> {
    Seq::new(calibration.len(), |i: int| calibration[i].0)
}

/// Where one pass of the resolver puts node `i`: at its distance from the
/// origin, and at the angle that the law of cosines gives for the triangle of
/// origin, axis node and node `i`.
pub open spec fn pass_entry(
    unit: spec_fn(Op) -> Scalar,
    calibration: Seq<(Identity, Scalar)>,
    d: Seq<Seq<Scalar>>,
    axis: int,
    i: int,
) -> Radial {
    Radial {
        id: calibration[i].0,
        radius: d[0][i],
        angle: triangle_angle(unit, d[0][axis], d[0][i], d[axis][i]),
    }
}

/// The radials that one pass has laid down after the first `k` nodes.
///
/// The axis node lies at angle 0. Every node whose label is not in `skip` is
/// then placed in turn by [`pass_entry`]; a label that occurs again replaces
/// what it held.
pub open spec fn pass_radials(
    unit: spec_fn(Op) -> Scalar,
    calibration: Seq<(Identity, Scalar)>,
    d: Seq<Seq<Scalar>>,
    axis: int,
    skip: Seq<Identity>,
    k: int,
) -> Map<Identity, Radial>
    decreases k,
{
    if k <= 0 {
        Map::<Identity, Radial>::empty().insert(
            calibration[axis].0,
            Radial {
                id: calibration[axis].0,
                radius: calibration[axis].1,
                angle: Scalar::from_bits(ZERO_BITS),
            },
        )
    } else {
        let rest = pass_radials(unit, calibration, d, axis, skip, k - 1);
        if skip.contains(calibration[k - 1].0) {
            rest
        } else {
            rest.insert(calibration[k - 1].0, pass_entry(unit, calibration, d, axis, k - 1))
        }
    }
}

/// The angle that reconciliation settles on for a node.
///
/// `first` is the node's angle from the first pass, `offset` the angle of the
/// second axis in the first pass, and `second` the node's angle from the second
/// pass. Where `first` lies within the tolerance of `offset + second` it
/// stands; otherwise the node lies on the other side, at `offset - second`.
pub open spec fn reconciled_angle(
    unit: spec_fn(Op) -> Scalar,
    first: Scalar,
    offset: Scalar,
    second: Scalar,
) -> Scalar {
    if difference(unit, first, sum(unit, offset, second)).abs().lt(Scalar::from_bits(TOLERANCE_BITS)) {
        first
    } else {
        difference(unit, offset, second)
    }
}

/// A snapshot of resolved places: each node's vector from the origin node.
#[derive(Clone, Debug)]
pub struct PolarCoordinates {
    pub origin: Identity,
    pub radials: HashMap<Identity, Radial>,
}

impl View for PolarCoordinates {
    type V = Map<Identity, Radial>;

    open spec fn view(&self) -> Map<Identity, Radial> {
        self.radials@
    }
}

impl PolarCoordinates {
    /// A snapshot round `origin` that holds no place yet.
    pub fn new(origin: Identity) -> (r: PolarCoordinates)
        ensures
            r.origin == origin,
            r@ == Map::<Identity, Radial>::empty(),
    {
        PolarCoordinates { origin, radials: HashMap::new() }
    }

    /// One pass of the resolver: every node of `calibration` whose label is not
    /// in `skip_ids` is placed against the axis node `calibration_id`.
    ///
    /// Fails with `DimensionMismatch` unless `distance_vec` is square and as
    /// long as `calibration`, and with `MissingNode` when `calibration` does
    /// not hold `calibration_id`.
    pub fn from_distances<F: Fn(Op) -> Scalar>(
        origin: Identity,
        calibration_id: Identity,
        skip_ids: Vec<Identity>,
        calibration: &Vec<(Identity, Scalar)>,
        distance_vec: &Vec<Vec<Scalar>>,
        unit: &Arithmetic<F>,
    ) -> (r: Result<PolarCoordinates, ResolveError>)
        ensures
            match r {
                Ok(p) => {
                    &&& is_square(rows(distance_vec), calibration@.len() as int)
                    &&& labels(calibration@).contains(calibration_id)
                    &&& p.origin == origin
                    &&& p@ == pass_radials(
                        unit.answers(),
                        calibration@,
                        rows(distance_vec),
                        first_position(labels(calibration@), calibration_id),
                        skip_ids@,
                        calibration@.len() as int,
                    )
                },
                Err(e) => if is_square(rows(distance_vec), calibration@.len() as int) {
                    e == ResolveError::MissingNode && !labels(calibration@).contains(calibration_id)
                } else {
                    e == ResolveError::DimensionMismatch
                },
            },
    {
        let n = calibration.len();
        if distance_vec.len() != n || !check_square(distance_vec) {
            return Err(ResolveError::DimensionMismatch);
        }
        let mut axis: usize = 0;
        while axis < n && calibration[axis].0 != calibration_id
            invariant
                axis <= n,
                n == calibration@.len(),
                forall|j: int| 0 <= j < axis ==> labels(calibration@)[j] != calibration_id,
            decreases n - axis,
        {
            axis += 1;
        }
        if axis == n {
            assert(!labels(calibration@).contains(calibration_id));
            return Err(ResolveError::MissingNode);
        }
        proof {
            assert(labels(calibration@)[axis as int] == calibration_id);
            lemma_first_position_unique(labels(calibration@), calibration_id, axis as int);
        }
        let mut output = PolarCoordinates::new(origin);
        output.add_radial(
            Radial { id: calibration[axis].0, radius: calibration[axis].1, angle: Scalar::from_bits(ZERO_BITS) },
        );
        let mut i: usize = 0;
        while i < n
            invariant
                i <= n,
                axis < n,
                n == calibration@.len(),
                is_square(rows(distance_vec), n as int),
                output.origin == origin,
                output@ == pass_radials(
                    unit.answers(),
                    calibration@,
                    rows(distance_vec),
                    axis as int,
                    skip_ids@,
                    i as int,
                ),
            decreases n - i,
        {
            if !contains_id(&skip_ids, calibration[i].0) {
                assert(rows(distance_vec)[0].len() == n);
                assert(rows(distance_vec)[axis as int].len() == n);
                let a = distance_vec[0][axis];
                let b = distance_vec[0][i];
                let c = distance_vec[axis][i];
                output.add_b_edge(calibration[i].0, a, b, c, unit);
            }
            i += 1;
        }
        Ok(output)
    }

    /// Puts `r` at the place of its label, instead of what stood there.
    pub fn add_radial(&mut self, r: Radial)
        ensures
            final(self).origin == old(self).origin,
            final(self)@ == old(self)@.insert(r.id, r),
    {
        broadcast use vstd::std_specs::hash::group_hash_axioms;

        self.radials.insert(r.id, r);
    }

    /// Places `id` at distance `b` from the origin, at the angle of the
    /// triangle with sides `a`, `b`, `c`.
    pub fn add_b_edge<F: Fn(Op) -> Scalar>(
        &mut self,
        id: Identity,
        a: Scalar,
        b: Scalar,
        c: Scalar,
        unit: &Arithmetic<F>,
    )
        ensures
            final(self).origin == old(self).origin,
            final(self)@ == old(self)@.insert(
                id,
                (Radial { id, radius: b, angle: triangle_angle(unit.answers(), a, b, c) }),
            ),
    {
        broadcast use vstd::std_specs::hash::group_hash_axioms;

        self.radials.insert(id, Radial::from_distances(id, a, b, c, unit));
    }

    /// The place of `key`, where it has one.
    pub fn get(&self, key: &Identity) -> (r: Option<&Radial>)
        ensures
            match r {
                Some(v) => self@.contains_key(*key) && *v == self@[*key],
                None => !self@.contains_key(*key),
            },
    {
        broadcast use vstd::std_specs::hash::group_hash_axioms;

        self.radials.get(key)
    }

    /// The place of `key`, to be changed where it stands.
    pub fn get_mut(&mut self, key: &Identity) -> (r: Option<&mut Radial>)
        ensures
            final(self).origin == old(self).origin,
            match r {
                Some(place) => {
                    &&& old(self)@.contains_key(*key)
                    &&& *place == old(self)@[*key]
                    &&& final(self)@ == old(self)@.insert(*key, *final(place))
                },
                None => !old(self)@.contains_key(*key) && final(self)@ == old(self)@,
            },
    {
        broadcast use vstd::std_specs::hash::group_hash_axioms;

        match self.radials.entry(*key) {
            Entry::Occupied(found) => Some(found.into_mut()),
            Entry::Vacant(_) => {
                assert(old(self)@.remove(*key) =~= old(self)@);
                None
            },
        }
    }

    /// Settles the sign of the angle of `id` against a second pass, in which
    /// `radial` is the place of `id` and `offset_angle` the first-pass angle of
    /// the second axis (see [`reconciled_angle`]).
    ///
    /// Fails with `MissingNode`, changing nothing, when `id` has no place yet.
    pub fn reconcile_radial<F: Fn(Op) -> Scalar>(
        &mut self,
        offset_angle: Scalar,
        id: Identity,
        radial: &Radial,
        unit: &Arithmetic<F>,
    ) -> (r: Result<(), ResolveError>)
        ensures
            final(self).origin == old(self).origin,
            match r {
                Ok(_) => {
                    &&& old(self)@.contains_key(id)
                    &&& final(self)@ == old(self)@.insert(
                        id,
                        (Radial {
                            id: old(self)@[id].id,
                            radius: old(self)@[id].radius,
                            angle: reconciled_angle(unit.answers(), old(self)@[id].angle, offset_angle, radial.angle),
                        }),
                    )
                },
                Err(e) => {
                    &&& e == ResolveError::MissingNode
                    &&& !old(self)@.contains_key(id)
                    &&& final(self)@ == old(self)@
                },
            },
    {
        broadcast use vstd::std_specs::hash::group_hash_axioms;

        match self.get_mut(&id) {
            None => Err(ResolveError::MissingNode),
            Some(test_radial) => {
                let pos_angle = unit.apply(Op::Add(offset_angle, radial.angle));
                let neg_angle = unit.apply(Op::Sub(offset_angle, radial.angle));
                let gap = unit.apply(Op::Sub(test_radial.angle, pos_angle)).abs();
                if !gap.lt(Scalar::from_bits(TOLERANCE_BITS)) {
                    test_radial.angle = neg_angle;
                }
                Ok(())
            },
        }
    }
}

} // verus!
