use vstd::prelude::*;
use crate::error::ResolveError;
use crate::identity::{
    find_position, first_position, is_first_position, lemma_first_position_unique, Identity,
};
use crate::matrix::{is_square, rows};
use crate::polar::{
    labels, pass_entry, pass_radials, reconciled_angle, triangle_angle, PolarCoordinates, Radial,
};
use crate::arithmetic::Op;
use crate::scalar::Scalar;

verus! {

/// The calibration list of a distance matrix: every node with its distance
/// from the origin, the node of row 0.
pub open spec fn calibration_of(references: Seq<Identity>, d: Seq<Seq<Scalar>>) -> Seq<(Identity, Scalar)> {
    Seq::new(references.len(), |i: int| (references[i], d[0][i]))
}

/// Which nodes take no part in the second pass.
///
/// A node at distance zero from the origin can be given no angle. A node that
/// the first pass puts at angle zero lies on the first axis, and is flagged at
/// the first place that holds its label.
pub open spec fn skip_flags(references: Seq<Identity>, d: Seq<Seq<Scalar>>, first: Map<Identity, Radial>) -> Seq<
    bool,
> {
    Seq::new(
        references.len(),
        |i: int|
            d[0][i].is_zero() || (first.contains_key(references[i]) && first[references[i]].angle.is_zero()
                && is_first_position(references, references[i], i)),
    )
}

/// Whether `s` is the first node that is not flagged.
pub open spec fn is_second_axis(skip: Seq<bool>, s: int) -> bool {
    &&& 0 <= s < skip.len()
    &&& !skip[s]
    &&& forall|j: int| 0 <= j < s ==> skip[j]
}

/// The first node that is not flagged, where there is one.
pub open spec fn second_axis(skip: Seq<bool>) -> int {
    choose|s: int| is_second_axis(skip, s)
}

/// Only one node is the second axis.
pub proof fn lemma_second_axis_unique(skip: Seq<bool>, s: int)
    requires
        is_second_axis(skip, s),
    ensures
        second_axis(skip) == s,
{
    let c = second_axis(skip);
    assert(is_second_axis(skip, c));
    if c < s {
        assert(skip[c]);
    } else if s < c {
        assert(skip[s]);
    }
}

/// Where a node is not flagged there is a second axis, at that node or before
/// it.
pub proof fn lemma_second_axis_exists(skip: Seq<bool>, w: int) -> (s: int)
    requires
        0 <= w < skip.len(),
        !skip[w],
    ensures
        is_second_axis(skip, s),
        s <= w,
    decreases w,
{
    if exists|j: int| 0 <= j < w && !skip[j] {
        let j = choose|j: int| 0 <= j < w && !skip[j];
        lemma_second_axis_exists(skip, j)
    } else {
        w
    }
}

/// The labels of the flagged nodes among the first `k`, in their order.
pub open spec fn skipped_labels(references: Seq<Identity>, skip: Seq<bool>, k: int) -> Seq<Identity>
    decreases k,
{
    if k <= 0 {
        Seq::<Identity>::empty()
    } else if skip[k - 1] {
        skipped_labels(references, skip, k - 1).push(references[k - 1])
    } else {
        skipped_labels(references, skip, k - 1)
    }
}

/// What the resolver has made of the nodes: the places it could settle, and
/// the labels of the nodes it could not reconcile, in the order met.
pub struct Outcome {
    pub places: Map<Identity, Radial>,
    pub failures: Seq<Identity>,
}

/// Reconciles one node: its angle in `state` is settled against its angle in
/// the second pass and the angle that `state` holds for the second axis.
/// Where one of the three is not there the node cannot be reconciled: it
/// loses its place and is listed as a failure.
pub open spec fn reconcile_step(
    unit: spec_fn(Op) -> Scalar,
    state: Outcome,
    second: Map<Identity, Radial>,
    axis_id: Identity,
    id: Identity,
) -> Outcome {
    let current = state.places;
    if current.contains_key(axis_id) && second.contains_key(id) && current.contains_key(id) {
        Outcome {
            places: current.insert(
                id,
                Radial {
                    id: current[id].id,
                    radius: current[id].radius,
                    angle: reconciled_angle(unit, current[id].angle, current[axis_id].angle, second[id].angle),
                },
            ),
            failures: state.failures,
        }
    } else {
        Outcome { places: current.remove(id), failures: state.failures.push(id) }
    }
}

/// The first pass after the unflagged nodes among the first `k` have been
/// reconciled in turn.
pub open spec fn reconciled(
    unit: spec_fn(Op) -> Scalar,
    references: Seq<Identity>,
    skip: Seq<bool>,
    first: Map<Identity, Radial>,
    second: Map<Identity, Radial>,
    axis_id: Identity,
    k: int,
) -> Outcome
    decreases k,
{
    if k <= 0 {
        Outcome { places: first, failures: Seq::<Identity>::empty() }
    } else {
        let state = reconciled(unit, references, skip, first, second, axis_id, k - 1);
        if skip[k - 1] {
            state
        } else {
            reconcile_step(unit, state, second, axis_id, references[k - 1])
        }
    }
}

/// What the resolver makes of the nodes `references`, of which the first is
/// the origin and the second the first axis, and of the matrix `d` of their
/// distances.
///
/// It fails with `DimensionMismatch` unless `d` is square and as long as
/// `references`, and with `InsufficientData` on fewer than two nodes.
/// Otherwise the first pass places every node but the origin against the
/// first axis, with angles from 0 to pi. Where every node is flagged (see
/// [`skip_flags`]) that is the result. Where not, the first unflagged node is
/// the second axis, the second pass places the unflagged nodes against it, and
/// each unflagged node in turn is reconciled with its place in the second pass
/// (see [`reconcile_step`]).
pub open spec fn resolution(unit: spec_fn(Op) -> Scalar, references: Seq<Identity>, d: Seq<Seq<Scalar>>) -> Result<
    Outcome,
    ResolveError,
> {
    let n = references.len() as int;
    if !is_square(d, n) {
        Err(ResolveError::DimensionMismatch)
    } else if n < 2 {
        Err(ResolveError::InsufficientData)
    } else {
        let calibration = calibration_of(references, d);
        let first = pass_radials(
            unit,
            calibration,
            d,
            first_position(references, references[1]),
            seq![references[0]],
            n,
        );
        let skip = skip_flags(references, d, first);
        if forall|i: int| 0 <= i < n ==> skip[i] {
            Ok(Outcome { places: first, failures: Seq::<Identity>::empty() })
        } else {
            let s = second_axis(skip);
            let second = pass_radials(
                unit,
                calibration,
                d,
                first_position(references, references[s]),
                skipped_labels(references, skip, n),
                n,
            );
            Ok(reconciled(unit, references, skip, first, second, references[s], n))
        }
    }
}

/// The places of a set of nodes round their origin, with the labels of the
/// nodes that could not be reconciled and have no place.
#[derive(Debug)]
pub struct Resolution {
    pub coordinates: PolarCoordinates,
    pub failures: Vec<Identity>,
}

/// Whether `r` is what [`resolution`] says of `references` and `d`: the same
/// failure, or the same places round the origin `references[0]` and the same
/// list of nodes without a place.
pub open spec fn resolves_to(
    unit: spec_fn(Op) -> Scalar,
    references: Seq<Identity>,
    d: Seq<Seq<Scalar>>,
    r: Result<Resolution, ResolveError>,
) -> bool {
    match resolution(unit, references, d) {
        Ok(outcome) => {
            &&& r is Ok
            &&& r->Ok_0.coordinates.origin == references[0]
            &&& r->Ok_0.coordinates@ == outcome.places
            &&& r->Ok_0.failures@ == outcome.failures
        },
        Err(e) => r is Err && r->Err_0 == e,
    }
}

/// The angle that the first pass gives node `i`, against node 1 as the axis.
pub open spec fn first_angle(unit: spec_fn(Op) -> Scalar, d: Seq<Seq<Scalar>>, i: int) -> Scalar {
    triangle_angle(unit, d[0][1], d[0][i], d[1][i])
}

/// The angle that the second pass gives node `i`, against node `s` as the
/// axis.
pub open spec fn second_angle(unit: spec_fn(Op) -> Scalar, d: Seq<Seq<Scalar>>, s: int, i: int) -> Scalar {
    triangle_angle(unit, d[0][s], d[0][i], d[s][i])
}

/// Whether node `i` takes no part in the second pass: it lies at distance
/// zero from the origin, or the first pass gives it the angle zero.
pub open spec fn is_flagged(unit: spec_fn(Op) -> Scalar, d: Seq<Seq<Scalar>>, i: int) -> bool {
    d[0][i].is_zero() || (i >= 1 && first_angle(unit, d, i).is_zero())
}

/// The flags of the first `n` nodes.
pub open spec fn flags(unit: spec_fn(Op) -> Scalar, d: Seq<Seq<Scalar>>, n: int) -> Seq<bool> {
    Seq::new(n as nat, |i: int| is_flagged(unit, d, i))
}

/// The angle of the second axis `s` once it is reconciled, which the nodes
/// after it are reconciled against.
pub open spec fn offset_angle(unit: spec_fn(Op) -> Scalar, d: Seq<Seq<Scalar>>, s: int) -> Scalar {
    reconciled_angle(unit, first_angle(unit, d, s), first_angle(unit, d, s), second_angle(unit, d, s, s))
}

/// The angle that node `i` of `n` nodes ends with: that of the first pass
/// where the node is flagged, and otherwise that angle reconciled with the
/// second pass.
pub open spec fn settled_angle(unit: spec_fn(Op) -> Scalar, d: Seq<Seq<Scalar>>, n: int, i: int) -> Scalar {
    let s = second_axis(flags(unit, d, n));
    if is_flagged(unit, d, i) {
        first_angle(unit, d, i)
    } else if i == s {
        offset_angle(unit, d, s)
    } else {
        reconciled_angle(unit, first_angle(unit, d, i), offset_angle(unit, d, s), second_angle(unit, d, s, i))
    }
}

/// What a pass over nodes with different labels lays down: every node that is
/// not skipped has the place that the pass gives it, the axis has a place at
/// any rate, and no other label has one.
pub proof fn lemma_pass_of_distinct_nodes(
    unit: spec_fn(Op) -> Scalar,
    calibration: Seq<(Identity, Scalar)>,
    d: Seq<Seq<Scalar>>,
    axis: int,
    skip: Seq<Identity>,
    k: int,
)
    requires
        labels(calibration).no_duplicates(),
        0 <= axis < calibration.len(),
        0 <= k <= calibration.len(),
    ensures
        pass_radials(unit, calibration, d, axis, skip, k).contains_key(calibration[axis].0),
        forall|i: int|
            0 <= i < k && !skip.contains(calibration[i].0) ==> pass_radials(
                unit,
                calibration,
                d,
                axis,
                skip,
                k,
            ).contains_key(#[trigger] calibration[i].0) && pass_radials(
                unit,
                calibration,
                d,
                axis,
                skip,
                k,
            )[calibration[i].0] == pass_entry(unit, calibration, d, axis, i),
        forall|id: Identity| #[trigger]
            pass_radials(unit, calibration, d, axis, skip, k).contains_key(id) ==> id == calibration[axis].0 || (
            !skip.contains(id) && exists|i: int| 0 <= i < k && #[trigger] calibration[i].0 == id),
    decreases k,
{
    if k > 0 {
        lemma_pass_of_distinct_nodes(unit, calibration, d, axis, skip, k - 1);
        let rest = pass_radials(unit, calibration, d, axis, skip, k - 1);
        let now = pass_radials(unit, calibration, d, axis, skip, k);
        let last = calibration[k - 1].0;
        assert forall|i: int| 0 <= i < k && !skip.contains(calibration[i].0) implies now.contains_key(
            #[trigger] calibration[i].0,
        ) && now[calibration[i].0] == pass_entry(unit, calibration, d, axis, i) by {
            if i < k - 1 {
                assert(labels(calibration)[i] == calibration[i].0);
                assert(labels(calibration)[k - 1] == last);
                assert(calibration[i].0 != last);
            }
        }
        assert forall|id: Identity| #[trigger] now.contains_key(id) implies id == calibration[axis].0 || (
        !skip.contains(id) && exists|i: int| 0 <= i < k && #[trigger] calibration[i].0 == id) by {
            if id != calibration[axis].0 {
                if rest.contains_key(id) {
                    let i = choose|i: int| 0 <= i < k - 1 && #[trigger] calibration[i].0 == id;
                    assert(calibration[i].0 == id);
                } else {
                    assert(calibration[k - 1].0 == id);
                }
            }
        }
    }
}

/// Among nodes with different labels, a label is among the skipped ones just
/// where its node is flagged.
pub proof fn lemma_skipped_labels_of_distinct_nodes(references: Seq<Identity>, skip: Seq<bool>, k: int)
    requires
        references.no_duplicates(),
        skip.len() == references.len(),
        0 <= k <= references.len(),
    ensures
        forall|i: int|
            0 <= i < references.len() ==> (skipped_labels(references, skip, k).contains(#[trigger] references[i])
                <==> i < k && skip[i]),
    decreases k,
{
    if k > 0 {
        lemma_skipped_labels_of_distinct_nodes(references, skip, k - 1);
        let rest = skipped_labels(references, skip, k - 1);
        let now = skipped_labels(references, skip, k);
        assert forall|i: int| 0 <= i < references.len() implies (now.contains(#[trigger] references[i]) <==> i < k
            && skip[i]) by {
            if skip[k - 1] {
                assert(now =~= rest.push(references[k - 1]));
                if now.contains(references[i]) {
                    let j = choose|j: int| 0 <= j < now.len() && now[j] == references[i];
                    if j < rest.len() {
                        assert(rest[j] == references[i]);
                    } else {
                        assert(references[k - 1] == references[i]);
                    }
                }
                if i < k && skip[i] {
                    if i == k - 1 {
                        assert(now[now.len() - 1] == references[i]);
                    } else {
                        let j = choose|j: int| 0 <= j < rest.len() && rest[j] == references[i];
                        assert(now[j] == references[i]);
                    }
                }
            }
        }
    }
}

/// Reconciliation of nodes with different labels never fails: after the first
/// `k` nodes every unflagged one among them has its settled angle, and every
/// other node the place of the first pass.
pub proof fn lemma_reconciled_of_distinct_nodes(
    unit: spec_fn(Op) -> Scalar,
    references: Seq<Identity>,
    d: Seq<Seq<Scalar>>,
    first: Map<Identity, Radial>,
    second: Map<Identity, Radial>,
    s: int,
    k: int,
)
    requires
        references.no_duplicates(),
        0 <= k <= references.len(),
        is_flagged(unit, d, 0),
        is_second_axis(flags(unit, d, references.len() as int), s),
        forall|i: int|
            1 <= i < references.len() ==> first.contains_key(#[trigger] references[i]) && first[references[i]] == (
            Radial { id: references[i], radius: d[0][i], angle: first_angle(unit, d, i) }),
        forall|i: int|
            0 <= i < references.len() && !is_flagged(unit, d, i) ==> second.contains_key(#[trigger] references[i])
                && second[references[i]].angle == second_angle(unit, d, s, i),
    ensures
        ({
            let n = references.len() as int;
            let o = reconciled(unit, references, flags(unit, d, n), first, second, references[s], k);
            &&& o.failures == Seq::<Identity>::empty()
            &&& forall|id: Identity| #[trigger] o.places.contains_key(id) <==> first.contains_key(id)
            &&& forall|i: int|
                1 <= i < n ==> o.places[#[trigger] references[i]] == (Radial {
                    id: references[i],
                    radius: d[0][i],
                    angle: if i < k {
                        settled_angle(unit, d, n, i)
                    } else {
                        first_angle(unit, d, i)
                    },
                })
        }),
    decreases k,
{
    let n = references.len() as int;
    let skip = flags(unit, d, n);
    lemma_second_axis_unique(skip, s);
    if k > 0 {
        lemma_reconciled_of_distinct_nodes(unit, references, d, first, second, s, k - 1);
        let before = reconciled(unit, references, skip, first, second, references[s], k - 1);
        let after = reconciled(unit, references, skip, first, second, references[s], k);
        let id = references[k - 1];
        assert(skip[0]);
        assert(1 <= s);
        if !skip[k - 1] {
            assert(s <= k - 1);
            assert(before.places.contains_key(references[s]));
            assert(before.places.contains_key(id));
            assert(second.contains_key(id));
            assert(before.places[references[s]].angle == if s < k - 1 {
                offset_angle(unit, d, s)
            } else {
                first_angle(unit, d, s)
            });
            assert(after.places[id].angle == settled_angle(unit, d, n, k - 1));
            assert forall|i: int| 1 <= i < n implies after.places[#[trigger] references[i]] == (Radial {
                id: references[i],
                radius: d[0][i],
                angle: if i < k {
                    settled_angle(unit, d, n, i)
                } else {
                    first_angle(unit, d, i)
                },
            }) by {
                if i != k - 1 {
                    assert(references[i] != id);
                }
            }
        } else {
            assert(after == before);
        }
    }
}

/// What the resolver makes of nodes with different labels round an origin at
/// distance zero from itself.
///
/// It does not fail and leaves no node without a place. The origin has no
/// place; every other node `i` lies at its distance from the origin, at its
/// settled angle (see [`settled_angle`]); and no other label has a place.
pub proof fn lemma_resolution_of_distinct_nodes(
    unit: spec_fn(Op) -> Scalar,
    references: Seq<Identity>,
    d: Seq<Seq<Scalar>>,
)
    requires
        references.no_duplicates(),
        references.len() >= 2,
        is_square(d, references.len() as int),
        d[0][0].is_zero(),
    ensures
        resolution(unit, references, d) is Ok,
        resolution(unit, references, d)->Ok_0.failures == Seq::<Identity>::empty(),
        !resolution(unit, references, d)->Ok_0.places.contains_key(references[0]),
        forall|id: Identity| #[trigger]
            resolution(unit, references, d)->Ok_0.places.contains_key(id) ==> references.contains(id),
        forall|i: int|
            1 <= i < references.len() ==> resolution(unit, references, d)->Ok_0.places.contains_key(
                #[trigger] references[i],
            ) && resolution(unit, references, d)->Ok_0.places[references[i]] == (Radial {
                id: references[i],
                radius: d[0][i],
                angle: settled_angle(unit, d, references.len() as int, i),
            }),
{
    let n = references.len() as int;
    let calibration = calibration_of(references, d);
    assert(labels(calibration) =~= references);
    assert(is_first_position(references, references[1], 1)) by {
        assert(references[0] != references[1]);
    }
    lemma_first_position_unique(references, references[1], 1);
    let origin_only = seq![references[0]];
    let first = pass_radials(unit, calibration, d, 1, origin_only, n);
    lemma_pass_of_distinct_nodes(unit, calibration, d, 1, origin_only, n);
    assert forall|i: int| 1 <= i < n implies first.contains_key(#[trigger] references[i]) && first[references[i]]
        == (Radial { id: references[i], radius: d[0][i], angle: first_angle(unit, d, i) }) by {
        assert(calibration[i].0 == references[i]);
        assert(references[i] != references[0]);
        assert(!origin_only.contains(calibration[i].0));
    }
    assert(origin_only.contains(references[0])) by {
        assert(origin_only[0] == references[0]);
    }
    assert(!first.contains_key(references[0])) by {
        assert(references[0] != calibration[1].0);
    }
    assert forall|id: Identity| #[trigger] first.contains_key(id) implies references.contains(id) by {
        if id != calibration[1].0 {
            let i = choose|i: int| 0 <= i < n && #[trigger] calibration[i].0 == id;
            assert(references[i] == id);
        } else {
            assert(references[1] == id);
        }
    }
    let skip = skip_flags(references, d, first);
    assert(skip =~= flags(unit, d, n)) by {
        assert forall|i: int| 0 <= i < n implies skip[i] == is_flagged(unit, d, i) by {
            assert(is_first_position(references, references[i], i));
            if i >= 1 {
                assert(first.contains_key(references[i]));
            }
        }
    }
    if forall|i: int| 0 <= i < n ==> skip[i] {
        assert forall|i: int| 1 <= i < n implies settled_angle(unit, d, n, i) == first_angle(unit, d, i) by {
            assert(skip[i]);
        }
    } else {
        let s = second_axis(skip);
        let w = choose|i: int| 0 <= i < n && !skip[i];
        let low = lemma_second_axis_exists(skip, w);
        lemma_second_axis_unique(skip, low);
        assert(skip[0]);
        assert(is_first_position(references, references[s], s));
        lemma_first_position_unique(references, references[s], s);
        let skipped = skipped_labels(references, skip, n);
        lemma_skipped_labels_of_distinct_nodes(references, skip, n);
        let second = pass_radials(unit, calibration, d, s, skipped, n);
        lemma_pass_of_distinct_nodes(unit, calibration, d, s, skipped, n);
        assert forall|i: int| 0 <= i < n && !is_flagged(unit, d, i) implies second.contains_key(
            #[trigger] references[i],
        ) && second[references[i]].angle == second_angle(unit, d, s, i) by {
            assert(calibration[i].0 == references[i]);
            assert(!skip[i]);
            assert(!skipped.contains(references[i]));
        }
        lemma_reconciled_of_distinct_nodes(unit, references, d, first, second, s, n);
    }
}

/// Pairs every node with its distance from the origin.
pub fn calibrate(references: &Vec<Identity>, distance_vec: &Vec<Vec<Scalar>>) -> (r: Vec<(Identity, Scalar)>)
    requires
        references@.len() > 0,
        is_square(rows(distance_vec), references@.len() as int),
    ensures
        r@ == calibration_of(references@, rows(distance_vec)),
{
    let n = references.len();
    let mut calibration: Vec<(Identity, Scalar)> = Vec::new();
    let mut i: usize = 0;
    assert(rows(distance_vec)[0].len() == n);
    while i < n
        invariant
            i <= n,
            n == references@.len(),
            distance_vec@.len() == n,
            distance_vec@[0]@.len() == n,
            calibration@ == Seq::new(i as nat, |k: int| (references@[k], rows(distance_vec)[0][k])),
        decreases n - i,
    {
        calibration.push((references[i], distance_vec[0][i]));
        i += 1;
        assert(calibration@ =~= Seq::new(i as nat, |k: int| (references@[k], rows(distance_vec)[0][k])));
    }
    assert(calibration@ =~= calibration_of(references@, rows(distance_vec)));
    calibration
}

/// Flags the nodes that take no part in the second pass.
pub fn flag_skips(references: &Vec<Identity>, distance_vec: &Vec<Vec<Scalar>>, first: &PolarCoordinates) -> (r:
    Vec<bool>)
    requires
        references@.len() > 0,
        is_square(rows(distance_vec), references@.len() as int),
    ensures
        r@ == skip_flags(references@, rows(distance_vec), first@),
{
    let n = references.len();
    let mut skip: Vec<bool> = Vec::new();
    let mut i: usize = 0;
    assert(rows(distance_vec)[0].len() == n);
    while i < n
        invariant
            i <= n,
            n == references@.len(),
            distance_vec@.len() == n,
            distance_vec@[0]@.len() == n,
            skip@ == skip_flags(references@, rows(distance_vec), first@).take(i as int),
        decreases n - i,
    {
        let id = references[i];
        let on_axis = match first.get(&id) {
            Some(radial) => radial.angle.is_zero(),
            None => false,
        };
        let flagged = if distance_vec[0][i].is_zero() {
            true
        } else if on_axis {
            match find_position(references, id) {
                Some(k) => {
                    proof {
                        lemma_first_position_unique(references@, id, k as int);
                        if is_first_position(references@, id, i as int) {
                            lemma_first_position_unique(references@, id, i as int);
                        }
                    }
                    k == i
                },
                None => {
                    assert(references@[i as int] == id);
                    false
                },
            }
        } else {
            false
        };
        skip.push(flagged);
        i += 1;
        assert(skip@ =~= skip_flags(references@, rows(distance_vec), first@).take(i as int));
    }
    assert(skip@ =~= skip_flags(references@, rows(distance_vec), first@));
    skip
}

/// Looks for the first node that is not flagged.
pub fn find_second_axis(skip: &Vec<bool>) -> (r: Option<usize>)
    ensures
        match r {
            Some(s) => is_second_axis(skip@, s as int),
            None => forall|i: int| 0 <= i < skip@.len() ==> skip@[i],
        },
{
    let mut i: usize = 0;
    while i < skip.len()
        invariant
            i <= skip.len(),
            forall|j: int| 0 <= j < i ==> skip@[j],
        decreases skip.len() - i,
    {
        if !skip[i] {
            return Some(i);
        }
        i += 1;
    }
    None
}

/// Collects the labels of the flagged nodes.
pub fn collect_skipped(references: &Vec<Identity>, skip: &Vec<bool>) -> (r: Vec<Identity>)
    requires
        skip@.len() == references@.len(),
    ensures
        r@ == skipped_labels(references@, skip@, references@.len() as int),
{
    let mut out: Vec<Identity> = Vec::new();
    let mut i: usize = 0;
    while i < references.len()
        invariant
            i <= references.len(),
            skip@.len() == references@.len(),
            out@ == skipped_labels(references@, skip@, i as int),
        decreases references.len() - i,
    {
        if skip[i] {
            out.push(references[i]);
        }
        i += 1;
    }
    out
}

} // verus!
