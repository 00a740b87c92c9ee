use vstd::prelude::*;
use crate::error::ResolveError;
use crate::identity::{
    column_of, dedup_adjacent, deduped, index_nodes, is_last_position, lemma_column_unique, Identity,
};
use crate::matrix::{check_square, is_square, rows};
use crate::polar::{labels, PolarCoordinates};
use crate::resolver::{
    calibrate, collect_skipped, find_second_axis, flag_skips, lemma_second_axis_unique, reconciled,
    resolution, resolves_to, Outcome, Resolution,
};
use crate::arithmetic::{Arithmetic, Op};
use crate::scalar::{Scalar, ZERO_BITS};

verus! {

/// A moment in time, in milliseconds since the epoch; moments before it are
/// negative.
pub type Timestamp = i64;

/// One observation: the distance measured between two nodes at one moment.
#[derive(Clone, Copy, PartialEq, Eq, Structural, Debug)]
pub struct MomentEdge {
    pub left: Identity,
    pub right: Identity,
    pub distance: Scalar,
    pub timestamp: Timestamp,
}

impl MomentEdge {
    /// The observation of `distance` between `left` and `right` at `timestamp`.
    pub fn new(left: Identity, right: Identity, distance: Scalar, timestamp: Timestamp) -> (r: MomentEdge)
        ensures
            r == (MomentEdge { left, right, distance, timestamp }),
    {
        MomentEdge { left, right, distance, timestamp }
    }
}

/// A distance between two nodes, without its moment.
#[derive(Clone, Copy, PartialEq, Eq, Structural, Debug)]
pub struct Edge {
    pub left: Identity,
    pub right: Identity,
    pub distance: Scalar,
}

impl Edge {
    /// The distance `distance` between `left` and `right`.
    pub fn new(left: Identity, right: Identity, distance: Scalar) -> (r: Edge)
        ensures
            r == (Edge { left, right, distance }),
    {
        Edge { left, right, distance }
    }
}

/// What was observed from one node.
#[derive(Debug)]
pub struct Location {
    node: Identity,
    distances: Vec<MomentEdge>,
}

impl Location {
    /// The node that the observations belong to.
    pub closed spec fn spec_node(&self) -> Identity {
        self.node
    }

    /// The observations, in the order given.
    pub closed spec fn spec_distances(&self) -> Seq<MomentEdge> {
        self.distances@
    }

    /// The node that the observations belong to.
    #[verifier::when_used_as_spec(spec_node)]
    pub fn node(&self) -> (r: Identity)
        ensures
            r == self.node(),
    {
        self.node
    }

    /// The observations, in the order given.
    pub fn distances(&self) -> (r: &Vec<MomentEdge>)
        ensures
            r@ == self.spec_distances(),
    {
        &self.distances
    }

    /// The observations `distances`, as seen from `node`.
    pub fn from_distances(node: Identity, distances: Vec<MomentEdge>) -> (r: Location)
        ensures
            r.node() == node,
            r.spec_distances() == distances@,
    {
        Location { node, distances }
    }

    /// The observations made from `node` itself: each names the other node.
    pub fn from_node(node: Identity, distances: Vec<(Identity, Scalar, Timestamp)>) -> (r: Location)
        ensures
            r.node() == node,
            r.spec_distances() == Seq::new(
                distances@.len(),
                |i: int|
                    (MomentEdge {
                        left: node,
                        right: distances@[i].0,
                        distance: distances@[i].1,
                        timestamp: distances@[i].2,
                    }),
            ),
    {
        let mut edges: Vec<MomentEdge> = Vec::new();
        let mut i: usize = 0;
        while i < distances.len()
            invariant
                i <= distances.len(),
                edges@ == Seq::new(
                    i as nat,
                    |k: int|
                        MomentEdge {
                            left: node,
                            right: distances@[k].0,
                            distance: distances@[k].1,
                            timestamp: distances@[k].2,
                        },
                ),
            decreases distances.len() - i,
        {
            let t = distances[i];
            edges.push(MomentEdge::new(node, t.0, t.1, t.2));
            i += 1;
            assert(edges@ =~= Seq::new(
                i as nat,
                |k: int|
                    MomentEdge {
                        left: node,
                        right: distances@[k].0,
                        distance: distances@[k].1,
                        timestamp: distances@[k].2,
                    },
            ));
        }
        Location { node, distances: edges }
    }

    /// Observations that name both their nodes.
    pub fn from_raw(node: Identity, distances: Vec<(Identity, Identity, Scalar, Timestamp)>) -> (r: Location)
        ensures
            r.node() == node,
            r.spec_distances() == Seq::new(
                distances@.len(),
                |i: int|
                    (MomentEdge {
                        left: distances@[i].0,
                        right: distances@[i].1,
                        distance: distances@[i].2,
                        timestamp: distances@[i].3,
                    }),
            ),
    {
        let mut edges: Vec<MomentEdge> = Vec::new();
        let mut i: usize = 0;
        while i < distances.len()
            invariant
                i <= distances.len(),
                edges@ == Seq::new(
                    i as nat,
                    |k: int|
                        MomentEdge {
                            left: distances@[k].0,
                            right: distances@[k].1,
                            distance: distances@[k].2,
                            timestamp: distances@[k].3,
                        },
                ),
            decreases distances.len() - i,
        {
            let t = distances[i];
            edges.push(MomentEdge::new(t.0, t.1, t.2, t.3));
            i += 1;
            assert(edges@ =~= Seq::new(
                i as nat,
                |k: int|
                    MomentEdge {
                        left: distances@[k].0,
                        right: distances@[k].1,
                        distance: distances@[k].2,
                        timestamp: distances@[k].3,
                    },
            ));
        }
        Location { node, distances: edges }
    }
}

/// What one observation adds to the samples of the pair of columns `(i, j)`:
/// its distance where it joins the node of column `i` to that of column `j`,
/// in either direction, and nothing where one of its nodes is not among
/// `ids`. An observation of a node against itself counts twice.
pub open spec fn contribution(ids: Seq<Identity>, e: MomentEdge, i: int, j: int) -> Seq<Scalar> {
    if ids.contains(e.left) && ids.contains(e.right) {
        let l = column_of(ids, e.left);
        let r = column_of(ids, e.right);
        let there = if l == i && r == j {
            seq![e.distance]
        } else {
            Seq::<Scalar>::empty()
        };
        let back = if r == i && l == j {
            seq![e.distance]
        } else {
            Seq::<Scalar>::empty()
        };
        there + back
    } else {
        Seq::<Scalar>::empty()
    }
}

/// The samples of the pair of columns `(i, j)`: what the observations of the
/// log add to it, in the order of the log.
pub open spec fn bucket(log: Seq<MomentEdge>, ids: Seq<Identity>, i: int, j: int) -> Seq<Scalar>
    decreases log.len(),
{
    if log.len() == 0 {
        Seq::<Scalar>::empty()
    } else {
        bucket(log.drop_last(), ids, i, j) + contribution(ids, log.last(), i, j)
    }
}

/// Whether `buckets` holds, for every pair of columns over `ids`, the samples
/// that `log` has of it.
pub open spec fn holds_samples(buckets: Seq<Vec<Vec<Scalar>>>, log: Seq<MomentEdge>, ids: Seq<Identity>) -> bool {
    &&& buckets.len() == ids.len()
    &&& forall|i: int| 0 <= i < ids.len() ==> (#[trigger] buckets[i])@.len() == ids.len()
    &&& forall|i: int, j: int|
        0 <= i < ids.len() && 0 <= j < ids.len() ==> (#[trigger] buckets[i]@[j])@ == bucket(log, ids, i, j)
}

/// Whether `matrix` is a consolidation of `buckets` by `filter`: square, zero
/// on its diagonal, and elsewhere a value that `filter` gives for the samples
/// of the pair.
pub open spec fn consolidates<S: Fn(&Vec<Scalar>) -> Scalar>(
    filter: &S,
    buckets: Seq<Vec<Vec<Scalar>>>,
    matrix: Seq<Seq<Scalar>>,
) -> bool {
    &&& is_square(matrix, buckets.len() as int)
    &&& forall|i: int, j: int|
        0 <= i < buckets.len() && 0 <= j < buckets.len() ==> if i == j {
            (#[trigger] matrix[i][j]) == Scalar::from_bits(ZERO_BITS)
        } else {
            filter.ensures((&buckets[i]@[j],), #[trigger] matrix[i][j])
        }
}

/// Whether `r` is what the observations `log` give for `nodes`: the resolution
/// of the nodes, with runs of one label cut down to their first, from a
/// consolidation by `filter` of the samples that `log` has of every pair of
/// them.
pub open spec fn is_position_graph<S: Fn(&Vec<Scalar>) -> Scalar>(
    log: Seq<MomentEdge>,
    nodes: Seq<Identity>,
    filter: &S,
    unit: spec_fn(Op) -> Scalar,
    r: Result<Resolution, ResolveError>,
) -> bool {
    exists|buckets: Seq<Vec<Vec<Scalar>>>, matrix: Seq<Seq<Scalar>>|
        #![trigger consolidates(filter, buckets, matrix)]
        {
            &&& holds_samples(buckets, log, deduped(nodes))
            &&& consolidates(filter, buckets, matrix)
            &&& resolves_to(unit, deduped(nodes), matrix, r)
        }
}

/// Applies `filter` to the samples of every pair of different columns.
pub fn consolidate<S: Fn(&Vec<Scalar>) -> Scalar>(buckets: &Vec<Vec<Vec<Scalar>>>, filter: &S) -> (r: Vec<
    Vec<Scalar>,
>)
    requires
        forall|samples: &Vec<Scalar>| #[trigger] filter.requires((samples,)),
        forall|i: int| 0 <= i < buckets@.len() ==> (#[trigger] buckets@[i])@.len() == buckets@.len(),
    ensures
        consolidates(filter, buckets@, rows(&r)),
{
    let n = buckets.len();
    let mut matrix: Vec<Vec<Scalar>> = Vec::new();
    let mut i: usize = 0;
    while i < n
        invariant
            i <= n,
            n == buckets@.len(),
            forall|samples: &Vec<Scalar>| #[trigger] filter.requires((samples,)),
            forall|k: int| 0 <= k < n ==> (#[trigger] buckets@[k])@.len() == n,
            matrix@.len() == i,
            forall|k: int| 0 <= k < i ==> (#[trigger] matrix@[k])@.len() == n,
            forall|k: int, j: int|
                0 <= k < i && 0 <= j < n ==> if k == j {
                    (#[trigger] matrix@[k]@[j]) == Scalar::from_bits(ZERO_BITS)
                } else {
                    filter.ensures((&buckets@[k]@[j],), #[trigger] matrix@[k]@[j])
                },
        decreases n - i,
    {
        let mut row: Vec<Scalar> = Vec::new();
        let mut j: usize = 0;
        while j < n
            invariant
                i < n,
                j <= n,
                n == buckets@.len(),
                buckets@[i as int]@.len() == n,
                forall|samples: &Vec<Scalar>| #[trigger] filter.requires((samples,)),
                row@.len() == j,
                forall|c: int|
                    0 <= c < j ==> if i == c {
                        (#[trigger] row@[c]) == Scalar::from_bits(ZERO_BITS)
                    } else {
                        filter.ensures((&buckets@[i as int]@[c],), #[trigger] row@[c])
                    },
            decreases n - j,
        {
            if i == j {
                row.push(Scalar::from_bits(ZERO_BITS));
            } else {
                row.push(filter(&buckets[i][j]));
            }
            j += 1;
        }
        matrix.push(row);
        i += 1;
    }
    proof {
        assert(is_square(rows(&matrix), n as int)) by {
            assert forall|k: int| 0 <= k < n implies (#[trigger] rows(&matrix)[k]).len() == n by {
                assert(matrix@[k]@.len() == n);
            }
        }
        assert forall|k: int, j: int| 0 <= k < n && 0 <= j < n implies if k == j {
            (#[trigger] rows(&matrix)[k][j]) == Scalar::from_bits(ZERO_BITS)
        } else {
            filter.ensures((&buckets@[k]@[j],), #[trigger] rows(&matrix)[k][j])
        } by {
            assert(rows(&matrix)[k][j] == matrix@[k]@[j]);
        }
    }
    matrix
}

/// Adds one sample to the pair of columns `(i, j)`.
fn push_sample(buckets: &mut Vec<Vec<Vec<Scalar>>>, i: usize, j: usize, sample: Scalar)
    requires
        i < old(buckets)@.len(),
        j < old(buckets)@[i as int]@.len(),
    ensures
        final(buckets)@.len() == old(buckets)@.len(),
        forall|a: int|
            0 <= a < old(buckets)@.len() ==> (#[trigger] final(buckets)@[a])@.len() == old(buckets)@[a]@.len(),
        forall|a: int, b: int|
            0 <= a < old(buckets)@.len() && 0 <= b < old(buckets)@[a]@.len()
                ==> (#[trigger] final(buckets)@[a]@[b])@ == if a == i && b == j {
                old(buckets)@[a]@[b]@.push(sample)
            } else {
                old(buckets)@[a]@[b]@
            },
{
    buckets[i][j].push(sample);
}

/// The log of observations: four sequences side by side, of which place `i`
/// in each makes up observation `i`.
#[derive(Debug)]
pub struct DistanceGraph {
    pub lefts: Vec<Identity>,
    pub rights: Vec<Identity>,
    pub distances: Vec<Scalar>,
    pub timestamps: Vec<Timestamp>,
}

impl View for DistanceGraph {
    type V = Seq<MomentEdge>;

    /// The observations in the order in which they were logged.
    open spec fn view(&self) -> Seq<MomentEdge> {
        Seq::new(
            self.lefts@.len(),
            |i: int|
                MomentEdge {
                    left: self.lefts@[i],
                    right: self.rights@[i],
                    distance: self.distances@[i],
                    timestamp: self.timestamps@[i],
                },
        )
    }
}

impl DistanceGraph {
    /// Whether the four sequences are of one length.
    pub open spec fn well_formed(&self) -> bool {
        &&& self.rights@.len() == self.lefts@.len()
        &&& self.distances@.len() == self.lefts@.len()
        &&& self.timestamps@.len() == self.lefts@.len()
    }

    /// Tells whether the four sequences are of one length.
    pub fn is_well_formed(&self) -> (r: bool)
        ensures
            r == self.well_formed(),
    {
        self.rights.len() == self.lefts.len() && self.distances.len() == self.lefts.len()
            && self.timestamps.len() == self.lefts.len()
    }

    /// A log without observations.
    pub fn new() -> (r: DistanceGraph)
        ensures
            r.well_formed(),
            r@ == Seq::<MomentEdge>::empty(),
    {
        let r = DistanceGraph {
            lefts: Vec::new(),
            rights: Vec::new(),
            distances: Vec::new(),
            timestamps: Vec::new(),
        };
        assert(r@ =~= Seq::<MomentEdge>::empty());
        r
    }

    /// The log of the observations `edges`, in their order.
    pub fn from_edges(edges: Vec<MomentEdge>) -> (r: DistanceGraph)
        ensures
            r.well_formed(),
            r@ == edges@,
    {
        let mut r = DistanceGraph::new();
        let mut i: usize = 0;
        while i < edges.len()
            invariant
                i <= edges.len(),
                r.well_formed(),
                r@ == edges@.take(i as int),
            decreases edges.len() - i,
        {
            r.add(edges[i]);
            i += 1;
            assert(edges@.take(i as int) =~= edges@.take(i - 1).push(edges@[i - 1]));
        }
        assert(edges@.take(edges.len() as int) =~= edges@);
        r
    }

    /// Gathers, for every pair of columns over `ids`, the samples that the log
    /// has of it (see [`bucket`]).
    pub fn sample_buckets(&self, ids: &Vec<Identity>) -> (r: Vec<Vec<Vec<Scalar>>>)
        requires
            self.well_formed(),
        ensures
            holds_samples(r@, self@, ids@),
    {
        broadcast use vstd::std_specs::hash::group_hash_axioms;

        let n = ids.len();
        let index = index_nodes(ids);
        let mut buckets: Vec<Vec<Vec<Scalar>>> = Vec::new();
        let mut i: usize = 0;
        while i < n
            invariant
                i <= n,
                buckets@.len() == i,
                forall|k: int| 0 <= k < i ==> (#[trigger] buckets@[k])@.len() == n,
                forall|k: int, j: int| 0 <= k < i && 0 <= j < n ==> (#[trigger] buckets@[k]@[j])@.len() == 0,
            decreases n - i,
        {
            let mut row: Vec<Vec<Scalar>> = Vec::new();
            let mut j: usize = 0;
            while j < n
                invariant
                    j <= n,
                    row@.len() == j,
                    forall|c: int| 0 <= c < j ==> (#[trigger] row@[c])@.len() == 0,
                decreases n - j,
            {
                row.push(Vec::new());
                j += 1;
            }
            buckets.push(row);
            i += 1;
        }
        proof {
            assert(self@.take(0) =~= Seq::<MomentEdge>::empty());
            assert forall|a: int, b: int| 0 <= a < n && 0 <= b < n implies (#[trigger] buckets@[a]@[b])@ == bucket(
                self@.take(0),
                ids@,
                a,
                b,
            ) by {
                assert(buckets@[a]@[b]@ =~= Seq::<Scalar>::empty());
            }
        }
        let mut e: usize = 0;
        while e < self.lefts.len()
            invariant
                self.well_formed(),
                e <= self.lefts@.len(),
                n == ids@.len(),
                forall|id: Identity| #[trigger] index@.contains_key(id) <==> ids@.contains(id),
                forall|id: Identity| #[trigger]
                    index@.contains_key(id) ==> is_last_position(ids@, id, index@[id] as int),
                holds_samples(buckets@, self@.take(e as int), ids@),
            decreases self.lefts.len() - e,
        {
            let edge = self.get_idx(e);
            let ghost before = buckets@;
            proof {
                assert(self@.take(e + 1).drop_last() =~= self@.take(e as int));
                assert(self@.take(e + 1).last() == edge);
            }
            let left = index.get(&edge.left);
            let right = index.get(&edge.right);
            match (left, right) {
                (Some(l), Some(r)) => {
                    let l: usize = *l;
                    let r: usize = *r;
                    proof {
                        assert(index@.contains_key(edge.left));
                        assert(index@.contains_key(edge.right));
                        lemma_column_unique(ids@, edge.left, l as int);
                        lemma_column_unique(ids@, edge.right, r as int);
                    }
                    push_sample(&mut buckets, l, r, edge.distance);
                    push_sample(&mut buckets, r, l, edge.distance);
                    proof {
                        assert forall|a: int, b: int| 0 <= a < n && 0 <= b < n implies (#[trigger] buckets@[a]@[b])@
                            == bucket(self@.take(e + 1), ids@, a, b) by {
                            assert(before[a]@[b]@ == bucket(self@.take(e as int), ids@, a, b));
                            assert(buckets@[a]@[b]@ =~= before[a]@[b]@ + contribution(ids@, edge, a, b));
                        }
                    }
                },
                _ => {
                    proof {
                        assert forall|a: int, b: int| 0 <= a < n && 0 <= b < n implies (#[trigger] buckets@[a]@[b])@
                            == bucket(self@.take(e + 1), ids@, a, b) by {
                            assert(before[a]@[b]@ == bucket(self@.take(e as int), ids@, a, b));
                            assert(contribution(ids@, edge, a, b) =~= Seq::<Scalar>::empty());
                        }
                    }
                },
            }
            e += 1;
        }
        proof {
            assert(self@.take(self.lefts@.len() as int) =~= self@);
        }
        buckets
    }

    /// Resolves the places of `nodes` from the observations logged.
    ///
    /// Runs of one label in `nodes` are cut down to their first. The samples of
    /// every pair of the nodes left are gathered from the log and consolidated
    /// by `filter` into a matrix of distances, from which the places are
    /// resolved (see [`resolution`]). Fails with `DimensionMismatch` where the
    /// log is not well formed, and otherwise as the resolver does.
    pub fn get_position_graph<S: Fn(&Vec<Scalar>) -> Scalar, F: Fn(Op) -> Scalar>(
        &self,
        nodes: &Vec<Identity>,
        filter: &S,
        unit: &Arithmetic<F>,
    ) -> (r: Result<Resolution, ResolveError>)
        requires
            forall|samples: &Vec<Scalar>| #[trigger] filter.requires((samples,)),
        ensures
            !self.well_formed() ==> r is Err && r->Err_0 == ResolveError::DimensionMismatch,
            self.well_formed() ==> exists|buckets: Seq<Vec<Vec<Scalar>>>, matrix: Seq<Seq<Scalar>>|
                #![trigger consolidates(filter, buckets, matrix)]
                {
                    &&& holds_samples(buckets, self@, deduped(nodes@))
                    &&& consolidates(filter, buckets, matrix)
                    &&& resolves_to(unit.answers(), deduped(nodes@), matrix, r)
                },
    {
        if !self.is_well_formed() {
            return Err(ResolveError::DimensionMismatch);
        }
        let cleaned_nodes = dedup_adjacent(nodes);
        let distance_vec = self.sample_buckets(&cleaned_nodes);
        let scalar_vec = consolidate(&distance_vec, filter);
        let ghost matrix = rows(&scalar_vec);
        let r = self.get_coordinates(cleaned_nodes, scalar_vec, unit);
        proof {
            assert(holds_samples(distance_vec@, self@, deduped(nodes@)));
            assert(consolidates(filter, distance_vec@, matrix));
        }
        r
    }

    /// Resolves the places of `references` from the matrix of their distances
    /// (see [`resolution`]).
    ///
    /// Fails with `DimensionMismatch` unless the matrix is square and as long
    /// as `references`, and with `InsufficientData` on fewer than two nodes.
    /// A node that cannot be reconciled does not stop the others: it is left
    /// without a place and listed among the failures.
    pub fn get_coordinates<F: Fn(Op) -> Scalar>(
        &self,
        references: Vec<Identity>,
        distance_vec: Vec<Vec<Scalar>>,
        unit: &Arithmetic<F>,
    ) -> (r: Result<Resolution, ResolveError>)
        ensures
            resolves_to(unit.answers(), references@, rows(&distance_vec), r),
    {
        broadcast use vstd::std_specs::hash::group_hash_axioms;

        let n = references.len();
        if distance_vec.len() != n || !check_square(&distance_vec) {
            return Err(ResolveError::DimensionMismatch);
        }
        if n < 2 {
            return Err(ResolveError::InsufficientData);
        }
        let ghost d = rows(&distance_vec);
        let calibration = calibrate(&references, &distance_vec);
        assert(labels(calibration@) =~= references@);
        let mut origin_skip: Vec<Identity> = Vec::new();
        origin_skip.push(references[0]);
        assert(origin_skip@ =~= seq![references@[0]]);
        assert(references@.contains(references@[1]));
        let first_pass = PolarCoordinates::from_distances(
            references[0],
            references[1],
            origin_skip,
            &calibration,
            &distance_vec,
            unit,
        );
        let mut origin_coordinates = match first_pass {
            Ok(p) => p,
            Err(e) => {
                return Err(e);
            },
        };
        let mut failures: Vec<Identity> = Vec::new();
        let ghost first = origin_coordinates@;
        let skip = flag_skips(&references, &distance_vec, &origin_coordinates);
        let s = match find_second_axis(&skip) {
            Some(s) => s,
            None => {
                return Ok(Resolution { coordinates: origin_coordinates, failures });
            },
        };
        proof {
            lemma_second_axis_unique(skip@, s as int);
        }
        let axis_id = references[s];
        let skip_refs = collect_skipped(&references, &skip);
        assert(references@.contains(references@[s as int]));
        let second_pass = PolarCoordinates::from_distances(
            references[0],
            axis_id,
            skip_refs,
            &calibration,
            &distance_vec,
            unit,
        );
        let offset_coordinates = match second_pass {
            Ok(p) => p,
            Err(e) => {
                return Err(e);
            },
        };
        let ghost second = offset_coordinates@;
        assert(resolution(unit.answers(), references@, d) == Ok::<Outcome, ResolveError>(
            reconciled(unit.answers(), references@, skip@, first, second, axis_id, n as int),
        ));
        let mut i: usize = 0;
        while i < n
            invariant
                i <= n,
                n == references@.len(),
                skip@.len() == n,
                second == offset_coordinates@,
                origin_coordinates.origin == references@[0],
                reconciled(unit.answers(), references@, skip@, first, second, axis_id, i as int) == (Outcome {
                    places: origin_coordinates@,
                    failures: failures@,
                }),
            decreases n - i,
        {
            if !skip[i] {
                let id = references[i];
                let offset = match origin_coordinates.get(&axis_id) {
                    Some(radial) => Some(radial.angle),
                    None => None,
                };
                let seen = match offset_coordinates.get(&id) {
                    Some(radial) => Some(*radial),
                    None => None,
                };
                let settled = match (offset, seen) {
                    (Some(offset_angle), Some(seen)) => {
                        origin_coordinates.reconcile_radial(offset_angle, id, &seen, unit).is_ok()
                    },
                    _ => false,
                };
                if !settled {
                    origin_coordinates.radials.remove(&id);
                    failures.push(id);
                }
            }
            i += 1;
        }
        Ok(Resolution { coordinates: origin_coordinates, failures })
    }

    /// Logs one more observation. Nothing already logged changes.
    pub fn add(&mut self, edge: MomentEdge)
        ensures
            final(self).lefts@ == old(self).lefts@.push(edge.left),
            final(self).rights@ == old(self).rights@.push(edge.right),
            final(self).distances@ == old(self).distances@.push(edge.distance),
            final(self).timestamps@ == old(self).timestamps@.push(edge.timestamp),
            old(self).well_formed() ==> final(self).well_formed() && final(self)@ == old(self)@.push(edge),
    {
        self.lefts.push(edge.left);
        self.rights.push(edge.right);
        self.distances.push(edge.distance);
        self.timestamps.push(edge.timestamp);
        proof {
            if old(self).well_formed() {
                assert(self@ =~= old(self)@.push(edge));
            }
        }
    }

    /// Logs all observations of `graph` after those already logged, keeping
    /// every one of them, also those that are logged already.
    pub fn extend(&mut self, graph: DistanceGraph)
        ensures
            final(self).lefts@ == old(self).lefts@ + graph.lefts@,
            final(self).rights@ == old(self).rights@ + graph.rights@,
            final(self).distances@ == old(self).distances@ + graph.distances@,
            final(self).timestamps@ == old(self).timestamps@ + graph.timestamps@,
            old(self).well_formed() && graph.well_formed() ==> final(self).well_formed() && final(self)@
                == old(self)@ + graph@,
    {
        let mut graph = graph;
        let ghost more = graph;
        self.lefts.append(&mut graph.lefts);
        self.rights.append(&mut graph.rights);
        self.distances.append(&mut graph.distances);
        self.timestamps.append(&mut graph.timestamps);
        proof {
            if old(self).well_formed() && more.well_formed() {
                assert(self@ =~= old(self)@ + more@);
            }
        }
    }

    /// Logs the observations `edges` after those already logged, keeping
    /// every one of them.
    pub fn extend_from_edges(&mut self, edges: Vec<MomentEdge>)
        ensures
            final(self).lefts@ == old(self).lefts@ + edges@.map_values(|e: MomentEdge| e.left),
            final(self).rights@ == old(self).rights@ + edges@.map_values(|e: MomentEdge| e.right),
            final(self).distances@ == old(self).distances@ + edges@.map_values(|e: MomentEdge| e.distance),
            final(self).timestamps@ == old(self).timestamps@ + edges@.map_values(|e: MomentEdge| e.timestamp),
            old(self).well_formed() ==> final(self).well_formed() && final(self)@ == old(self)@ + edges@,
    {
        let graph = DistanceGraph::from_edges(edges);
        proof {
            assert(graph.lefts@ =~= edges@.map_values(|e: MomentEdge| e.left)) by {
                assert forall|i: int| 0 <= i < edges@.len() implies graph.lefts@[i] == edges@[i].left by {
                    assert(graph@[i] == edges@[i]);
                }
            }
            assert(graph.rights@ =~= edges@.map_values(|e: MomentEdge| e.right)) by {
                assert forall|i: int| 0 <= i < edges@.len() implies graph.rights@[i] == edges@[i].right by {
                    assert(graph@[i] == edges@[i]);
                }
            }
            assert(graph.distances@ =~= edges@.map_values(|e: MomentEdge| e.distance)) by {
                assert forall|i: int| 0 <= i < edges@.len() implies graph.distances@[i] == edges@[i].distance by {
                    assert(graph@[i] == edges@[i]);
                }
            }
            assert(graph.timestamps@ =~= edges@.map_values(|e: MomentEdge| e.timestamp)) by {
                assert forall|i: int| 0 <= i < edges@.len() implies graph.timestamps@[i] == edges@[i].timestamp by {
                    assert(graph@[i] == edges@[i]);
                }
            }
        }
        self.extend(graph);
    }

    /// Observation `idx` of the log.
    pub fn get_idx(&self, idx: usize) -> (r: MomentEdge)
        requires
            self.well_formed(),
            idx < self@.len(),
        ensures
            r == self@[idx as int],
    {
        MomentEdge {
            left: self.lefts[idx],
            right: self.rights[idx],
            distance: self.distances[idx],
            timestamp: self.timestamps[idx],
        }
    }

    /// The observations that touch `node`, in the order in which they were
    /// logged.
    pub fn get_node_graph(&self, node: Identity) -> (r: DistanceGraph)
        requires
            self.well_formed(),
        ensures
            r.well_formed(),
            r@ == self@.filter(|e: MomentEdge| e.left == node || e.right == node),
    {
        let mut dg = DistanceGraph::new();
        let ghost touches = |e: MomentEdge| e.left == node || e.right == node;
        let mut i: usize = 0;
        proof {
            assert(self@.take(0) =~= Seq::<MomentEdge>::empty());
            assert(self@.take(0).filter(touches) =~= Seq::<MomentEdge>::empty());
        }
        while i < self.lefts.len()
            invariant
                self.well_formed(),
                i <= self.lefts@.len(),
                dg.well_formed(),
                touches == (|e: MomentEdge| e.left == node || e.right == node),
                dg@ == self@.take(i as int).filter(touches),
            decreases self.lefts.len() - i,
        {
            proof {
                assert(self@.take(i + 1) =~= self@.take(i as int).push(self@[i as int]));
                self@.take(i as int).lemma_filter_push(self@[i as int], touches);
            }
            if self.lefts[i] == node || self.rights[i] == node {
                dg.add(self.get_idx(i));
            }
            i += 1;
        }
        proof {
            assert(self@.take(self.lefts@.len() as int) =~= self@);
        }
        dg
    }
}

/// Whether the observation `e` is one of the distance between `a` and `b`, in
/// either direction.
pub open spec fn joins(e: MomentEdge, a: Identity, b: Identity) -> bool {
    (e.left == a && e.right == b) || (e.left == b && e.right == a)
}

/// Among nodes with different labels, the samples of a pair of different
/// nodes are the distances of the observations that join the two, in the
/// order of the log.
pub proof fn lemma_bucket_of_distinct_nodes(log: Seq<MomentEdge>, ids: Seq<Identity>, i: int, j: int)
    requires
        ids.no_duplicates(),
        0 <= i < ids.len(),
        0 <= j < ids.len(),
        i != j,
    ensures
        bucket(log, ids, i, j) == log.filter(|e: MomentEdge| joins(e, ids[i], ids[j])).map_values(
            |e: MomentEdge| e.distance,
        ),
    decreases log.len(),
{
    let joining = |e: MomentEdge| joins(e, ids[i], ids[j]);
    let distance = |e: MomentEdge| e.distance;
    if log.len() == 0 {
        assert(log.filter(joining) =~= Seq::<MomentEdge>::empty()) by {
            log.lemma_filter_len(joining);
        }
        assert(log.filter(joining).map_values(distance) =~= Seq::<Scalar>::empty());
    } else {
        let rest = log.drop_last();
        let e = log.last();
        lemma_bucket_of_distinct_nodes(rest, ids, i, j);
        assert(log =~= rest.push(e));
        rest.lemma_filter_push(e, joining);
        lemma_column_unique(ids, ids[i], i);
        lemma_column_unique(ids, ids[j], j);
        if ids.contains(e.left) && ids.contains(e.right) {
            let l = column_of(ids, e.left);
            let r = column_of(ids, e.right);
            let wl = choose|k: int| 0 <= k < ids.len() && ids[k] == e.left;
            let wr = choose|k: int| 0 <= k < ids.len() && ids[k] == e.right;
            lemma_column_unique(ids, e.left, wl);
            lemma_column_unique(ids, e.right, wr);
            assert(ids[l] == e.left && ids[r] == e.right);
        }
        if joining(e) {
            assert(ids.contains(e.left) && ids.contains(e.right));
            assert(contribution(ids, e, i, j) =~= seq![e.distance]);
            assert(rest.filter(joining).push(e).map_values(distance) =~= rest.filter(joining).map_values(
                distance,
            ).push(e.distance));
            assert(bucket(log, ids, i, j) =~= bucket(rest, ids, i, j).push(e.distance));
        } else {
            assert(contribution(ids, e, i, j) =~= Seq::<Scalar>::empty());
            assert(bucket(log, ids, i, j) =~= bucket(rest, ids, i, j));
        }
    }
}

/// The samples that a pair has of two logs laid end to end are those of the
/// first log followed by those of the second.
pub proof fn lemma_bucket_of_joined_logs(
    head: Seq<MomentEdge>,
    tail: Seq<MomentEdge>,
    ids: Seq<Identity>,
    i: int,
    j: int,
)
    ensures
        bucket(head + tail, ids, i, j) == bucket(head, ids, i, j) + bucket(tail, ids, i, j),
    decreases tail.len(),
{
    if tail.len() == 0 {
        assert(head + tail =~= head);
        assert(bucket(head, ids, i, j) + bucket(tail, ids, i, j) =~= bucket(head, ids, i, j));
    } else {
        lemma_bucket_of_joined_logs(head, tail.drop_last(), ids, i, j);
        assert((head + tail).drop_last() =~= head + tail.drop_last());
        assert((head + tail).last() == tail.last());
        assert(bucket(head + tail, ids, i, j) =~= bucket(head, ids, i, j) + bucket(tail, ids, i, j));
    }
}

/// The same observations logged in another order give every pair the same
/// samples, in another order.
pub proof fn lemma_bucket_ignores_order(
    one: Seq<MomentEdge>,
    other: Seq<MomentEdge>,
    ids: Seq<Identity>,
    i: int,
    j: int,
)
    requires
        one.to_multiset() == other.to_multiset(),
    ensures
        bucket(one, ids, i, j).to_multiset() == bucket(other, ids, i, j).to_multiset(),
    decreases one.len(),
{
    broadcast use vstd::seq_lib::group_to_multiset_ensures;

    assert(one.to_multiset().len() == one.len());
    assert(other.to_multiset().len() == other.len());
    if one.len() == 0 {
        assert(other =~= Seq::<MomentEdge>::empty());
        assert(one =~= Seq::<MomentEdge>::empty());
    } else {
        let e = one.last();
        assert(one.to_multiset().contains(e)) by {
            assert(one[one.len() - 1] == e);
        }
        assert(other.contains(e));
        let k = choose|k: int| 0 <= k < other.len() && other[k] == e;
        let rest_one = one.drop_last();
        let rest_other = other.remove(k);
        assert(rest_one =~= one.remove(one.len() - 1));
        assert(rest_one.to_multiset() =~= rest_other.to_multiset());
        lemma_bucket_ignores_order(rest_one, rest_other, ids, i, j);
        let before = other.take(k);
        let after = other.skip(k + 1);
        let single = seq![e];
        assert(other =~= (before + single) + after);
        assert(rest_other =~= before + after);
        lemma_bucket_of_joined_logs(before + single, after, ids, i, j);
        lemma_bucket_of_joined_logs(before, single, ids, i, j);
        lemma_bucket_of_joined_logs(before, after, ids, i, j);
        assert(bucket(single, ids, i, j) =~= contribution(ids, e, i, j)) by {
            assert(single.drop_last() =~= Seq::<MomentEdge>::empty());
            assert(single.last() == e);
            assert(bucket(single.drop_last(), ids, i, j) =~= Seq::<Scalar>::empty());
        }
        let b = bucket(before, ids, i, j);
        let a = bucket(after, ids, i, j);
        let c = contribution(ids, e, i, j);
        vstd::seq_lib::lemma_multiset_commutative(b + c, a);
        vstd::seq_lib::lemma_multiset_commutative(b, c);
        vstd::seq_lib::lemma_multiset_commutative(b, a);
        vstd::seq_lib::lemma_multiset_commutative(bucket(rest_one, ids, i, j), c);
        assert(bucket(other, ids, i, j).to_multiset() =~= bucket(rest_other, ids, i, j).to_multiset().add(
            c.to_multiset(),
        ));
        assert(bucket(one, ids, i, j).to_multiset() =~= bucket(rest_one, ids, i, j).to_multiset().add(
            c.to_multiset(),
        ));
    }
}

/// The order in which observations were logged does not show in the places
/// resolved from them, where the filter makes the same of the same samples in
/// whatever order they come.
///
/// `value` says what the filter makes of a sequence of samples. Two logs of
/// the same observations then resolve alike: to the same failure, or to the
/// same places round the same origin and the same nodes without a place.
pub proof fn lemma_position_graph_ignores_order<S: Fn(&Vec<Scalar>) -> Scalar>(
    one: DistanceGraph,
    other: DistanceGraph,
    nodes: Seq<Identity>,
    filter: &S,
    value: spec_fn(Seq<Scalar>) -> Scalar,
    unit: spec_fn(Op) -> Scalar,
    r_one: Result<Resolution, ResolveError>,
    r_other: Result<Resolution, ResolveError>,
)
    requires
        one.well_formed(),
        other.well_formed(),
        one@.to_multiset() == other@.to_multiset(),
        forall|samples: &Vec<Scalar>, m: Scalar| #[trigger] filter.ensures((samples,), m) ==> m == value(samples@),
        forall|a: Seq<Scalar>, b: Seq<Scalar>|
            a.to_multiset() == b.to_multiset() ==> #[trigger] value(a) == #[trigger] value(b),
        is_position_graph(one@, nodes, filter, unit, r_one),
        is_position_graph(other@, nodes, filter, unit, r_other),
    ensures
        match r_one {
            Ok(p) => {
                &&& r_other is Ok
                &&& r_other->Ok_0.coordinates.origin == p.coordinates.origin
                &&& r_other->Ok_0.coordinates@ == p.coordinates@
                &&& r_other->Ok_0.failures@ == p.failures@
            },
            Err(e) => r_other is Err && r_other->Err_0 == e,
        },
{
    let ids = deduped(nodes);
    let (b1, m1) = choose|b: Seq<Vec<Vec<Scalar>>>, m: Seq<Seq<Scalar>>|
        #![trigger consolidates(filter, b, m)]
        holds_samples(b, one@, ids) && consolidates(filter, b, m) && resolves_to(unit, ids, m, r_one);
    let (b2, m2) = choose|b: Seq<Vec<Vec<Scalar>>>, m: Seq<Seq<Scalar>>|
        #![trigger consolidates(filter, b, m)]
        holds_samples(b, other@, ids) && consolidates(filter, b, m) && resolves_to(unit, ids, m, r_other);
    let n = ids.len() as int;
    assert forall|i: int| 0 <= i < n implies m1[i] =~= m2[i] by {
        assert(m1[i].len() == n && m2[i].len() == n);
        assert forall|j: int| 0 <= j < n implies m1[i][j] == m2[i][j] by {
            if i != j {
                lemma_bucket_ignores_order(one@, other@, ids, i, j);
                assert(b1[i]@[j]@ == bucket(one@, ids, i, j));
                assert(b2[i]@[j]@ == bucket(other@, ids, i, j));
                assert(filter.ensures((&b1[i]@[j],), m1[i][j]));
                assert(filter.ensures((&b2[i]@[j],), m2[i][j]));
            }
        }
    }
    assert(m1 =~= m2);
}

/// Extending a log twice by the same observations keeps every one of them
/// twice: the log grows by twice their number, what it held stays as it was,
/// and each of the observations stands in it at both places.
pub proof fn lemma_extend_twice_keeps_both(start: DistanceGraph, more: DistanceGraph)
    requires
        start.well_formed(),
        more.well_formed(),
    ensures
        ((start@ + more@) + more@).len() == start@.len() + 2 * more@.len(),
        forall|i: int| 0 <= i < start@.len() ==> ((start@ + more@) + more@)[i] == start@[i],
        forall|i: int|
            0 <= i < more@.len() ==> ((start@ + more@) + more@)[start@.len() + i] == more@[i] && ((start@ + more@)
                + more@)[start@.len() + more@.len() + i] == more@[i],
{
}

} // verus!
