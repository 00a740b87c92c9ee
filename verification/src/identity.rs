use vstd::prelude::*;
use std::collections::HashMap;

verus! {

/// The label of a node or an agent: two labels name the same node where they
/// are equal.
pub type Identity = u64;

/// Whether `k` is the first place in `ids` that holds `id`.
pub open spec fn is_first_position(ids: Seq<Identity>, id: Identity, k: int) -> bool {
    &&& 0 <= k < ids.len()
    &&& ids[k] == id
    &&& forall|j: int| 0 <= j < k ==> ids[j] != id
}

/// The first place in `ids` that holds `id`, where one does.
pub open spec fn first_position(ids: Seq<Identity>, id: Identity) -> int {
    choose|k: int| is_first_position(ids, id, k)
}

/// A value has at most one first place.
pub proof fn lemma_first_position_unique(ids: Seq<Identity>, id: Identity, k: int)
    requires
        is_first_position(ids, id, k),
    ensures
        first_position(ids, id) == k,
{
    let c = first_position(ids, id);
    assert(is_first_position(ids, id, c));
    if c < k {
        assert(ids[c] != id);
    } else if k < c {
        assert(ids[k] != id);
    }
}

/// Looks for the first place in `ids` that holds `id`.
pub fn find_position(ids: &Vec<Identity>, id: Identity) -> (r: Option<usize>)
    ensures
        match r {
            Some(k) => is_first_position(ids@, id, k as int),
            None => !ids@.contains(id),
        },
{
    let mut i: usize = 0;
    while i < ids.len()
        invariant
            i <= ids.len(),
            forall|j: int| 0 <= j < i ==> ids@[j] != id,
        decreases ids.len() - i,
    {
        if ids[i] == id {
            return Some(i);
        }
        i += 1;
    }
    None
}

/// Tells whether `ids` holds `id`.
pub fn contains_id(ids: &Vec<Identity>, id: Identity) -> (r: bool)
    ensures
        r == ids@.contains(id),
{
    find_position(ids, id).is_some()
}

/// The nodes with every run of one label cut down to its first.
pub open spec fn deduped(nodes: Seq<Identity>) -> Seq<Identity>
    decreases nodes.len(),
{
    if nodes.len() <= 1 {
        nodes
    } else if nodes.last() == nodes[nodes.len() - 2] {
        deduped(nodes.drop_last())
    } else {
        deduped(nodes.drop_last()).push(nodes.last())
    }
}

/// Cutting runs leaves no label next to itself and drops no label: the nodes
/// left begin and end as the nodes given do, and every node given is among
/// them.
pub proof fn lemma_deduped_has_no_runs(nodes: Seq<Identity>)
    ensures
        forall|k: int| 0 < k < deduped(nodes).len() ==> #[trigger] deduped(nodes)[k] != deduped(nodes)[k - 1],
        deduped(nodes).len() <= nodes.len(),
        nodes.len() > 0 ==> deduped(nodes).len() > 0 && deduped(nodes)[0] == nodes[0] && deduped(nodes).last()
            == nodes.last(),
        forall|k: int| 0 <= k < nodes.len() ==> deduped(nodes).contains(#[trigger] nodes[k]),
    decreases nodes.len(),
{
    if nodes.len() > 1 {
        let rest = nodes.drop_last();
        lemma_deduped_has_no_runs(rest);
        assert(rest.last() == nodes[nodes.len() - 2]);
        assert forall|k: int| 0 <= k < nodes.len() implies deduped(nodes).contains(#[trigger] nodes[k]) by {
            if k < rest.len() {
                assert(deduped(rest).contains(rest[k]));
                let w = choose|w: int| 0 <= w < deduped(rest).len() && deduped(rest)[w] == rest[k];
                assert(deduped(nodes)[w] == nodes[k]);
            } else {
                assert(deduped(nodes)[deduped(nodes).len() - 1] == nodes[k]);
            }
        }
    } else if nodes.len() == 1 {
        assert(deduped(nodes)[0] == nodes[0]);
    }
}

/// Cuts every run of one label down to its first.
pub fn dedup_adjacent(nodes: &Vec<Identity>) -> (r: Vec<Identity>)
    ensures
        r@ == deduped(nodes@),
{
    let mut out: Vec<Identity> = Vec::new();
    let mut i: usize = 0;
    while i < nodes.len()
        invariant
            i <= nodes.len(),
            out@ == deduped(nodes@.take(i as int)),
        decreases nodes.len() - i,
    {
        proof {
            assert(nodes@.take(i + 1).drop_last() =~= nodes@.take(i as int));
        }
        if i == 0 || nodes[i] != nodes[i - 1] {
            out.push(nodes[i]);
            proof {
                if i == 0 {
                    assert(out@ =~= nodes@.take(1));
                }
            }
        }
        i += 1;
    }
    proof {
        assert(nodes@.take(nodes.len() as int) =~= nodes@);
    }
    out
}

/// Whether `k` is the last place in `ids` that holds `id`.
pub open spec fn is_last_position(ids: Seq<Identity>, id: Identity, k: int) -> bool {
    &&& 0 <= k < ids.len()
    &&& ids[k] == id
    &&& forall|j: int| k < j < ids.len() ==> ids[j] != id
}

/// The column of `id` in the matrix over `ids`: the last place that holds it.
pub open spec fn column_of(ids: Seq<Identity>, id: Identity) -> int {
    choose|k: int| is_last_position(ids, id, k)
}

/// A value has at most one last place.
pub proof fn lemma_column_unique(ids: Seq<Identity>, id: Identity, k: int)
    requires
        is_last_position(ids, id, k),
    ensures
        column_of(ids, id) == k,
{
    let c = column_of(ids, id);
    assert(is_last_position(ids, id, c));
    if c < k {
        assert(ids[k] != id);
    } else if k < c {
        assert(ids[c] != id);
    }
}

/// Maps every label among `ids` to its column.
pub fn index_nodes(ids: &Vec<Identity>) -> (r: HashMap<Identity, usize>)
    ensures
        forall|id: Identity| #[trigger] r@.contains_key(id) <==> ids@.contains(id),
        forall|id: Identity| #[trigger] r@.contains_key(id) ==> is_last_position(ids@, id, r@[id] as int),
{
    broadcast use vstd::std_specs::hash::group_hash_axioms;

    let mut map: HashMap<Identity, usize> = HashMap::new();
    let mut i: usize = 0;
    while i < ids.len()
        invariant
            i <= ids.len(),
            forall|id: Identity| #[trigger] map@.contains_key(id) <==> ids@.take(i as int).contains(id),
            forall|id: Identity| #[trigger]
                map@.contains_key(id) ==> is_last_position(ids@.take(i as int), id, map@[id] as int),
        decreases ids.len() - i,
    {
        let ghost before = map@;
        map.insert(ids[i], i);
        proof {
            let prefix = ids@.take(i as int);
            let next = ids@.take(i + 1);
            assert(next =~= prefix.push(ids@[i as int]));
            assert forall|id: Identity| #[trigger] map@.contains_key(id) <==> next.contains(id) by {
                if id == ids@[i as int] {
                    assert(next[i as int] == id);
                } else {
                    if before.contains_key(id) {
                        assert(prefix.contains(id));
                        let k = choose|k: int| 0 <= k < prefix.len() && prefix[k] == id;
                        assert(next[k] == id);
                    }
                    if next.contains(id) {
                        let k = choose|k: int| 0 <= k < next.len() && next[k] == id;
                        assert(prefix[k] == id);
                    }
                }
            }
            assert forall|id: Identity| #[trigger] map@.contains_key(id) implies is_last_position(
                next,
                id,
                map@[id] as int,
            ) by {
                if id != ids@[i as int] {
                    assert(is_last_position(prefix, id, before[id] as int));
                }
            }
        }
        i += 1;
    }
    proof {
        assert(ids@.take(ids.len() as int) =~= ids@);
    }
    map
}

} // verus!
