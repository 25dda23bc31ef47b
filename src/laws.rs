use vstd::prelude::*;
use crate::compact::{
    act_resolves, all_resolve, expected_floors, forward_edges, is_first_at,
    next_xs_of, position_of, rebased, relevant_nodes, relevant_xs, row_resolves,
};
use crate::room::{RawNode, is_relevant_node};

verus! {

/// Each node kept for rendering is relevant and stands in the row.
pub proof fn lemma_relevant_nodes_from_row(row: Seq<RawNode>)
    ensures
        forall|k: int|
            0 <= k < relevant_nodes(row).len() ==> is_relevant_node(
                #[trigger] relevant_nodes(row)[k],
            ) && row.contains(relevant_nodes(row)[k]),
    decreases row.len(),
{
    if row.len() > 0 {
        let d = row.drop_last();
        lemma_relevant_nodes_from_row(d);
        let rest = relevant_nodes(d);
        assert forall|k: int| 0 <= k < relevant_nodes(row).len() implies is_relevant_node(
            #[trigger] relevant_nodes(row)[k],
        ) && row.contains(relevant_nodes(row)[k]) by {
            if k < rest.len() {
                assert(relevant_nodes(row)[k] == rest[k]);
                let j = choose|j: int| 0 <= j < d.len() && d[j] == rest[k];
                assert(row[j] == d[j]);
            } else {
                assert(relevant_nodes(row)[k] == row.last());
                assert(row[row.len() - 1] == row.last());
            }
        }
    }
}

/// Every rendered room of floor `i + 1` comes from a node of row `i` that
/// has a class and at least one edge or parent, and carries that class.
pub proof fn lemma_rendered_rooms_are_relevant(act: Seq<Seq<RawNode>>, i: int, k: int)
    requires
        0 <= i < act.len(),
        0 <= k < expected_floors(act)[i].1.len(),
    ensures
        k < relevant_nodes(act[i]).len(),
        act[i].contains(relevant_nodes(act[i])[k]),
        relevant_nodes(act[i])[k].class.is_some(),
        relevant_nodes(act[i])[k].edges@.len() > 0 || relevant_nodes(act[i])[k].parents@.len() > 0,
        expected_floors(act)[i].1[k].0 == relevant_nodes(act[i])[k].class.unwrap(),
{
    lemma_relevant_nodes_from_row(act[i]);
    assert(is_relevant_node(relevant_nodes(act[i])[k]));
}

/// Every connection of a room on floor `i + 1` is a position within the
/// rendered list of floor `i + 2`, which then exists.
pub proof fn lemma_connections_index_next_floor(act: Seq<Seq<RawNode>>, i: int, k: int, c: int)
    requires
        act_resolves(act),
        0 <= i < act.len(),
        0 <= k < expected_floors(act)[i].1.len(),
        0 <= c < expected_floors(act)[i].1[k].1.len(),
    ensures
        i + 1 < act.len(),
        expected_floors(act)[i + 1].0 == expected_floors(act)[i].0 + 1,
        0 <= expected_floors(act)[i].1[k].1[c] < expected_floors(act)[i + 1].1.len(),
{
    let rel = relevant_nodes(act[i]);
    let n = rel[k];
    assert(row_resolves(act[i], next_xs_of(act, i)));
    let xs = relevant_xs(act[i + 1]);
    let fwd = forward_edges(n.edges@, n.y);
    assert(all_resolve(fwd, xs));
    let e = fwd[c];
    assert(position_of(xs, e.x) >= 0);
    assert(exists|j: int| is_first_at(xs, e.x, j));
    assert(is_first_at(xs, e.x, position_of(xs, e.x)));
    assert(rebased(fwd, xs)[c] == position_of(xs, e.x));
}

/// The rooms of the highest floor have no connections.
pub proof fn lemma_topmost_floor_has_no_connections(act: Seq<Seq<RawNode>>, k: int)
    requires
        act.len() > 0,
        0 <= k < expected_floors(act)[act.len() - 1].1.len(),
    ensures
        expected_floors(act)[act.len() - 1].1[k].1.len() == 0,
{
}

/// Where a row is ordered by horizontal coordinate, so are the nodes its
/// rendered rooms come from.
pub proof fn lemma_rendered_order_follows_row(row: Seq<RawNode>)
    requires
        forall|a: int, b: int| 0 <= a < b < row.len() ==> row[a].x < row[b].x,
    ensures
        forall|a: int, b: int|
            0 <= a < b < relevant_nodes(row).len() ==> relevant_nodes(row)[a].x
                < relevant_nodes(row)[b].x,
    decreases row.len(),
{
    if row.len() > 0 {
        let d = row.drop_last();
        lemma_rendered_order_follows_row(d);
        lemma_relevant_nodes_from_row(d);
        let rest = relevant_nodes(d);
        assert forall|a: int, b: int| 0 <= a < b < relevant_nodes(row).len() implies relevant_nodes(
            row,
        )[a].x < relevant_nodes(row)[b].x by {
            assert(relevant_nodes(row)[a] == rest[a]);
            if b < rest.len() {
                assert(relevant_nodes(row)[b] == rest[b]);
            } else {
                assert(relevant_nodes(row)[b] == row.last());
                let j = choose|j: int| 0 <= j < d.len() && d[j] == rest[a];
                assert(row[j] == d[j]);
            }
        }
    }
}

} // verus!
