use vstd::prelude::*;
use crate::room::{
    Coord, Floor, MapError, RawNode, RenderedRoom, RoomType, as_ints, is_relevant, is_relevant_node,
    room_views,
};

verus! {

/// The relevant nodes of a row, in the row's order.
pub open spec fn relevant_nodes(row: Seq<RawNode>) -> Seq<RawNode>
    decreases row.len(),
{
    if row.len() == 0 {
        Seq::empty()
    } else {
        let rest = relevant_nodes(row.drop_last());
        if is_relevant_node(row.last()) {
            rest.push(row.last())
        } else {
            rest
        }
    }
}

proof fn lemma_relevant_prefix(row: Seq<RawNode>, n: int)
    requires
        0 <= n <= row.len(),
    ensures
        relevant_nodes(row.take(n)).len() <= relevant_nodes(row).len(),
        forall|k: int|
            0 <= k < relevant_nodes(row.take(n)).len() ==> relevant_nodes(row)[k]
                == #[trigger] relevant_nodes(row.take(n))[k],
    decreases row.len(),
{
    if n == row.len() {
        assert(row.take(n) == row);
    } else {
        let d = row.drop_last();
        assert(d.take(n) == row.take(n));
        lemma_relevant_prefix(d, n);
    }
}

/// The horizontal coordinates of a row's relevant nodes, in order.
pub open spec fn relevant_xs(row: Seq<RawNode>) -> Seq<i32> {
    relevant_nodes(row).map_values(|n: RawNode| n.x)
}

/// `j` is the first position of `x` in `xs`.
pub open spec fn is_first_at(xs: Seq<i32>, x: i32, j: int) -> bool {
    0 <= j < xs.len() && xs[j] == x && forall|k: int| 0 <= k < j ==> xs[k] != x
}

/// The first position of `x` in `xs`, or -1 where it does not occur.
pub open spec fn position_of(xs: Seq<i32>, x: i32) -> int {
    if exists|j: int| is_first_at(xs, x, j) {
        choose|j: int| is_first_at(xs, x, j)
    } else {
        -1
    }
}

proof fn lemma_first_unique(xs: Seq<i32>, x: i32, j: int)
    requires
        is_first_at(xs, x, j),
    ensures
        position_of(xs, x) == j,
{
    let c = choose|c: int| is_first_at(xs, x, c);
    assert(is_first_at(xs, x, c));
    if c < j {
        assert(xs[c] != x);
    } else if j < c {
        assert(xs[j] != x);
    }
}

/// Builds the coordinates of a row's relevant nodes once, for the lookups
/// of the floor below.
pub fn collect_relevant_xs(row: &Vec<RawNode>) -> (r: Vec<i32>)
    ensures
        r@ == relevant_xs(row@),
{
    let mut r: Vec<i32> = Vec::new();
    let mut i: usize = 0;
    while i < row.len()
        invariant
            i <= row.len(),
            r@ == relevant_xs(row@.take(i as int)),
        decreases row.len() - i,
    {
        let ghost before = row@.take(i as int);
        assert(row@.take(i as int + 1).drop_last() == before);
        if is_relevant(&row[i]) {
            r.push(row[i].x);
            assert(r@ =~= relevant_xs(row@.take(i as int + 1)));
        } else {
            assert(r@ =~= relevant_xs(row@.take(i as int + 1)));
        }
        i = i + 1;
    }
    assert(row@.take(row.len() as int) == row@);
    r
}

/// The position of `x` among `xs`, the first where it occurs more than once.
pub fn find_position(xs: &Vec<i32>, x: i32) -> (r: Option<usize>)
    ensures
        match r {
            Some(j) => j as int == position_of(xs@, x),
            None => position_of(xs@, x) == -1,
        },
{
    let mut j: usize = 0;
    while j < xs.len()
        invariant
            j <= xs.len(),
            forall|k: int| 0 <= k < j ==> xs@[k] != x,
        decreases xs.len() - j,
    {
        if xs[j] == x {
            proof {
                lemma_first_unique(xs@, x, j as int);
            }
            return Some(j);
        }
        j = j + 1;
    }
    assert(!exists|c: int| is_first_at(xs@, x, c));
    None
}

/// The edges that lead to a floor above `y`, in order.
pub open spec fn forward_edges(edges: Seq<Coord>, y: i32) -> Seq<Coord>
    decreases edges.len(),
{
    if edges.len() == 0 {
        Seq::empty()
    } else {
        let rest = forward_edges(edges.drop_last(), y);
        if edges.last().y > y {
            rest.push(edges.last())
        } else {
            rest
        }
    }
}

proof fn lemma_forward_edges_prefix(edges: Seq<Coord>, y: i32, n: int)
    requires
        0 <= n <= edges.len(),
    ensures
        forward_edges(edges.take(n), y).len() <= forward_edges(edges, y).len(),
        forall|k: int|
            0 <= k < forward_edges(edges.take(n), y).len() ==> forward_edges(edges, y)[k]
                == #[trigger] forward_edges(edges.take(n), y)[k],
    decreases edges.len(),
{
    if n == edges.len() {
        assert(edges.take(n) == edges);
    } else {
        let d = edges.drop_last();
        assert(d.take(n) == edges.take(n));
        lemma_forward_edges_prefix(d, y, n);
    }
}

/// Every edge finds its destination among `xs`.
pub open spec fn all_resolve(edges: Seq<Coord>, xs: Seq<i32>) -> bool {
    forall|k: int| 0 <= k < edges.len() ==> position_of(xs, #[trigger] edges[k].x) >= 0
}

/// Each edge replaced by its destination's position among `xs`.
pub open spec fn rebased(edges: Seq<Coord>, xs: Seq<i32>) -> Seq<int> {
    edges.map_values(|e: Coord| position_of(xs, e.x))
}

/// The upward connections of `node`, as positions among `next_xs`, the
/// coordinates of the next floor's relevant nodes.
///
/// Fails, naming the edge, where a forward edge leads to no relevant node.
pub fn rebase_connections(node: &RawNode, next_xs: &Vec<i32>) -> (r: Result<Vec<usize>, MapError>)
    ensures
        r is Ok <==> all_resolve(forward_edges(node.edges@, node.y), next_xs@),
        r matches Ok(v) ==> as_ints(v@) == rebased(forward_edges(node.edges@, node.y), next_xs@),
        r matches Err(e) ==> (e matches MapError::DanglingEdge { from, to }
            && from == (Coord { x: node.x, y: node.y })
            && forward_edges(node.edges@, node.y).contains(to)
            && position_of(next_xs@, to.x) == -1),
{
    let ghost edges = node.edges@;
    let ghost y = node.y;
    let mut r: Vec<usize> = Vec::new();
    let mut i: usize = 0;
    while i < node.edges.len()
        invariant
            i <= edges.len(),
            edges == node.edges@,
            y == node.y,
            all_resolve(forward_edges(edges.take(i as int), y), next_xs@),
            as_ints(r@) == rebased(forward_edges(edges.take(i as int), y), next_xs@),
        decreases edges.len() - i,
    {
        let e = node.edges[i];
        let ghost fwd = forward_edges(edges.take(i as int), y);
        assert(edges.take(i as int + 1).drop_last() == edges.take(i as int));
        assert(edges.take(i as int + 1).last() == e);
        if e.y > node.y {
            assert(forward_edges(edges.take(i as int + 1), y) == fwd.push(e));
            match find_position(next_xs, e.x) {
                Some(p) => {
                    let ghost before = r@;
                    assert(as_ints(before).len() == before.len());
                    assert(before.len() == fwd.len());
                    r.push(p);
                    assert(fwd.push(e)[fwd.len() as int] == e);
                    assert forall|k: int| 0 <= k < r@.len() implies #[trigger] as_ints(r@)[k]
                        == rebased(fwd.push(e), next_xs@)[k] by {
                        if k < before.len() {
                            assert(r@[k] == before[k]);
                            assert(fwd.push(e)[k] == fwd[k]);
                            assert(as_ints(before)[k] == rebased(fwd, next_xs@)[k]);
                        }
                    }
                    assert(as_ints(r@) =~= rebased(fwd.push(e), next_xs@));
                    assert forall|k: int| 0 <= k < fwd.push(e).len() implies position_of(
                        next_xs@,
                        #[trigger] fwd.push(e)[k].x,
                    ) >= 0 by {
                        if k < fwd.len() {
                            assert(fwd.push(e)[k] == fwd[k]);
                        }
                    }
                },
                None => {
                    assert(fwd.push(e)[fwd.len() as int] == e);
                    proof {
                        lemma_forward_edges_prefix(edges, y, i as int + 1);
                    }
                    assert(forward_edges(edges, y).contains(e));
                    return Err(MapError::DanglingEdge { from: Coord { x: node.x, y: node.y }, to: e });
                },
            }
        } else {
            assert(forward_edges(edges.take(i as int + 1), y) == fwd);
        }
        i = i + 1;
    }
    assert(edges.take(edges.len() as int) == edges);
    Ok(r)
}

/// The coordinates of the next floor's relevant nodes, or `None` on the
/// topmost floor.
pub open spec fn opt_view(next_xs: Option<Vec<i32>>) -> Option<Seq<i32>> {
    match next_xs {
        Some(v) => Some(v@),
        None => None,
    }
}

/// What a relevant node renders to: its category, and its forward edges
/// rebased onto the next floor; no connections on the topmost floor.
pub open spec fn expected_room(n: RawNode, next_xs: Option<Seq<i32>>) -> (RoomType, Seq<int>) {
    (
        n.class.unwrap(),
        match next_xs {
            Some(xs) => rebased(forward_edges(n.edges@, n.y), xs),
            None => Seq::empty(),
        },
    )
}

/// The rendered rooms of a row, one per relevant node, in order.
pub open spec fn expected_rooms(row: Seq<RawNode>, next_xs: Option<Seq<i32>>) -> Seq<(RoomType, Seq<int>)> {
    relevant_nodes(row).map_values(|n: RawNode| expected_room(n, next_xs))
}

/// Every forward edge of a relevant node of the row finds its destination
/// on the next floor.
pub open spec fn row_resolves(row: Seq<RawNode>, next_xs: Option<Seq<i32>>) -> bool {
    match next_xs {
        Some(xs) => forall|k: int|
            0 <= k < relevant_nodes(row).len() ==> all_resolve(
                forward_edges(#[trigger] relevant_nodes(row)[k].edges@, relevant_nodes(row)[k].y),
                xs,
            ),
        None => true,
    }
}

/// `to` is a forward edge of a relevant node of the row standing at `from`,
/// and no relevant node of the next floor has its horizontal coordinate.
pub open spec fn is_dangling_in(row: Seq<RawNode>, xs: Seq<i32>, from: Coord, to: Coord) -> bool {
    &&& position_of(xs, to.x) == -1
    &&& exists|k: int|
        0 <= k < relevant_nodes(row).len() && from == (Coord {
            x: #[trigger] relevant_nodes(row)[k].x,
            y: relevant_nodes(row)[k].y,
        }) && forward_edges(relevant_nodes(row)[k].edges@, relevant_nodes(row)[k].y).contains(to)
}

/// Renders one row against the coordinates of the next floor's relevant
/// nodes (`None` on the topmost floor).
pub fn render_row(row: &Vec<RawNode>, next_xs: &Option<Vec<i32>>) -> (r: Result<Vec<RenderedRoom>, MapError>)
    ensures
        r is Ok <==> row_resolves(row@, opt_view(*next_xs)),
        r matches Ok(v) ==> room_views(v@) == expected_rooms(row@, opt_view(*next_xs)),
        r matches Err(e) ==> (e matches MapError::DanglingEdge { from, to } && (opt_view(
            *next_xs,
        ) matches Some(xs) && is_dangling_in(row@, xs, from, to))),
{
    let ghost nx = opt_view(*next_xs);
    let mut rooms: Vec<RenderedRoom> = Vec::new();
    let mut j: usize = 0;
    while j < row.len()
        invariant
            j <= row.len(),
            nx == opt_view(*next_xs),
            row_resolves(row@.take(j as int), nx),
            room_views(rooms@) == expected_rooms(row@.take(j as int), nx),
        decreases row.len() - j,
    {
        let node = &row[j];
        let ghost pre = row@.take(j as int);
        let ghost rel = relevant_nodes(pre);
        assert(row@.take(j as int + 1).drop_last() == pre);
        assert(row@.take(j as int + 1).last() == *node);
        if is_relevant(node) {
            assert(relevant_nodes(row@.take(j as int + 1)) == rel.push(*node));
            let connections = match next_xs {
                Some(xs) => match rebase_connections(node, xs) {
                    Ok(c) => c,
                    Err(e) => {
                        assert(rel.push(*node)[rel.len() as int] == *node);
                        proof {
                            lemma_relevant_prefix(row@, j as int + 1);
                        }
                        assert(relevant_nodes(row@)[rel.len() as int] == *node);
                        assert(is_dangling_in(row@, xs@, e->from, e->to));
                        return Err(e);
                    },
                },
                None => Vec::new(),
            };
            let room = RenderedRoom { typ: node.class.unwrap(), connections };
            assert(room@ == expected_room(*node, nx));
            let ghost before = rooms@;
            assert(room_views(before).len() == before.len());
            rooms.push(room);
            assert forall|k: int| 0 <= k < rooms@.len() implies #[trigger] room_views(rooms@)[k] == expected_rooms(row@.take(j as int + 1), nx)[k] by {
                if k < before.len() {
                    assert(rooms@[k] == before[k]);
                    assert(rel.push(*node)[k] == rel[k]);
                    assert(room_views(before)[k] == expected_rooms(pre, nx)[k]);
                } else {
                    assert(rel.push(*node)[k] == *node);
                }
            }
            assert(room_views(rooms@) =~= expected_rooms(row@.take(j as int + 1), nx));
        } else {
            assert(relevant_nodes(row@.take(j as int + 1)) == rel);
        }
        j = j + 1;
    }
    assert(row@.take(row.len() as int) == row@);
    Ok(rooms)
}

/// The rows of an act as sequences.
pub open spec fn rows_of(act: Seq<Vec<RawNode>>) -> Seq<Seq<RawNode>> {
    act.map_values(|row: Vec<RawNode>| row@)
}

/// The coordinates of the relevant nodes of the row above row `i`, or
/// `None` where row `i` is the topmost.
pub open spec fn next_xs_of(act: Seq<Seq<RawNode>>, i: int) -> Option<Seq<i32>> {
    if i + 1 < act.len() {
        Some(relevant_xs(act[i + 1]))
    } else {
        None
    }
}

/// Every forward edge of every relevant node finds its destination.
pub open spec fn act_resolves(act: Seq<Seq<RawNode>>) -> bool {
    forall|i: int| 0 <= i < act.len() ==> row_resolves(#[trigger] act[i], next_xs_of(act, i))
}

/// The rendered floors of an act: row `i` becomes floor `i + 1`.
pub open spec fn expected_floors(act: Seq<Seq<RawNode>>) -> Seq<(int, Seq<(RoomType, Seq<int>)>)> {
    Seq::new(act.len(), |i: int| (i + 1, expected_rooms(act[i], next_xs_of(act, i))))
}

/// The views of a sequence of floors.
pub open spec fn floor_views(v: Seq<Floor>) -> Seq<(int, Seq<(RoomType, Seq<int>)>)> {
    v.map_values(|f: Floor| f@)
}

/// Renders every row of an act, bottom to top; each row's connections are
/// rebased onto the relevant rooms of the row above.
///
/// Fails where a forward edge of a relevant node leads to no relevant node
/// of the next floor.
pub fn compact_act(act: &Vec<Vec<RawNode>>) -> (r: Result<Vec<Floor>, MapError>)
    ensures
        r is Ok <==> act_resolves(rows_of(act@)),
        r matches Ok(v) ==> floor_views(v@) == expected_floors(rows_of(act@)),
        r matches Err(e) ==> (e matches MapError::DanglingEdge { from, to } && exists|i: int|
            0 <= i && i + 1 < act@.len() && #[trigger] is_dangling_in(
                rows_of(act@)[i],
                relevant_xs(rows_of(act@)[i + 1]),
                from,
                to,
            )),
{
    let ghost rows = rows_of(act@);
    let mut floors: Vec<Floor> = Vec::new();
    let mut i: usize = 0;
    while i < act.len()
        invariant
            i <= act.len(),
            rows == rows_of(act@),
            forall|k: int| 0 <= k < i ==> row_resolves(#[trigger] rows[k], next_xs_of(rows, k)),
            floor_views(floors@) == expected_floors(rows).take(i as int),
        decreases act.len() - i,
    {
        let next_xs = if i + 1 < act.len() {
            Some(collect_relevant_xs(&act[i + 1]))
        } else {
            None
        };
        assert(rows[i as int] == act@[i as int]@);
        assert(i + 1 < act.len() ==> rows[i + 1] == act@[i + 1]@);
        assert(opt_view(next_xs) == next_xs_of(rows, i as int));
        let rooms = match render_row(&act[i], &next_xs) {
            Ok(v) => v,
            Err(e) => {
                assert(!row_resolves(rows[i as int], next_xs_of(rows, i as int)));
                assert(is_dangling_in(rows[i as int], relevant_xs(rows[i + 1]), e->from, e->to));
                return Err(e);
            },
        };
        let floor = Floor { number: i + 1, rooms };
        assert(rows[i as int] == act@[i as int]@);
        assert(floor@ == expected_floors(rows)[i as int]);
        let ghost before = floors@;
        assert(floor_views(before).len() == before.len());
        floors.push(floor);
        assert(floor_views(floors@) =~= expected_floors(rows).take(i as int + 1)) by {
            assert forall|k: int| 0 <= k < i + 1 implies #[trigger] floor_views(floors@)[k]
                == expected_floors(rows)[k] by {
                if k < i {
                    assert(floors@[k] == before[k]);
                    assert(floor_views(before)[k] == expected_floors(rows).take(i as int)[k]);
                }
            }
        }
        i = i + 1;
    }
    assert(expected_floors(rows).take(act.len() as int) =~= expected_floors(rows));
    Ok(floors)
}

/// Renders act `act_idx` of the generated `acts`.
pub fn render_act(acts: &Vec<Vec<Vec<RawNode>>>, act_idx: usize) -> (r: Result<Vec<Floor>, MapError>)
    ensures
        act_idx >= acts.len() ==> r == Err::<Vec<Floor>, MapError>(
            MapError::ActOutOfRange { index: act_idx, count: acts.len() },
        ),
        act_idx < acts.len() ==> (r is Ok <==> act_resolves(rows_of(acts@[act_idx as int]@))),
        r matches Ok(v) ==> act_idx < acts.len() && floor_views(v@) == expected_floors(
            rows_of(acts@[act_idx as int]@),
        ),
        act_idx < acts.len() ==> (r matches Err(e) ==> (e matches MapError::DanglingEdge {
            from,
            to,
        } && exists|i: int|
            0 <= i && i + 1 < acts@[act_idx as int]@.len() && #[trigger] is_dangling_in(
                rows_of(acts@[act_idx as int]@)[i],
                relevant_xs(rows_of(acts@[act_idx as int]@)[i + 1]),
                from,
                to,
            ))),
{
    if act_idx >= acts.len() {
        return Err(MapError::ActOutOfRange { index: act_idx, count: acts.len() });
    }
    compact_act(&acts[act_idx])
}

} // verus!
