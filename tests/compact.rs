use sts_map_render::compact::{collect_relevant_xs, compact_act, find_position, rebase_connections, render_act, render_row};
use sts_map_render::config::MapConfig;
use sts_map_render::room::{is_relevant, Coord, Floor, MapError, RawNode, RenderedRoom, RoomType};

fn node(x: i32, y: i32, class: Option<RoomType>, edges: Vec<(i32, i32)>, parents: Vec<(i32, i32)>) -> RawNode {
    RawNode {
        x,
        y,
        class,
        edges: edges.into_iter().map(|(x, y)| Coord { x, y }).collect(),
        parents: parents.into_iter().map(|(x, y)| Coord { x, y }).collect(),
    }
}

fn filler(x: i32, y: i32) -> RawNode {
    node(x, y, None, vec![], vec![])
}

fn room(typ: RoomType, connections: Vec<usize>) -> RenderedRoom {
    RenderedRoom { typ, connections }
}

#[test]
fn relevance_needs_class_and_a_connection() {
    assert!(is_relevant(&node(0, 0, Some(RoomType::Shop), vec![(1, 1)], vec![])));
    assert!(is_relevant(&node(0, 1, Some(RoomType::Shop), vec![], vec![(0, 0)])));
    assert!(!is_relevant(&node(0, 0, Some(RoomType::Rest), vec![], vec![])));
    assert!(!is_relevant(&node(0, 0, None, vec![(1, 1)], vec![(0, 0)])));
}

#[test]
fn labels_are_fixed() {
    assert_eq!(RoomType::Event.label(), "event");
    assert_eq!(RoomType::Monster.label(), "enemy");
    assert_eq!(RoomType::MonsterElite.label(), "elite");
    assert_eq!(RoomType::Rest.label(), "rest");
    assert_eq!(RoomType::Shop.label(), "shop");
    assert_eq!(RoomType::Treasure.label(), "treasure");
}

#[test]
fn relevant_xs_keep_row_order() {
    let row = vec![
        node(0, 1, Some(RoomType::Event), vec![], vec![(0, 0)]),
        filler(1, 1),
        node(2, 1, Some(RoomType::Rest), vec![], vec![]),
        node(5, 1, Some(RoomType::Shop), vec![(5, 2)], vec![]),
    ];
    assert_eq!(collect_relevant_xs(&row), vec![0, 5]);
}

#[test]
fn position_is_first_occurrence() {
    let xs = vec![4, 2, 7, 2];
    assert_eq!(find_position(&xs, 2), Some(1));
    assert_eq!(find_position(&xs, 7), Some(2));
    assert_eq!(find_position(&xs, 3), None);
    assert_eq!(find_position(&vec![], 0), None);
}

#[test]
fn rebasing_skips_backward_edges() {
    let n = node(3, 4, Some(RoomType::Monster), vec![(6, 5), (1, 4), (2, 3), (4, 5)], vec![]);
    assert_eq!(rebase_connections(&n, &vec![2, 4, 6]), Ok(vec![2, 1]));
}

#[test]
fn rebasing_reports_dangling_edge() {
    let n = node(3, 4, Some(RoomType::Monster), vec![(4, 5), (5, 5)], vec![]);
    assert_eq!(
        rebase_connections(&n, &vec![4]),
        Err(MapError::DanglingEdge { from: Coord { x: 3, y: 4 }, to: Coord { x: 5, y: 5 } })
    );
}

fn scenario_act() -> Vec<Vec<RawNode>> {
    vec![
        vec![
            node(0, 0, Some(RoomType::Shop), vec![(2, 1)], vec![]),
            filler(1, 0),
            node(2, 0, Some(RoomType::Rest), vec![], vec![]),
            node(3, 0, Some(RoomType::Monster), vec![], vec![(0, 0)]),
        ],
        vec![
            filler(0, 1),
            filler(1, 1),
            node(2, 1, Some(RoomType::Treasure), vec![], vec![(0, 0)]),
            node(3, 1, Some(RoomType::Event), vec![], vec![(3, 0)]),
        ],
    ]
}

#[test]
fn scenario_shop_connects_to_first_relevant_room_above() {
    let floors = compact_act(&scenario_act()).unwrap();
    assert_eq!(
        floors,
        vec![
            Floor { number: 1, rooms: vec![room(RoomType::Shop, vec![0]), room(RoomType::Monster, vec![])] },
            Floor { number: 2, rooms: vec![room(RoomType::Treasure, vec![]), room(RoomType::Event, vec![])] },
        ]
    );
}

#[test]
fn all_filler_floor_gives_empty_list() {
    let act = vec![vec![filler(0, 0), filler(1, 0), filler(2, 0)]];
    assert_eq!(compact_act(&act), Ok(vec![Floor { number: 1, rooms: vec![] }]));
}

#[test]
fn empty_act_gives_no_floors() {
    assert_eq!(compact_act(&vec![]), Ok(vec![]));
}

#[test]
fn topmost_room_has_no_connections() {
    let act = vec![
        vec![node(0, 0, Some(RoomType::Monster), vec![(0, 1)], vec![])],
        vec![node(0, 1, Some(RoomType::Rest), vec![(0, 2), (9, 0)], vec![(0, 0)])],
    ];
    let floors = compact_act(&act).unwrap();
    assert_eq!(floors[1], Floor { number: 2, rooms: vec![room(RoomType::Rest, vec![])] });
    assert_eq!(floors[0].rooms, vec![room(RoomType::Monster, vec![0])]);
}

#[test]
fn render_row_without_next_floor() {
    let row = vec![node(1, 3, Some(RoomType::MonsterElite), vec![(1, 4)], vec![(0, 2)])];
    assert_eq!(render_row(&row, &None), Ok(vec![room(RoomType::MonsterElite, vec![])]));
}

#[test]
fn dangling_edge_fails_the_act() {
    let act = vec![
        vec![node(0, 0, Some(RoomType::Shop), vec![(1, 1)], vec![])],
        vec![filler(0, 1), node(1, 1, None, vec![], vec![(0, 0)])],
    ];
    assert_eq!(
        compact_act(&act),
        Err(MapError::DanglingEdge { from: Coord { x: 0, y: 0 }, to: Coord { x: 1, y: 1 } })
    );
}

#[test]
fn connections_index_next_floor_in_order() {
    let act = vec![
        vec![
            node(0, 0, Some(RoomType::Monster), vec![(1, 1), (0, 1)], vec![]),
            node(2, 0, Some(RoomType::Monster), vec![(3, 1)], vec![]),
        ],
        vec![
            node(0, 1, Some(RoomType::Event), vec![], vec![(0, 0)]),
            node(1, 1, Some(RoomType::Shop), vec![], vec![(0, 0)]),
            filler(2, 1),
            node(3, 1, Some(RoomType::Treasure), vec![], vec![(2, 0)]),
        ],
    ];
    let floors = compact_act(&act).unwrap();
    assert_eq!(floors[0].rooms, vec![room(RoomType::Monster, vec![1, 0]), room(RoomType::Monster, vec![2])]);
    for r in &floors[0].rooms {
        for c in &r.connections {
            assert!(*c < floors[1].rooms.len());
        }
    }
    let types: Vec<RoomType> = floors[1].rooms.iter().map(|r| r.typ).collect();
    assert_eq!(types, vec![RoomType::Event, RoomType::Shop, RoomType::Treasure]);
}

#[test]
fn compaction_is_repeatable() {
    assert_eq!(compact_act(&scenario_act()), compact_act(&scenario_act()));
}

#[test]
fn act_index_out_of_range() {
    let acts = vec![scenario_act()];
    assert_eq!(render_act(&acts, 1), Err(MapError::ActOutOfRange { index: 1, count: 1 }));
    assert_eq!(render_act(&acts, 0), compact_act(&scenario_act()));
}

#[test]
fn standard_config() {
    assert_eq!(MapConfig::standard(), MapConfig::new(15, 7, 6));
}
