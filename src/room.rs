use vstd::prelude::*;

verus! {

/// The fixed categories a rendered room can have.
#[derive(Clone, Copy, Debug, PartialEq, Eq, Structural)]
pub enum RoomType {
    Event,
    Monster,
    MonsterElite,
    Rest,
    Shop,
    Treasure,
}

impl RoomType {
    /// The client-facing label of each category.
    pub open spec fn label_spec(self) -> Seq<char> {
        match self {
            RoomType::Event => "event"@,
            RoomType::Monster => "enemy"@,
            RoomType::MonsterElite => "elite"@,
            RoomType::Rest => "rest"@,
            RoomType::Shop => "shop"@,
            RoomType::Treasure => "treasure"@,
        }
    }

    pub fn label(&self) -> (r: &'static str)
        ensures
            r@ == self.label_spec(),
    {
        match self {
            RoomType::Event => "event",
            RoomType::Monster => "enemy",
            RoomType::MonsterElite => "elite",
            RoomType::Rest => "rest",
            RoomType::Shop => "shop",
            RoomType::Treasure => "treasure",
        }
    }
}

/// A grid position: `y` is the floor (0 at the bottom), `x` the slot within it.
#[derive(Clone, Copy, Debug, PartialEq, Eq, Structural)]
pub struct Coord {
    pub x: i32,
    pub y: i32,
}

/// One slot of a generated floor row.
///
/// `edges` name the destinations of outgoing connections, `parents` the
/// sources of incoming ones. A slot without a `class` is unused filler.
#[derive(Clone, Debug, PartialEq, Eq)]
pub struct RawNode {
    pub x: i32,
    pub y: i32,
    pub class: Option<RoomType>,
    pub edges: Vec<Coord>,
    pub parents: Vec<Coord>,
}

/// A node is rendered when it has a class and takes part in the path
/// network, by an outgoing or an incoming connection.
pub open spec fn is_relevant_node(n: RawNode) -> bool {
    n.class.is_some() && (n.edges@.len() > 0 || n.parents@.len() > 0)
}

pub fn is_relevant(node: &RawNode) -> (r: bool)
    ensures
        r == is_relevant_node(*node),
{
    node.class.is_some() && (node.edges.len() > 0 || node.parents.len() > 0)
}

/// A room as rendered: its category and the positions, within the next
/// floor's rendered list, of the rooms it leads to.
#[derive(Clone, Debug, PartialEq, Eq)]
pub struct RenderedRoom {
    pub typ: RoomType,
    pub connections: Vec<usize>,
}

/// A vector of positions as mathematical integers.
pub open spec fn as_ints(v: Seq<usize>) -> Seq<int> {
    v.map_values(|c: usize| c as int)
}

impl View for RenderedRoom {
    type V = (RoomType, Seq<int>);

    open spec fn view(&self) -> (RoomType, Seq<int>) {
        (self.typ, as_ints(self.connections@))
    }
}

/// The rendered rooms of one floor; `number` counts floors from 1.
#[derive(Clone, Debug, PartialEq, Eq)]
pub struct Floor {
    pub number: usize,
    pub rooms: Vec<RenderedRoom>,
}

/// The views of a sequence of rendered rooms.
pub open spec fn room_views(v: Seq<RenderedRoom>) -> Seq<(RoomType, Seq<int>)> {
    v.map_values(|r: RenderedRoom| r@)
}

impl View for Floor {
    type V = (int, Seq<(RoomType, Seq<int>)>);

    open spec fn view(&self) -> (int, Seq<(RoomType, Seq<int>)>) {
        (self.number as int, room_views(self.rooms@))
    }
}

/// Why an act could not be rendered.
#[derive(Clone, Copy, Debug, PartialEq, Eq, Structural)]
pub enum MapError {
    /// A connection from `from` leads to `to`, which is no relevant room of
    /// the next floor.
    DanglingEdge { from: Coord, to: Coord },
    /// The requested act is not among the `count` generated ones.
    ActOutOfRange { index: usize, count: usize },
}

} // verus!
