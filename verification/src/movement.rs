//! A movement: the edge that traffic comes from and the turns it makes. It is
//! what zones are told apart and named by.

use crate::network::ConnectionDirection;
use crate::order::{
    compare_text, lexicographic, lexicographic_is_total, number_rank, text_order_is_total,
    text_order, text_rank, texts, total, Rank,
};
use vstd::prelude::*;

verus! {

/// The place of a direction in their order.
pub open spec fn direction_number(direction: ConnectionDirection) -> int {
    match direction {
        ConnectionDirection::Straight => 0,
        ConnectionDirection::Turn => 1,
        ConnectionDirection::TurnLeftHand => 2,
        ConnectionDirection::Left => 3,
        ConnectionDirection::Right => 4,
        ConnectionDirection::PartialLeft => 5,
        ConnectionDirection::PartialRight => 6,
    }
}

/// The order of directions.
pub open spec fn direction_order() -> spec_fn(ConnectionDirection, ConnectionDirection) -> Rank {
    |a: ConnectionDirection, b: ConnectionDirection|
        number_rank(direction_number(a), direction_number(b))
}

/// The rank of one list of directions relative to another.
pub open spec fn directions_rank(
    a: Seq<ConnectionDirection>,
    b: Seq<ConnectionDirection>,
) -> Rank {
    lexicographic(a, b, direction_order())
}

/// Every direction, in order.
pub open spec fn all_directions() -> Seq<ConnectionDirection> {
    seq![
        ConnectionDirection::Straight,
        ConnectionDirection::Turn,
        ConnectionDirection::TurnLeftHand,
        ConnectionDirection::Left,
        ConnectionDirection::Right,
        ConnectionDirection::PartialLeft,
        ConnectionDirection::PartialRight,
    ]
}

/// The directions that occur in `directions`, each once, in order.
pub open spec fn sorted_directions(directions: Seq<ConnectionDirection>) -> Seq<
    ConnectionDirection,
> {
    all_directions().filter(|d: ConnectionDirection| directions.contains(d))
}

/// How a direction is spelled in an id.
pub open spec fn label_of(direction: ConnectionDirection) -> Seq<char> {
    match direction {
        ConnectionDirection::Straight => "straight"@,
        ConnectionDirection::Turn => "turn"@,
        ConnectionDirection::TurnLeftHand => "turn_left_hand"@,
        ConnectionDirection::Left => "left"@,
        ConnectionDirection::Right => "right"@,
        ConnectionDirection::PartialLeft => "partial_left"@,
        ConnectionDirection::PartialRight => "partial_right"@,
    }
}

/// `parts` one after the other, with a plus sign between any two.
pub open spec fn joined(parts: Seq<Seq<char>>) -> Seq<char>
    decreases parts.len(),
{
    if parts.len() == 0 {
        Seq::empty()
    } else if parts.len() == 1 {
        parts[0]
    } else {
        joined(parts.drop_last()) + "+"@ + parts.last()
    }
}

/// The id of an edge without the colon that marks internal edges.
pub open spec fn without_colon(edge: Seq<char>) -> Seq<char> {
    if edge.len() > 0 && edge[0] == ':' {
        edge.skip(1)
    } else {
        edge
    }
}

/// How the directions of a movement are spelled in its id.
pub open spec fn directions_label(directions: Seq<ConnectionDirection>) -> Seq<char> {
    joined(directions.map_values(|d: ConnectionDirection| label_of(d)))
}

/// The id of the movement from `edge` in `directions`.
pub open spec fn movement_name(edge: Seq<char>, directions: Seq<ConnectionDirection>) -> Seq<char> {
    without_colon(edge) + "_"@ + directions_label(directions)
}

/// The id of the movement from several edges in `directions`.
pub open spec fn merged_movement_name(
    edges: Seq<Seq<char>>,
    directions: Seq<ConnectionDirection>,
) -> Seq<char> {
    joined(edges.map_values(|e: Seq<char>| without_colon(e))) + "_"@ + directions_label(directions)
}

/// How a direction is spelled in an id.
pub fn direction_label(direction: ConnectionDirection) -> (label: &'static str)
    ensures
        label@ == label_of(direction),
{
    match direction {
        ConnectionDirection::Straight => "straight",
        ConnectionDirection::Turn => "turn",
        ConnectionDirection::TurnLeftHand => "turn_left_hand",
        ConnectionDirection::Left => "left",
        ConnectionDirection::Right => "right",
        ConnectionDirection::PartialLeft => "partial_left",
        ConnectionDirection::PartialRight => "partial_right",
    }
}

/// Adds the labels of `directions` to `id`.
fn add_directions(id: &mut String, directions: &Vec<ConnectionDirection>)
    ensures
        final(id)@ == old(id)@ + directions_label(directions@),
{
    let ghost labels = directions@.map_values(|d: ConnectionDirection| label_of(d));
    let ghost start = id@;
    assert(start + joined(labels.take(0)) =~= start);
    let mut i: usize = 0;
    while i < directions.len()
        invariant
            i <= directions.len(),
            labels == directions@.map_values(|d: ConnectionDirection| label_of(d)),
            id@ == start + joined(labels.take(i as int)),
        decreases directions.len() - i,
    {
        if i > 0 {
            id.append("+");
        }
        id.append(direction_label(directions[i]));
        proof {
            let next = labels.take(i + 1);
            assert(next.drop_last() =~= labels.take(i as int));
            assert(next.last() == label_of(directions@[i as int]));
            assert(id@ =~= start + joined(next));
        }
        i = i + 1;
    }
    assert(labels.take(labels.len() as int) =~= labels);
}

/// Adds the id of `edge` to `id`, without the colon that marks internal
/// edges: a simulation would take a colon in an output file for a port.
fn add_edge(id: &mut String, edge: &str)
    ensures
        final(id)@ == old(id)@ + without_colon(edge@),
{
    let length: usize = edge.unicode_len();
    if length > 0 && edge.get_char(0) == ':' {
        id.append(edge.substring_char(1, length));
        assert(edge@.subrange(1, length as int) =~= edge@.skip(1));
    } else {
        id.append(edge);
    }
}

/// The id of the movement from `from_edge` in `directions`. It holds neither
/// the junction's id nor any position in a list, so it changes only where the
/// road does.
pub fn movement_id(from_edge: &str, directions: &Vec<ConnectionDirection>) -> (id: String)
    ensures
        id@ == movement_name(from_edge@, directions@),
{
    let mut id: String = String::new();
    add_edge(&mut id, from_edge);
    id.append("_");
    add_directions(&mut id, directions);
    assert(id@ =~= movement_name(from_edge@, directions@));
    id
}

/// The id of the movement from `from_edges`, taken together, in `directions`.
pub fn merged_movement_id(
    from_edges: &Vec<String>,
    directions: &Vec<ConnectionDirection>,
) -> (id: String)
    ensures
        id@ == merged_movement_name(texts(from_edges@), directions@),
{
    let ghost names = texts(from_edges@).map_values(|e: Seq<char>| without_colon(e));
    let mut id: String = String::new();
    assert(id@ =~= joined(names.take(0)));
    let mut i: usize = 0;
    while i < from_edges.len()
        invariant
            i <= from_edges.len(),
            names == texts(from_edges@).map_values(|e: Seq<char>| without_colon(e)),
            id@ == joined(names.take(i as int)),
        decreases from_edges.len() - i,
    {
        if i > 0 {
            id.append("+");
        }
        add_edge(&mut id, from_edges[i].as_str());
        proof {
            let next = names.take(i + 1);
            assert(next.drop_last() =~= names.take(i as int));
            assert(next.last() == without_colon(from_edges@[i as int]@));
            assert(id@ =~= joined(next));
        }
        i = i + 1;
    }
    assert(names.take(names.len() as int) =~= names);
    id.append("_");
    add_directions(&mut id, directions);
    assert(id@ =~= merged_movement_name(texts(from_edges@), directions@));
    id
}

/// A single edge is named as it always is.
pub proof fn single_edge_keeps_its_name(edge: Seq<char>, directions: Seq<ConnectionDirection>)
    ensures
        merged_movement_name(seq![edge], directions) == movement_name(edge, directions),
{
    let names = seq![edge].map_values(|e: Seq<char>| without_colon(e));
    assert(names =~= seq![without_colon(edge)]);
}

/// The colon that marks an internal edge does not start the movement's id.
pub proof fn no_id_starts_with_a_colon(edge: Seq<char>, directions: Seq<ConnectionDirection>)
    requires
        !(edge.len() > 1 && edge[0] == ':' && edge[1] == ':'),
    ensures
        movement_name(edge, directions).len() > 0,
        movement_name(edge, directions)[0] != ':',
{
    reveal_strlit("_");
    let name = without_colon(edge);
    if name.len() > 0 {
        assert(movement_name(edge, directions)[0] == name[0]);
    } else {
        assert(movement_name(edge, directions)[0] == '_');
    }
}

/// The movement from one edge in the given directions.
#[derive(Debug, PartialEq, Eq)]
pub struct MovementKey {
    pub from_edge: String,
    /// Each direction once, in order.
    pub directions: Vec<ConnectionDirection>,
}

/// What a [`MovementKey`] says.
#[verifier::ext_equal]
pub struct MovementView {
    pub from_edge: Seq<char>,
    pub directions: Seq<ConnectionDirection>,
}

impl View for MovementKey {
    type V = MovementView;

    open spec fn view(&self) -> MovementView {
        MovementView { from_edge: self.from_edge@, directions: self.directions@ }
    }
}

/// The rank of one movement relative to another: by edge, then by directions.
pub open spec fn movement_rank(a: MovementView, b: MovementView) -> Rank {
    match text_rank(a.from_edge, b.from_edge) {
        Rank::Same => directions_rank(a.directions, b.directions),
        rank => rank,
    }
}

/// Lists of directions are totally ordered.
pub proof fn directions_order_is_total()
    ensures
        total(|a: Seq<ConnectionDirection>, b: Seq<ConnectionDirection>| directions_rank(a, b)),
{
    assert(total(direction_order()));
    lexicographic_is_total(direction_order());
    assert((|a: Seq<ConnectionDirection>, b: Seq<ConnectionDirection>| directions_rank(a, b)) =~= (|
        a: Seq<ConnectionDirection>,
        b: Seq<ConnectionDirection>,
    | lexicographic(a, b, direction_order())));
}

/// The order of movements.
pub open spec fn movement_order() -> spec_fn(MovementView, MovementView) -> Rank {
    |a: MovementView, b: MovementView| movement_rank(a, b)
}

/// Movements are totally ordered.
pub proof fn movement_order_is_total()
    ensures
        total(movement_order()),
{
    text_order_is_total();
    directions_order_is_total();
    let text = text_order();
    let dirs = |a: Seq<ConnectionDirection>, b: Seq<ConnectionDirection>| directions_rank(a, b);
    let order = movement_order();
    assert forall|x: MovementView, y: MovementView| #[trigger]
        order(x, y) == Rank::Same <==> x == y by {
        assert(text(x.from_edge, y.from_edge) == Rank::Same <==> x.from_edge == y.from_edge);
        assert(dirs(x.directions, y.directions) == Rank::Same <==> x.directions == y.directions);
        if x.from_edge == y.from_edge && x.directions == y.directions {
            assert(x =~= y);
        }
    }
    assert forall|x: MovementView, y: MovementView| #[trigger]
        order(x, y) == Rank::Before <==> order(y, x) == Rank::After by {
        assert(text(x.from_edge, y.from_edge) == Rank::Same <==> x.from_edge == y.from_edge);
        assert(text(y.from_edge, x.from_edge) == Rank::Same <==> x.from_edge == y.from_edge);
        assert(text(x.from_edge, y.from_edge) == Rank::Before <==> text(y.from_edge, x.from_edge)
            == Rank::After);
        assert(dirs(x.directions, y.directions) == Rank::Before <==> dirs(
            y.directions,
            x.directions,
        ) == Rank::After);
    }
    assert forall|x: MovementView, y: MovementView, z: MovementView| #[trigger]
        order(x, y) == Rank::Before && #[trigger] order(y, z) == Rank::Before implies order(x, z)
        == Rank::Before by {
        assert(text(x.from_edge, y.from_edge) == Rank::Same <==> x.from_edge == y.from_edge);
        assert(text(y.from_edge, z.from_edge) == Rank::Same <==> y.from_edge == z.from_edge);
        if x.from_edge == y.from_edge && y.from_edge == z.from_edge {
            assert(dirs(x.directions, y.directions) == Rank::Before);
            assert(dirs(y.directions, z.directions) == Rank::Before);
            assert(text(x.from_edge, z.from_edge) == Rank::Same);
        } else if x.from_edge != y.from_edge && y.from_edge != z.from_edge {
            assert(text(x.from_edge, y.from_edge) == Rank::Before);
            assert(text(y.from_edge, z.from_edge) == Rank::Before);
        }
    }
}

fn direction_place(direction: ConnectionDirection) -> (place: u8)
    ensures
        place == direction_number(direction),
{
    match direction {
        ConnectionDirection::Straight => 0,
        ConnectionDirection::Turn => 1,
        ConnectionDirection::TurnLeftHand => 2,
        ConnectionDirection::Left => 3,
        ConnectionDirection::Right => 4,
        ConnectionDirection::PartialLeft => 5,
        ConnectionDirection::PartialRight => 6,
    }
}

/// Compares two lists of directions.
pub fn compare_directions(
    a: &Vec<ConnectionDirection>,
    b: &Vec<ConnectionDirection>,
) -> (rank: Rank)
    ensures
        rank == directions_rank(a@, b@),
{
    let mut i: usize = 0;
    assert(a@.skip(0) =~= a@);
    assert(b@.skip(0) =~= b@);
    while i < a.len() && i < b.len()
        invariant
            i <= a.len(),
            i <= b.len(),
            directions_rank(a@, b@) == directions_rank(a@.skip(i as int), b@.skip(i as int)),
        decreases a.len() - i,
    {
        let x: u8 = direction_place(a[i]);
        let y: u8 = direction_place(b[i]);
        assert(a@.skip(i as int)[0] == a@[i as int]);
        assert(b@.skip(i as int)[0] == b@[i as int]);
        if x < y {
            return Rank::Before;
        }
        if y < x {
            return Rank::After;
        }
        assert(a@.skip(i as int).drop_first() =~= a@.skip(i + 1));
        assert(b@.skip(i as int).drop_first() =~= b@.skip(i + 1));
        i = i + 1;
    }
    if i < a.len() {
        Rank::After
    } else if i < b.len() {
        Rank::Before
    } else {
        Rank::Same
    }
}

impl MovementKey {
    /// Compares two movements.
    pub fn compare(&self, other: &MovementKey) -> (rank: Rank)
        ensures
            rank == movement_rank(self@, other@),
    {
        match compare_text(self.from_edge.as_str(), other.from_edge.as_str()) {
            Rank::Same => compare_directions(&self.directions, &other.directions),
            rank => rank,
        }
    }
}

/// The directions that occur in `directions`, each once, in order.
pub fn sort_directions(directions: &Vec<ConnectionDirection>) -> (sorted: Vec<
    ConnectionDirection,
>)
    ensures
        sorted@ == sorted_directions(directions@),
{
    let all: [ConnectionDirection; 7] = [
        ConnectionDirection::Straight,
        ConnectionDirection::Turn,
        ConnectionDirection::TurnLeftHand,
        ConnectionDirection::Left,
        ConnectionDirection::Right,
        ConnectionDirection::PartialLeft,
        ConnectionDirection::PartialRight,
    ];
    let ghost wanted = |d: ConnectionDirection| directions@.contains(d);
    let mut sorted: Vec<ConnectionDirection> = Vec::new();
    assert(all@ =~= all_directions());
    proof {
        reveal(Seq::filter);
        assert(all@.take(0) =~= Seq::empty());
        assert(sorted@ =~= all@.take(0).filter(wanted));
    }
    let mut i: usize = 0;
    while i < 7
        invariant
            i <= 7,
            all@ == all_directions(),
            wanted == (|d: ConnectionDirection| directions@.contains(d)),
            sorted@ == all@.take(i as int).filter(wanted),
        decreases 7 - i,
    {
        let direction: ConnectionDirection = all[i];
        proof {
            reveal(Seq::filter);
            assert(all@.take(i + 1).drop_last() =~= all@.take(i as int));
            assert(all@.take(i + 1).last() == direction);
        }
        let mut present: bool = false;
        let mut k: usize = 0;
        while k < directions.len()
            invariant
                k <= directions.len(),
                present <==> exists|j: int| 0 <= j < k && directions@[j] == direction,
            decreases directions.len() - k,
        {
            if directions[k] == direction {
                present = true;
            }
            k = k + 1;
        }
        assert(present == wanted(direction));
        if present {
            sorted.push(direction);
        }
        i = i + 1;
    }
    assert(all@.take(7) =~= all@);
    sorted
}

} // verus!
