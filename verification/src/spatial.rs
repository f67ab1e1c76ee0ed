use vstd::prelude::*;
use vstd::arithmetic::div_mod::*;
use std::collections::HashMap;

verus! {

/// A position on the projected plane, in whole metres.
#[derive(Debug, Clone, Copy, PartialEq, Eq, Structural)]
pub struct Point {
    pub x: i32,
    pub y: i32,
}

/// The walking distance between two points: the sum of the distances along
/// the two axes.
pub open spec fn manhattan(a: Point, b: Point) -> int {
    (if a.x >= b.x { a.x - b.x } else { b.x - a.x }) + (if a.y >= b.y { a.y - b.y } else { b.y - a.y })
}

/// The side of the grid's square cells for a walking radius: the radius
/// itself, and one metre for a radius of zero.
pub open spec fn cell_side(max_dist: u32) -> int {
    if max_dist == 0 {
        1
    } else {
        max_dist as int
    }
}

/// The cell of the grid that a point falls into: its coordinates divided by
/// the side, rounded down.
pub open spec fn cell_of(p: Point, side: int) -> (int, int) {
    (p.x as int / side, p.y as int / side)
}

/// The position of `cell` in the three-by-three block of cells around
/// `centre`, counted row by row from 0 to 8; outside the block it is not in
/// that range.
pub open spec fn block_rank(centre: (int, int), cell: (int, int)) -> int {
    if -1 <= cell.0 - centre.0 <= 1 && -1 <= cell.1 - centre.1 <= 1 {
        (cell.0 - centre.0 + 1) * 3 + (cell.1 - centre.1 + 1)
    } else {
        -1
    }
}

/// Whether stop `t` is a pedestrian neighbour of stop `s`: another stop
/// within the walking radius.
pub open spec fn is_neighbour(coords: Seq<Point>, max_dist: u32, s: int, t: int) -> bool {
    &&& 0 <= s < coords.len()
    &&& 0 <= t < coords.len()
    &&& s != t
    &&& manhattan(coords[s], coords[t]) <= max_dist
}

/// Whether `list` names stop `t`.
pub open spec fn lists_stop(list: Seq<(usize, u32)>, t: int) -> bool {
    exists|j: int| 0 <= j < list.len() && (#[trigger] list[j]).0 == t
}

/// The order in which the neighbours of stop `s` are listed: cell by cell
/// through the block of cells around the cell of `s`, and within a cell in
/// the order of the stops.
pub open spec fn listed_before(coords: Seq<Point>, max_dist: u32, s: int, a: int, b: int) -> bool {
    let side = cell_side(max_dist);
    let centre = cell_of(coords[s], side);
    rank_of(coords, side, centre, a) < rank_of(coords, side, centre, b) || (rank_of(
        coords,
        side,
        centre,
        a,
    ) == rank_of(coords, side, centre, b) && a < b)
}

/// Whether `list` is the neighbour list of stop `s`: it names every
/// neighbour of `s` once, with its distance, and nothing else, in the order
/// of [`listed_before`].
pub open spec fn is_neighbour_list(
    list: Seq<(usize, u32)>,
    coords: Seq<Point>,
    max_dist: u32,
    s: int,
) -> bool {
    &&& forall|j: int|
        0 <= j < list.len() ==> is_neighbour(coords, max_dist, s, (#[trigger] list[j]).0 as int)
            && list[j].1 == manhattan(coords[s], coords[list[j].0 as int])
    &&& forall|t: int| #[trigger] is_neighbour(coords, max_dist, s, t) ==> lists_stop(list, t)
    &&& forall|i: int, j: int|
        0 <= i < j < list.len() ==> listed_before(
            coords,
            max_dist,
            s,
            (#[trigger] list[i]).0 as int,
            (#[trigger] list[j]).0 as int,
        )
}

/// Whether `connections` holds the neighbour list of every stop.
pub open spec fn are_pedestrian_connections(
    connections: Seq<Vec<(usize, u32)>>,
    coords: Seq<Point>,
    max_dist: u32,
) -> bool {
    &&& connections.len() == coords.len()
    &&& forall|s: int|
        0 <= s < coords.len() ==> is_neighbour_list(
            (#[trigger] connections[s])@,
            coords,
            max_dist,
            s,
        )
}

/// Neighbourhood is symmetric: the walking distance does not depend on the
/// direction, so each stop of a pair is a neighbour of the other.
pub proof fn lemma_neighbours_symmetric(coords: Seq<Point>, max_dist: u32, s: int, t: int)
    ensures
        is_neighbour(coords, max_dist, s, t) == is_neighbour(coords, max_dist, t, s),
        manhattan(coords[s], coords[t]) == manhattan(coords[t], coords[s]),
{
}

/// In the lists of all stops, each pair of neighbours appears in both
/// directions and no stop appears in its own list.
pub proof fn lemma_connections_symmetric(
    connections: Seq<Vec<(usize, u32)>>,
    coords: Seq<Point>,
    max_dist: u32,
    s: int,
    t: int,
)
    requires
        are_pedestrian_connections(connections, coords, max_dist),
        0 <= s < coords.len(),
        0 <= t < coords.len(),
    ensures
        lists_stop(connections[s]@, t) == lists_stop(connections[t]@, s),
        !lists_stop(connections[s]@, s),
{
    assert(is_neighbour_list(connections[s]@, coords, max_dist, s));
    assert(is_neighbour_list(connections[t]@, coords, max_dist, t));
    lemma_neighbours_symmetric(coords, max_dist, s, t);
    if lists_stop(connections[s]@, t) {
        assert(is_neighbour(coords, max_dist, s, t));
    }
    if lists_stop(connections[t]@, s) {
        assert(is_neighbour(coords, max_dist, t, s));
    }
}

/// Two points within `side` of each other along both axes lie in the same
/// cell or in cells that touch.
pub proof fn lemma_close_points_in_block(a: Point, b: Point, side: int)
    requires
        side > 0,
        manhattan(a, b) <= side,
    ensures
        0 <= block_rank(cell_of(a, side), cell_of(b, side)) < 9,
{
    lemma_near_quotients(b.x as int, a.x as int, side);
    lemma_near_quotients(b.y as int, a.y as int, side);
}

proof fn lemma_near_quotients(a: int, b: int, side: int)
    requires
        side > 0,
        a - b <= side,
        b - a <= side,
    ensures
        -1 <= a / side - b / side <= 1,
{
    lemma_fundamental_div_mod(a, side);
    lemma_fundamental_div_mod(b, side);
    lemma_mod_bound(a, side);
    lemma_mod_bound(b, side);
    let qa = a / side;
    let qb = b / side;
    if qa - qb >= 2 {
        assert(side * qa - side * qb >= 2 * side) by (nonlinear_arith)
            requires
                qa - qb >= 2,
                side > 0,
        ;
    }
    if qb - qa >= 2 {
        assert(side * qb - side * qa >= 2 * side) by (nonlinear_arith)
            requires
                qb - qa >= 2,
                side > 0,
        ;
    }
}

/// The quotient of a coordinate by a positive side stays within the range
/// of the coordinates.
proof fn lemma_quotient_range(x: int, side: int)
    requires
        side > 0,
        -0x8000_0000 <= x < 0x8000_0000,
    ensures
        -0x8000_0000 <= x / side < 0x8000_0000,
{
    lemma_fundamental_div_mod(x, side);
    lemma_mod_bound(x, side);
    let q = x / side;
    if q >= 0x8000_0000 {
        assert(side * q >= 0x8000_0000) by (nonlinear_arith)
            requires
                q >= 0x8000_0000,
                side >= 1,
        ;
    }
    if q < -0x8000_0000 {
        assert(side * q + side <= -0x8000_0000) by (nonlinear_arith)
            requires
                q + 1 <= -0x8000_0000,
                side >= 1,
        ;
    }
}

/// The number under which the grid files a cell.
pub open spec fn cell_key(cell: (int, int)) -> int {
    cell.0 * 0x4_0000_0000 + cell.1
}

/// Whether a cell is one that a point can fall into, or touches one.
pub open spec fn cell_in_reach(cell: (int, int)) -> bool {
    &&& -0x8000_0001 <= cell.0 <= 0x8000_0000
    &&& -0x8000_0001 <= cell.1 <= 0x8000_0000
}

/// The grid of square cells into which the stops are sorted.
pub struct Squares {
    side: u32,
    index: HashMap<i128, usize>,
    keys: Vec<i128>,
    cells: Vec<Vec<usize>>,
}

impl Squares {
    /// The side of the cells, in metres.
    pub closed spec fn side(&self) -> int {
        self.side as int
    }

    /// The stops filed under `cell`, in the order in which they were filed.
    pub closed spec fn members(&self, cell: (int, int)) -> Seq<usize> {
        if self.index@.contains_key(cell_key(cell) as i128) {
            self.cells@[self.index@[cell_key(cell) as i128] as int]@
        } else {
            Seq::empty()
        }
    }

    /// Whether the grid's own bookkeeping is in order: every key leads to
    /// the cell that is filed under it.
    pub closed spec fn consistent(&self) -> bool {
        &&& self.side >= 1
        &&& self.keys@.len() == self.cells@.len()
        &&& forall|k: i128| #[trigger]
            self.index@.contains_key(k) ==> self.index@[k] < self.cells@.len()
                && self.keys@[self.index@[k] as int] == k
        &&& forall|c: int|
            0 <= c < self.keys@.len() ==> self.index@.contains_key(#[trigger] self.keys@[c])
                && self.index@[self.keys@[c]] == c
    }

    /// Whether the grid holds exactly the stops of `coords`, each in the
    /// cell that it falls into, and each cell's stops in ascending order.
    pub open spec fn sorts(&self, coords: Seq<Point>, max_dist: u32) -> bool {
        &&& self.consistent()
        &&& self.side() == cell_side(max_dist)
        &&& forall|cell: (int, int), i: int|
            cell_in_reach(cell) && 0 <= i < self.members(cell).len() ==> {
                &&& (#[trigger] self.members(cell)[i]) < coords.len()
                &&& cell_of(coords[self.members(cell)[i] as int], self.side()) == cell
            }
        &&& forall|cell: (int, int), i: int, j: int|
            cell_in_reach(cell) && 0 <= i < j < self.members(cell).len() ==> (
            #[trigger] self.members(cell)[i]) < (#[trigger] self.members(cell)[j])
        &&& forall|s: int|
            0 <= s < coords.len() ==> #[trigger] self.files(cell_of(coords[s], self.side()), s)
    }

    /// Whether stop `s` is filed under `cell`.
    pub open spec fn files(&self, cell: (int, int), s: int) -> bool {
        exists|i: int| 0 <= i < self.members(cell).len() && #[trigger] self.members(cell)[i] == s
    }
}

/// Distinct cells in reach are filed under distinct keys.
proof fn lemma_cell_key_injective(a: (int, int), b: (int, int))
    requires
        cell_in_reach(a),
        cell_in_reach(b),
        cell_key(a) == cell_key(b),
    ensures
        a == b,
        -0x4_0000_0000_0000_0000 < cell_key(a) < 0x4_0000_0000_0000_0000,
{
}

/// A point's cell is in reach, and so are the cells around it.
proof fn lemma_cell_in_reach(p: Point, side: int, dx: int, dy: int)
    requires
        side > 0,
        -1 <= dx <= 1,
        -1 <= dy <= 1,
    ensures
        cell_in_reach(cell_of(p, side)),
        cell_in_reach((cell_of(p, side).0 + dx, cell_of(p, side).1 + dy)),
{
    lemma_quotient_range(p.x as int, side);
    lemma_quotient_range(p.y as int, side);
}

/// The coordinate of the cell that `x` falls into.
fn cell_coord(x: i32, side: u32) -> (c: i64)
    requires
        side > 0,
    ensures
        c == (x as int) / (side as int),
        -0x8000_0000 <= c < 0x8000_0000,
{
    let wide: i64 = x as i64;
    let s: i64 = side as i64;
    proof {
        lemma_quotient_range(x as int, side as int);
    }
    if wide >= 0 {
        wide / s
    } else {
        let up: i64 = -wide;
        let q: i64 = (up + s - 1) / s;
        proof {
            let d = s as int;
            let qi = q as int;
            lemma_fundamental_div_mod(up + s - 1, d);
            let r = (up + s - 1) % d;
            assert(0 <= r < d) by {
                lemma_mod_bound(up + s - 1, d);
            }
            assert(up + s - 1 == d * qi + r);
            assert((-qi) * d == -(d * qi)) by (nonlinear_arith);
            lemma_fundamental_div_mod_converse(x as int, d, -qi, d - 1 - r);
        }
        -q
    }
}

/// The key of the cell at (`cx`, `cy`).
fn key_of(cx: i64, cy: i64) -> (key: i128)
    requires
        cell_in_reach((cx as int, cy as int)),
    ensures
        key == cell_key((cx as int, cy as int)),
{
    (cx as i128) * 0x4_0000_0000 + (cy as i128)
}

/// The walking distance between two points.
fn distance(a: &Point, b: &Point) -> (d: u64)
    ensures
        d == manhattan(*a, *b),
{
    let ax: i64 = a.x as i64;
    let bx: i64 = b.x as i64;
    let ay: i64 = a.y as i64;
    let by: i64 = b.y as i64;
    let dx: i64 = if ax >= bx { ax - bx } else { bx - ax };
    let dy: i64 = if ay >= by { ay - by } else { by - ay };
    (dx + dy) as u64
}

/// Sorts the stops into square cells whose side is the walking radius.
///
/// `utm_coords` holds the position of each stop; the grid names the stops by
/// their place in it.
pub fn calculate_proximity_squares(utm_coords: &Vec<Point>, max_connection_dist: u32) -> (squares:
    Squares)
    ensures
        squares.sorts(utm_coords@, max_connection_dist),
{
    broadcast use vstd::std_specs::hash::group_hash_axioms;

    let side: u32 = if max_connection_dist == 0 { 1 } else { max_connection_dist };
    let mut squares = Squares { side, index: HashMap::new(), keys: Vec::new(), cells: Vec::new() };
    let mut s: usize = 0;
    while s < utm_coords.len()
        invariant
            s <= utm_coords.len(),
            squares.side == side,
            side as int == cell_side(max_connection_dist),
            squares.consistent(),
            forall|c: int, i: int|
                0 <= c < squares.cells@.len() && 0 <= i < squares.cells@[c]@.len() ==> {
                    &&& (#[trigger] squares.cells@[c]@[i]) < s
                    &&& cell_key(cell_of(utm_coords@[squares.cells@[c]@[i] as int], side as int))
                        == squares.keys@[c]
                },
            forall|c: int, i: int, j: int|
                0 <= c < squares.cells@.len() && 0 <= i < j < squares.cells@[c]@.len() ==> (
                #[trigger] squares.cells@[c]@[i]) < (#[trigger] squares.cells@[c]@[j]),
            forall|t: int|
                0 <= t < s ==> #[trigger] squares.files(cell_of(utm_coords@[t], side as int), t),
        decreases utm_coords.len() - s,
    {
        let point = utm_coords[s];
        let cx = cell_coord(point.x, side);
        let cy = cell_coord(point.y, side);
        let key = key_of(cx, cy);
        let ghost cell = cell_of(point, side as int);
        let ghost earlier = squares;
        let found = match squares.index.get(&key) {
            Some(c) => Some(*c),
            None => None,
        };
        match found {
            Some(c) => {
                squares.cells[c].push(s);
                proof {
                    assert(squares.index@ == earlier.index@);
                    assert(squares.keys@ == earlier.keys@);
                    assert forall|t: int| 0 <= t <= s implies #[trigger] squares.files(
                        cell_of(utm_coords@[t], side as int),
                        t,
                    ) by {
                        let tc = cell_of(utm_coords@[t], side as int);
                        if t < s {
                            assert(earlier.files(tc, t));
                            let i = choose|i: int|
                                0 <= i < earlier.members(tc).len() && #[trigger] earlier.members(tc)[i]
                                    == t;
                            assert(squares.members(tc)[i] == t);
                        } else {
                            let i = earlier.cells@[c as int]@.len() as int;
                            assert(squares.members(tc)[i] == t);
                        }
                    }
                }
            },
            None => {
                let fresh = squares.cells.len();
                squares.index.insert(key, fresh);
                squares.keys.push(key);
                let mut members: Vec<usize> = Vec::new();
                members.push(s);
                squares.cells.push(members);
                proof {
                    assert forall|t: int| 0 <= t <= s implies #[trigger] squares.files(
                        cell_of(utm_coords@[t], side as int),
                        t,
                    ) by {
                        let tc = cell_of(utm_coords@[t], side as int);
                        if t < s {
                            assert(earlier.files(tc, t));
                            let i = choose|i: int|
                                0 <= i < earlier.members(tc).len() && #[trigger] earlier.members(tc)[i]
                                    == t;
                            assert(squares.members(tc)[i] == t);
                        } else {
                            assert(squares.members(tc)[0] == t);
                        }
                    }
                }
            },
        }
        s += 1;
    }
    proof {
        assert forall|cell: (int, int), i: int|
            cell_in_reach(cell) && 0 <= i < squares.members(cell).len() implies {
            &&& (#[trigger] squares.members(cell)[i]) < utm_coords@.len()
            &&& cell_of(utm_coords@[squares.members(cell)[i] as int], squares.side()) == cell
        } by {
            let c = squares.index@[cell_key(cell) as i128] as int;
            let m = squares.cells@[c]@[i];
            lemma_cell_in_reach(utm_coords@[m as int], side as int, 0, 0);
            lemma_cell_key_injective(cell, cell_of(utm_coords@[m as int], side as int));
        }
    }
    squares
}

/// The place of stop `t`'s cell in the block of cells around `centre`.
pub open spec fn rank_of(coords: Seq<Point>, side: int, centre: (int, int), t: int) -> int {
    block_rank(centre, cell_of(coords[t], side))
}

/// The cell at place `k` of the block around `centre`.
pub open spec fn block_cell(centre: (int, int), k: int) -> (int, int) {
    (centre.0 + k / 3 - 1, centre.1 + k % 3 - 1)
}

/// The neighbours of stop `s`, found in the cells around its own.
fn connections_of(utm_coords: &Vec<Point>, squares: &Squares, max_conn_dist: u32, s: usize) -> (list:
    Vec<(usize, u32)>)
    requires
        squares.sorts(utm_coords@, max_conn_dist),
        s < utm_coords.len(),
    ensures
        is_neighbour_list(list@, utm_coords@, max_conn_dist, s as int),
{
    broadcast use vstd::std_specs::hash::group_hash_axioms;

    let side = squares.side;
    let here = utm_coords[s];
    let cx = cell_coord(here.x, side);
    let cy = cell_coord(here.y, side);
    let ghost coords = utm_coords@;
    let ghost centre = cell_of(here, side as int);
    let mut list: Vec<(usize, u32)> = Vec::new();
    let mut k: u8 = 0;
    while k < 9
        invariant
            k <= 9,
            squares.sorts(coords, max_conn_dist),
            coords == utm_coords@,
            s < coords.len(),
            side == squares.side,
            side >= 1,
            side as int == cell_side(max_conn_dist),
            here == coords[s as int],
            centre == cell_of(here, side as int),
            cx == centre.0,
            cy == centre.1,
            forall|j: int|
                0 <= j < list@.len() ==> {
                    &&& is_neighbour(coords, max_conn_dist, s as int, (#[trigger] list@[j]).0 as int)
                    &&& list@[j].1 == manhattan(coords[s as int], coords[list@[j].0 as int])
                    &&& 0 <= rank_of(coords, side as int, centre, list@[j].0 as int) < k
                },
            forall|t: int|
                #[trigger] is_neighbour(coords, max_conn_dist, s as int, t) && 0 <= rank_of(
                    coords,
                    side as int,
                    centre,
                    t,
                ) < k ==> lists_stop(list@, t),
            forall|i: int, j: int|
                0 <= i < j < list@.len() ==> listed_before(
                    coords,
                    max_conn_dist,
                    s as int,
                    (#[trigger] list@[i]).0 as int,
                    (#[trigger] list@[j]).0 as int,
                ),
        decreases 9 - k,
    {
        let dx: i64 = (k / 3) as i64 - 1;
        let dy: i64 = (k % 3) as i64 - 1;
        let ghost cell = block_cell(centre, k as int);
        proof {
            lemma_cell_in_reach(here, side as int, dx as int, dy as int);
            assert(cell == (cx + dx, cy + dy));
            assert(block_rank(centre, cell) == k);
        }
        let key = key_of(cx + dx, cy + dy);
        let found = match squares.index.get(&key) {
            Some(c) => Some(*c),
            None => None,
        };
        match found {
            Some(c) => {
                let members = &squares.cells[c];
                assert(members@ == squares.members(cell));
                let mut m: usize = 0;
                while m < members.len()
                    invariant
                        k < 9,
                        m <= members.len(),
                        members@ == squares.members(cell),
                        cell_in_reach(cell),
                        block_rank(centre, cell) == k,
                        squares.sorts(coords, max_conn_dist),
                        coords == utm_coords@,
                        s < coords.len(),
                        side as int == squares.side(),
                        side as int == cell_side(max_conn_dist),
                        centre == cell_of(here, side as int),
                        here == coords[s as int],
                        forall|j: int|
                            0 <= j < list@.len() ==> {
                                &&& is_neighbour(
                                    coords,
                                    max_conn_dist,
                                    s as int,
                                    (#[trigger] list@[j]).0 as int,
                                )
                                &&& list@[j].1 == manhattan(coords[s as int], coords[list@[j].0 as int])
                                &&& 0 <= rank_of(coords, side as int, centre, list@[j].0 as int) <= k
                                &&& rank_of(coords, side as int, centre, list@[j].0 as int) == k
                                    ==> exists|i: int| 0 <= i < m && #[trigger] members@[i] == list@[j].0
                            },
                        forall|t: int|
                            #[trigger] is_neighbour(coords, max_conn_dist, s as int, t) && 0
                                <= rank_of(coords, side as int, centre, t) < k ==> lists_stop(list@, t),
                        forall|i: int|
                            0 <= i < m && is_neighbour(
                                coords,
                                max_conn_dist,
                                s as int,
                                (#[trigger] members@[i]) as int,
                            ) ==> lists_stop(list@, members@[i] as int),
                        forall|i: int, j: int|
                            0 <= i < j < list@.len() ==> listed_before(
                                coords,
                                max_conn_dist,
                                s as int,
                                (#[trigger] list@[i]).0 as int,
                                (#[trigger] list@[j]).0 as int,
                            ),
                    decreases members.len() - m,
                {
                    let near = members[m];
                    assert(near == squares.members(cell)[m as int]);
                    let there = utm_coords[near];
                    let apart = distance(&here, &there);
                    let ghost earlier = list@;
                    if near != s && apart <= max_conn_dist as u64 {
                        list.push((near, apart as u32));
                        proof {
                            let last = earlier.len() as int;
                            assert(list@[last].0 == near);
                            assert(rank_of(coords, side as int, centre, near as int) == k);
                            assert forall|i: int, j: int| 0 <= i < j < list@.len() implies listed_before(
                                coords,
                                max_conn_dist,
                                s as int,
                                (#[trigger] list@[i]).0 as int,
                                (#[trigger] list@[j]).0 as int,
                            ) by {
                                if j == last {
                                    assert(list@[i] == earlier[i]);
                                    if rank_of(coords, side as int, centre, earlier[i].0 as int) == k {
                                        let w = choose|w: int|
                                            0 <= w < m && #[trigger] members@[w] == earlier[i].0;
                                        assert(squares.members(cell)[w] < squares.members(cell)[m as int]);
                                    }
                                } else {
                                    assert(list@[i] == earlier[i] && list@[j] == earlier[j]);
                                }
                            }
                            assert forall|j: int| 0 <= j < list@.len() implies {
                                &&& is_neighbour(
                                    coords,
                                    max_conn_dist,
                                    s as int,
                                    (#[trigger] list@[j]).0 as int,
                                )
                                &&& list@[j].1 == manhattan(coords[s as int], coords[list@[j].0 as int])
                                &&& 0 <= rank_of(coords, side as int, centre, list@[j].0 as int) <= k
                                &&& rank_of(coords, side as int, centre, list@[j].0 as int) == k
                                    ==> exists|i: int|
                                    0 <= i < m + 1 && #[trigger] members@[i] == list@[j].0
                            } by {
                                if j == last {
                                    assert(members@[m as int] == list@[j].0);
                                } else {
                                    assert(list@[j] == earlier[j]);
                                    if rank_of(coords, side as int, centre, earlier[j].0 as int) == k {
                                        let w = choose|w: int|
                                            0 <= w < m && #[trigger] members@[w] == earlier[j].0;
                                        assert(members@[w] == list@[j].0);
                                    }
                                }
                            }
                            assert forall|t: int| lists_stop(earlier, t) implies lists_stop(list@, t) by {
                                let j = choose|j: int| 0 <= j < earlier.len() && (#[trigger] earlier[j]).0 == t;
                                assert(list@[j].0 == t);
                            }
                            assert(lists_stop(list@, near as int));
                        }
                    }
                    m += 1;
                }
                proof {
                    assert forall|t: int|
                        #[trigger] is_neighbour(coords, max_conn_dist, s as int, t) && rank_of(
                            coords,
                            side as int,
                            centre,
                            t,
                        ) == k implies lists_stop(list@, t) by {
                        let tc = cell_of(coords[t], side as int);
                        assert(squares.files(tc, t));
                        assert(tc == cell);
                        let i = choose|i: int|
                            0 <= i < squares.members(tc).len() && #[trigger] squares.members(tc)[i] == t;
                        assert(members@[i] == t);
                    }
                }
            },
            None => {
                proof {
                    assert forall|t: int|
                        #[trigger] is_neighbour(coords, max_conn_dist, s as int, t) && rank_of(
                            coords,
                            side as int,
                            centre,
                            t,
                        ) == k implies lists_stop(list@, t) by {
                        let tc = cell_of(coords[t], side as int);
                        assert(squares.files(tc, t));
                        assert(tc == cell);
                        assert(squares.members(cell).len() == 0);
                    }
                }
            },
        }
        k += 1;
    }
    proof {
        assert forall|t: int| #[trigger]
            is_neighbour(coords, max_conn_dist, s as int, t) implies lists_stop(list@, t) by {
            lemma_close_points_in_block(coords[s as int], coords[t], side as int);
        }
    }
    list
}

/// Finds, for every stop, the other stops within walking distance.
///
/// Only the cells around a stop's own are searched; since the cells are as
/// wide as the walking radius, no stop in reach is missed.
pub fn get_pedestrian_connections(
    utm_coords: &Vec<Point>,
    squares: &Squares,
    max_conn_dist: u32,
) -> (connections: Vec<Vec<(usize, u32)>>)
    requires
        squares.sorts(utm_coords@, max_conn_dist),
    ensures
        are_pedestrian_connections(connections@, utm_coords@, max_conn_dist),
{
    let mut connections: Vec<Vec<(usize, u32)>> = Vec::new();
    let mut s: usize = 0;
    while s < utm_coords.len()
        invariant
            s <= utm_coords.len(),
            squares.sorts(utm_coords@, max_conn_dist),
            connections@.len() == s,
            forall|t: int|
                0 <= t < s ==> is_neighbour_list(
                    (#[trigger] connections@[t])@,
                    utm_coords@,
                    max_conn_dist,
                    t,
                ),
        decreases utm_coords.len() - s,
    {
        let list = connections_of(utm_coords, squares, max_conn_dist, s);
        connections.push(list);
        s += 1;
    }
    connections
}

} // verus!
