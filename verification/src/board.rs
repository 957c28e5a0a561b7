//! The breadboard: parts and wires on a grid of cells.
//!
//! Wires are cells too, each holding which of its four sides it joins. A
//! wire and a pin join when both point at each other. Where two wires
//! cross straight over each other they do not touch, unless the cell is
//! marked as a join.

use vstd::prelude::*;
use std::collections::BTreeMap;
use crate::geom::{step, joins, is_side, spec_offset, spec_opposite, offset, opposite, N, E, S, W, JOIN};
use crate::numbers::is_float;
use crate::part::{Part, on_grid, pin_cells, body_cells, in_body, inward_side, lemma_pins_shape, lemma_body_shape};

verus! {

/// What a cell of the board holds.
#[derive(Clone, Copy, PartialEq, Eq, Structural, Debug)]
pub enum Cell {
    /// The sides it joins.
    Wire(u8),
    /// Part index.
    Body(usize),
    /// Part index, pin number, the sides where wires join it.
    Pin(usize, usize, u8),
}

/// Parts and the cells they and the wires take.
pub struct Board {
    /// Parts by index; a deleted part leaves `None` so the others keep
    /// their numbers.
    pub parts: Vec<Option<Part>>,
    /// Every cell in use, keyed by row and then column, `(y, x)`, so that
    /// the map runs in reading order.
    pub cells: BTreeMap<(i32, i32), Cell>,
}

/// A position `(x, y)` as a key of `Board::cells`, and back: the two
/// coordinates change places.
pub open spec fn swap(p: (i32, i32)) -> (i32, i32) {
    (p.1, p.0)
}

/// The sides a cell's mask holds, if it is a wire or a pin.
pub open spec fn mask_of(c: Cell) -> Option<u8> {
    match c {
        Cell::Wire(m) => Some(m),
        Cell::Pin(_, _, m) => Some(m),
        Cell::Body(_) => None,
    }
}

/// The part a body or pin cell belongs to.
pub open spec fn owner_of(c: Cell) -> Option<usize> {
    match c {
        Cell::Wire(_) => None,
        Cell::Body(i) => Some(i),
        Cell::Pin(i, _, _) => Some(i),
    }
}

/// The part and pin number of a pin cell.
pub open spec fn pin_of(c: Cell) -> Option<(usize, usize)> {
    match c {
        Cell::Pin(i, k, _) => Some((i, k)),
        _ => None,
    }
}

/// The cell with side bits `d` added to its mask; a body cell stays as it is.
pub open spec fn with_sides(c: Cell, d: u8) -> Cell {
    match c {
        Cell::Wire(m) => Cell::Wire(m | d),
        Cell::Pin(i, k, m) => Cell::Pin(i, k, m | d),
        Cell::Body(i) => Cell::Body(i),
    }
}

/// The cell with side `d` taken out of its mask; a body cell stays as it is.
pub open spec fn without_side(c: Cell, d: u8) -> Cell {
    match c {
        Cell::Wire(m) => Cell::Wire(m & !d),
        Cell::Pin(i, k, m) => Cell::Pin(i, k, m & !d),
        Cell::Body(i) => Cell::Body(i),
    }
}

/// `at` is one of the part's cells: its body or a pin.
pub open spec fn covers(p: Part, at: (i32, i32)) -> bool {
    in_body(p, at) || pin_cells(p).contains(at)
}

/// The cells after part `p` is put down as part number `i`: body cells,
/// and pins with no wires joined yet.
pub open spec fn with_part(m: Map<(i32, i32), Cell>, i: usize, p: Part) -> Map<(i32, i32), Cell> {
    Map::new(
        |key: (i32, i32)| m.contains_key(key) || covers(p, swap(key)),
        |key: (i32, i32)|
            if in_body(p, swap(key)) {
                Cell::Body(i)
            } else if pin_cells(p).contains(swap(key)) {
                Cell::Pin(i, pin_cells(p).index_of(swap(key)) as usize, 0)
            } else {
                m[key]
            },
    )
}

/// The cells after part `p` is put down as part number `i`, pin `k`
/// joining the sides `ms[k]`.
spec fn with_part_masks(m: Map<(i32, i32), Cell>, i: usize, p: Part, ms: Seq<u8>) -> Map<(i32, i32), Cell> {
    Map::new(
        |key: (i32, i32)| m.contains_key(key) || covers(p, swap(key)),
        |key: (i32, i32)|
            if in_body(p, swap(key)) {
                Cell::Body(i)
            } else if pin_cells(p).contains(swap(key)) {
                Cell::Pin(i, pin_cells(p).index_of(swap(key)) as usize, ms[pin_cells(p).index_of(swap(key))])
            } else {
                m[key]
            },
    )
}

/// Pin `k` of `q` lies where pin `k` of `p` lay.
pub open spec fn pin_stays(p: Part, q: Part, k: int) -> bool {
    k < pin_cells(q).len() && pin_cells(q)[k] == pin_cells(p)[k]
}

/// Side `e` of `at` faced a pin of `p` that joined back and does not stay
/// when `p` becomes `q`.
pub open spec fn loose_side(m: Map<(i32, i32), Cell>, p: Part, q: Part, at: (i32, i32), e: u8) -> bool {
    cut_side(m, p, at, e) && !pin_stays(p, q, pin_cells(p).index_of(step(at, e)))
}

/// The sides of `at` that lose their wire when `p` becomes `q`.
pub open spec fn loose_sides(m: Map<(i32, i32), Cell>, p: Part, q: Part, at: (i32, i32)) -> u8 {
    side_bits(loose_side(m, p, q, at, N), loose_side(m, p, q, at, E), loose_side(m, p, q, at, S), loose_side(m, p, q, at, W))
}

/// The mask pin `j` of `q` keeps: the old one where pin `j` of `p` lay
/// on the same cell, none where the pin moved.
pub open spec fn kept_mask(m: Map<(i32, i32), Cell>, p: Part, q: Part, j: int) -> u8 {
    if j < pin_cells(p).len() && pin_stays(p, q, j) {
        mask_in(m, pin_cells(q)[j])
    } else {
        0
    }
}

/// The cells after part `i`, which was `p`, becomes `q`: `p`'s cells
/// are given up and `q`'s taken; a pin that stays keeps its wires, and
/// only the wires to pins that moved come loose.
pub open spec fn changed_cells(m: Map<(i32, i32), Cell>, i: usize, p: Part, q: Part) -> Map<(i32, i32), Cell> {
    Map::new(
        |key: (i32, i32)| (m.contains_key(key) && !covers(p, swap(key))) || covers(q, swap(key)),
        |key: (i32, i32)|
            without_side(
                if in_body(q, swap(key)) {
                    Cell::Body(i)
                } else if pin_cells(q).contains(swap(key)) {
                    Cell::Pin(i, pin_cells(q).index_of(swap(key)) as usize, kept_mask(m, p, q, pin_cells(q).index_of(swap(key))))
                } else {
                    m[key]
                },
                loose_sides(m, p, q, swap(key)),
            ),
    )
}

/// The mask at `at`, or nothing for a body cell or an empty one.
pub open spec fn mask_in(m: Map<(i32, i32), Cell>, at: (i32, i32)) -> u8 {
    if m.contains_key(swap(at)) {
        match mask_of(m[swap(at)]) {
            Some(x) => x,
            None => 0,
        }
    } else {
        0
    }
}

/// The mask bits of the sides whose flags are set.
pub open spec fn side_bits(n: bool, e: bool, s: bool, w: bool) -> u8 {
    (if n { N } else { 0u8 }) | (if e { E } else { 0u8 }) | (if s { S } else { 0u8 }) | (if w { W } else { 0u8 })
}

/// Side `e` of the cell at `at` faced a pin of `p` that joined back.
pub open spec fn cut_side(m: Map<(i32, i32), Cell>, p: Part, at: (i32, i32), e: u8) -> bool {
    can_step(at, e) && pin_cells(p).contains(step(at, e)) && joins(mask_in(m, step(at, e)), spec_opposite(e))
}

/// The sides of `at` that lose their wire when part `p` comes off.
pub open spec fn cut_sides(m: Map<(i32, i32), Cell>, p: Part, at: (i32, i32)) -> u8 {
    side_bits(cut_side(m, p, at, N), cut_side(m, p, at, E), cut_side(m, p, at, S), cut_side(m, p, at, W))
}

/// The cells after part `p` comes off: its body and pins are gone, and
/// every wire or pin that a pin of `p` joined loses the side that faced it.
pub open spec fn without_part(m: Map<(i32, i32), Cell>, p: Part) -> Map<(i32, i32), Cell> {
    Map::new(
        |key: (i32, i32)| m.contains_key(key) && !covers(p, swap(key)),
        |key: (i32, i32)| without_side(m[key], cut_sides(m, p, swap(key))),
    )
}

/// The cells after the cell at `at`, which joined sides `mask`, is gone:
/// each neighbour it joined loses the side that faced it. A side that
/// leads off the grid has no neighbour.
pub open spec fn unhooked(m: Map<(i32, i32), Cell>, at: (i32, i32), mask: u8) -> Map<(i32, i32), Cell> {
    Map::new(
        |key: (i32, i32)| m.contains_key(key),
        |key: (i32, i32)|
            if joins(mask, N) && can_step(at, N) && swap(key) == step(at, N) {
                without_side(m[key], S)
            } else if joins(mask, E) && can_step(at, E) && swap(key) == step(at, E) {
                without_side(m[key], W)
            } else if joins(mask, S) && can_step(at, S) && swap(key) == step(at, S) {
                without_side(m[key], N)
            } else if joins(mask, W) && can_step(at, W) && swap(key) == step(at, W) {
                without_side(m[key], E)
            } else {
                m[key]
            },
    )
}

/// Every side that `mask` joins can be stepped across from `at`.
pub open spec fn steps_fit_at(at: (i32, i32), mask: u8) -> bool {
    &&& joins(mask, N) ==> can_step(at, N)
    &&& joins(mask, E) ==> can_step(at, E)
    &&& joins(mask, S) ==> can_step(at, S)
    &&& joins(mask, W) ==> can_step(at, W)
}

/// Both coordinates of the step from `at` across `dir` fit in an `i32`.
pub open spec fn can_step(at: (i32, i32), dir: u8) -> bool {
    i32::MIN <= at.0 + spec_offset(dir).0 <= i32::MAX && i32::MIN <= at.1 + spec_offset(dir).1 <= i32::MAX
}

/// Whether every side that `mask` joins can be stepped across from `at`.
pub fn steps_fit(at: (i32, i32), mask: u8) -> (r: bool)
    ensures
        r == steps_fit_at(at, mask),
{
    let mut ok = true;
    let sides: [u8; 4] = [N, E, S, W];
    let mut k: usize = 0;
    while k < 4
        invariant
            k <= 4,
            sides@ == seq![N, E, S, W],
            ok == (forall|j: int| 0 <= j < k ==> (joins(mask, #[trigger] sides@[j]) ==> can_step(at, sides@[j]))),
        decreases 4 - k,
    {
        let d = sides[k];
        let (dx, dy) = offset(d);
        let fits = match (at.0.checked_add(dx), at.1.checked_add(dy)) {
            (Some(_), Some(_)) => true,
            _ => false,
        };
        if mask & d != 0 && !fits {
            ok = false;
        }
        proof {
            assert(joins(mask, d) == (mask & d != 0));
        }
        k = k + 1;
    }
    proof {
        assert(sides@[0] == N && sides@[1] == E && sides@[2] == S && sides@[3] == W);
    }
    ok
}

impl Board {
    /// A cell is in use at `at`.
    pub open spec fn holds(&self, at: (i32, i32)) -> bool {
        self.cells@.contains_key(swap(at))
    }

    /// The cell at `at`.
    pub open spec fn cell_at(&self, at: (i32, i32)) -> Cell {
        self.cells@[swap(at)]
    }

    /// The part whose body or pin is at `at`.
    pub open spec fn owner(&self, at: (i32, i32)) -> Option<usize> {
        if self.holds(at) {
            owner_of(self.cell_at(at))
        } else {
            None
        }
    }

    /// Part `i` is on the board.
    pub open spec fn is_part(&self, i: int) -> bool {
        0 <= i < self.parts@.len() && self.parts@[i] is Some
    }

    /// Part `i`, when it is on the board.
    pub open spec fn part_ref(&self, i: int) -> Part {
        self.parts@[i].unwrap()
    }

    /// Part `i` lies on the grid and every one of its cells says so.
    pub open spec fn placed(&self, i: int) -> bool {
        let p = self.part_ref(i);
        &&& on_grid(p)
        &&& forall|at: (i32, i32)| in_body(p, at) ==> #[trigger] self.holds(at) && self.cell_at(at) == Cell::Body(i as usize)
        &&& forall|k: int| 0 <= k < pin_cells(p).len() ==> #[trigger] self.holds(pin_cells(p)[k])
            && pin_of(self.cell_at(pin_cells(p)[k])) == Some((i as usize, k as usize))
    }

    /// A cell that names a part belongs to that part.
    pub open spec fn cell_ok(&self, at: (i32, i32)) -> bool {
        match self.cell_at(at) {
            Cell::Wire(_) => true,
            Cell::Body(i) => self.is_part(i as int) && in_body(self.part_ref(i as int), at),
            Cell::Pin(i, k, _) => self.is_part(i as int) && k < pin_cells(self.part_ref(i as int)).len()
                && pin_cells(self.part_ref(i as int))[k as int] == at,
        }
    }

    /// The board is consistent: every part's cells are on the board as
    /// that part's, and every body or pin cell belongs to a part there.
    /// Parts therefore never overlap each other or a wire. Every part's
    /// value is a number, written as std reads an `f64`.
    pub open spec fn wf(&self) -> bool {
        &&& forall|i: int| #[trigger] self.is_part(i) ==> self.placed(i)
        &&& forall|at: (i32, i32)| #[trigger] self.holds(at) ==> self.cell_ok(at)
        &&& forall|i: int| #[trigger] self.is_part(i) ==> is_float(self.part_ref(i).value@)
    }

    /// Room for `p`, counting cells that part `except` holds as free.
    pub open spec fn room_for(&self, p: Part, except: Option<usize>) -> bool {
        forall|at: (i32, i32)| #[trigger] covers(p, at) && self.holds(at) ==> match self.cell_at(at) {
            Cell::Wire(_) => false,
            Cell::Body(i) => except == Some(i),
            Cell::Pin(i, _, _) => except == Some(i),
        }
    }

    /// An empty board.
    pub fn new() -> (b: Board)
        ensures
            b.parts@.len() == 0,
            b.cells@ == Map::<(i32, i32), Cell>::empty(),
            b.wf(),
    {
        Board { parts: Vec::new(), cells: BTreeMap::new() }
    }

    /// The cell at `at`, if one is in use.
    pub fn cell(&self, at: (i32, i32)) -> (r: Option<Cell>)
        ensures
            r == (if self.holds(at) { Some(self.cell_at(at)) } else { None }),
    {
        match self.cells.get(&(at.1, at.0)) {
            Some(c) => Some(*c),
            None => None,
        }
    }

    /// Part `i`, if it is on the board.
    pub fn part(&self, i: usize) -> (r: Option<&Part>)
        ensures
            match r {
                Some(p) => self.is_part(i as int) && *p == self.part_ref(i as int),
                None => !self.is_part(i as int),
            },
    {
        if i < self.parts.len() {
            self.parts[i].as_ref()
        } else {
            None
        }
    }

    /// The part whose body or pin is at `at`.
    pub fn part_at(&self, at: (i32, i32)) -> (r: Option<usize>)
        ensures
            r == (if self.holds(at) { owner_of(self.cell_at(at)) } else { None }),
    {
        match self.cell(at) {
            Some(Cell::Body(i)) => Some(i),
            Some(Cell::Pin(i, _, _)) => Some(i),
            _ => None,
        }
    }

    /// The mask of the wire or pin at `at`.
    fn mask(&self, at: (i32, i32)) -> (r: Option<u8>)
        ensures
            r == (if self.holds(at) { mask_of(self.cell_at(at)) } else { None }),
    {
        match self.cell(at) {
            Some(Cell::Wire(m)) => Some(m),
            Some(Cell::Pin(_, _, m)) => Some(m),
            _ => None,
        }
    }

    /// Room for `p`, counting cells that part `except` holds as free.
    fn fits(&self, p: &Part, except: Option<usize>) -> (r: bool)
        requires
            on_grid(*p),
        ensures
            r == self.room_for(*p, except),
    {
        let cells = p.cells();
        proof {
            lemma_body_shape(*p);
        }
        let mut k: usize = 0;
        while k < cells.len()
            invariant
                on_grid(*p),
                cells@ == body_cells(*p) + pin_cells(*p),
                k <= cells@.len(),
                forall|at: (i32, i32)| #[trigger] body_cells(*p).contains(at) <==> in_body(*p, at),
                forall|j: int| 0 <= j < k ==> #[trigger] self.free_for(cells@[j], except),
            decreases cells@.len() - k,
        {
            let ok = match self.cell(cells[k]) {
                None => true,
                Some(Cell::Body(i)) => except == Some(i),
                Some(Cell::Pin(i, _, _)) => except == Some(i),
                Some(Cell::Wire(_)) => false,
            };
            if !ok {
                assert(covers(*p, cells@[k as int])) by {
                    if k < body_cells(*p).len() {
                        assert(body_cells(*p).contains(cells@[k as int]));
                    } else {
                        assert(pin_cells(*p)[k - body_cells(*p).len()] == cells@[k as int]);
                    }
                }
                return false;
            }
            k = k + 1;
        }
        assert forall|at: (i32, i32)| #[trigger] covers(*p, at) && self.holds(at) implies self.free_for(at, except) by {
            if in_body(*p, at) {
                assert(body_cells(*p).contains(at));
                let j = body_cells(*p).index_of(at);
                assert(cells@[j] == at);
            } else {
                let j = pin_cells(*p).index_of(at);
                assert(cells@[body_cells(*p).len() + j] == at);
            }
        }
        true
    }

    /// The cell at `at` may be used by `p` when part `except` makes way.
    pub open spec fn free_for(&self, at: (i32, i32), except: Option<usize>) -> bool {
        self.holds(at) ==> match self.cell_at(at) {
            Cell::Wire(_) => false,
            Cell::Body(i) => except == Some(i),
            Cell::Pin(i, _, _) => except == Some(i),
        }
    }
}


impl Board {
    /// Put part `p` down as part `i`, on cells that are free.
    fn put(&mut self, i: usize, p: Part, ms: &Vec<u8>)
        requires
            old(self).wf(),
            i < old(self).parts@.len(),
            old(self).parts@[i as int] is None,
            on_grid(p),
            forall|at: (i32, i32)| #[trigger] covers(p, at) ==> !old(self).holds(at),
            ms@.len() == pin_cells(p).len(),
            is_float(p.value@),
        ensures
            final(self).wf(),
            final(self).parts@ == old(self).parts@.update(i as int, Some(p)),
            final(self).cells@ == with_part_masks(old(self).cells@, i, p, ms@),
    {
        let ghost m0 = self.cells@;
        proof {
            lemma_body_shape(p);
            lemma_pins_shape(p);
        }
        let body = p.body();
        let mut k: usize = 0;
        while k < body.len()
            invariant
                on_grid(p),
                body@ == body_cells(p),
                k <= body@.len(),
                forall|at: (i32, i32)| #[trigger] body_cells(p).contains(at) <==> in_body(p, at),
                forall|at: (i32, i32)| #[trigger] covers(p, at) ==> !m0.contains_key(swap(at)),
                self.parts@ == old(self).parts@,
                forall|j: int| 0 <= j < k ==> #[trigger] self.cells@.contains_key(swap(body@[j])) && self.cells@[swap(body@[j])] == Cell::Body(i),
                forall|key: (i32, i32)| #[trigger] self.cells@.contains_key(key) && !m0.contains_key(key) ==> in_body(p, swap(key)),
                forall|key: (i32, i32)| #[trigger] m0.contains_key(key) ==> self.cells@.contains_key(key) && self.cells@[key] == m0[key],
            decreases body@.len() - k,
        {
            let c = body[k];
            proof {
                lemma_body_shape(p);
            }
            assert(in_body(p, c));
            assert(covers(p, c));
            let ghost before = self.cells@;
            self.cells.insert((c.1, c.0), Cell::Body(i));
            assert forall|j: int| 0 <= j < k + 1 implies #[trigger] self.cells@.contains_key(swap(body@[j])) && self.cells@[swap(body@[j])] == Cell::Body(i) by {
                if j < k {
                    assert(before.contains_key(swap(body@[j])));
                    assert(body@[j] != body@[k as int]);
                }
            }
            k = k + 1;
        }
        assert(forall|j: int| 0 <= j < body@.len() ==> #[trigger] self.cells@.contains_key(swap(body@[j])) && self.cells@[swap(body@[j])] == Cell::Body(i));
        let pins = p.pins();
        let mut k: usize = 0;
        while k < pins.len()
            invariant
                on_grid(p),
                body@ == body_cells(p),
                pins@ == pin_cells(p),
                ms@.len() == pins@.len(),
                pin_cells(p).no_duplicates(),
                forall|j: int| 0 <= j < pin_cells(p).len() ==> !in_body(p, #[trigger] pin_cells(p)[j]),
                k <= pins@.len(),
                forall|at: (i32, i32)| #[trigger] body_cells(p).contains(at) <==> in_body(p, at),
                forall|at: (i32, i32)| #[trigger] covers(p, at) ==> !m0.contains_key(swap(at)),
                self.parts@ == old(self).parts@,
                forall|j: int| 0 <= j < body@.len() ==> #[trigger] self.cells@.contains_key(swap(body@[j])) && self.cells@[swap(body@[j])] == Cell::Body(i),
                forall|j: int| 0 <= j < k ==> #[trigger] self.cells@.contains_key(swap(pins@[j])) && self.cells@[swap(pins@[j])] == Cell::Pin(i, j as usize, ms@[j]),
                forall|key: (i32, i32)| #[trigger] self.cells@.contains_key(key) && !m0.contains_key(key) ==> covers(p, swap(key)),
                forall|key: (i32, i32)| #[trigger] m0.contains_key(key) ==> self.cells@.contains_key(key) && self.cells@[key] == m0[key],
            decreases pins@.len() - k,
        {
            let c = pins[k];
            assert(pin_cells(p).contains(c));
            assert(covers(p, c));
            let ghost before = self.cells@;
            self.cells.insert((c.1, c.0), Cell::Pin(i, k, ms[k]));
            proof {
                lemma_body_shape(p);
                assert forall|j: int| 0 <= j < body@.len() implies #[trigger] self.cells@.contains_key(swap(body@[j])) && self.cells@[swap(body@[j])] == Cell::Body(i) by {
                    assert(before.contains_key(swap(body@[j])));
                    assert(in_body(p, body_cells(p)[j]));
                    assert(swap(body@[j]) != swap(c));
                }
                assert forall|j: int| 0 <= j < k + 1 implies #[trigger] self.cells@.contains_key(swap(pins@[j])) && self.cells@[swap(pins@[j])] == Cell::Pin(i, j as usize, ms@[j]) by {
                    if j < k {
                        assert(before.contains_key(swap(pins@[j])));
                        assert(pin_cells(p)[j] != pin_cells(p)[k as int]);
                        assert(swap(pins@[j]) != swap(c));
                    } else {
                        assert(swap(pins@[j]) == swap(c));
                    }
                }
            }
            k = k + 1;
        }
        self.parts.set(i, Some(p));
        proof {
            let m1 = with_part_masks(m0, i, p, ms@);
            assert forall|key: (i32, i32)| #[trigger] self.cells@.contains_key(key) <==> m1.contains_key(key) by {
                if covers(p, swap(key)) {
                    if in_body(p, swap(key)) {
                        assert(body_cells(p).contains(swap(key)));
                        let j = body_cells(p).index_of(swap(key));
                        assert(swap(body@[j]) == key);
                    } else {
                        let j = pin_cells(p).index_of(swap(key));
                        assert(swap(pins@[j]) == key);
                    }
                }
            }
            assert forall|key: (i32, i32)| #[trigger] self.cells@.contains_key(key) implies self.cells@[key] == m1[key] by {
                if in_body(p, swap(key)) {
                    assert(body_cells(p).contains(swap(key)));
                    let j = body_cells(p).index_of(swap(key));
                    assert(swap(body@[j]) == key);
                } else if pin_cells(p).contains(swap(key)) {
                    let j = pin_cells(p).index_of(swap(key));
                    assert(swap(pins@[j]) == key);
                }
            }
            assert(self.cells@ =~= m1);
            assert forall|ii: int| #[trigger] self.is_part(ii) implies self.placed(ii) by {
                if ii == i {
                    assert forall|at: (i32, i32)| in_body(p, at) implies #[trigger] self.holds(at) && self.cell_at(at) == Cell::Body(i) by {
                        assert(m1.contains_key(swap(at)));
                    }
                    assert forall|kk: int| 0 <= kk < pin_cells(p).len() implies #[trigger] self.holds(pin_cells(p)[kk])
                        && pin_of(self.cell_at(pin_cells(p)[kk])) == Some((i as usize, kk as usize)) by {
                        assert(swap(pins@[kk]) == swap(pin_cells(p)[kk]));
                    }
                } else {
                    assert(old(self).is_part(ii));
                    lemma_placed_frame(*old(self), *self, ii);
                }
            }
            assert forall|ii: int| #[trigger] self.is_part(ii) implies is_float(self.part_ref(ii).value@) by {
                if ii != i {
                    assert(old(self).is_part(ii));
                }
            }
            assert forall|at: (i32, i32)| #[trigger] self.holds(at) implies self.cell_ok(at) by {
                if m0.contains_key(swap(at)) {
                    assert(old(self).holds(at));
                    assert(old(self).cell_ok(at));
                    assert(!covers(p, at));
                } else {
                    assert(covers(p, at));
                    if !in_body(p, at) {
                        let j = pin_cells(p).index_of(at);
                        assert(pin_cells(p)[j] == at);
                    }
                }
            }
        }
    }

    /// Place a new part. None when its cells are taken.
    pub fn place(&mut self, p: Part) -> (r: Option<usize>)
        requires
            old(self).wf(),
            on_grid(p),
            is_float(p.value@),
            old(self).parts@.len() < usize::MAX,
        ensures
            final(self).wf(),
            old(self).room_for(p, None) ==> {
                &&& r == Some(old(self).parts.len())
                &&& final(self).parts@ == old(self).parts@.push(Some(p))
                &&& final(self).cells@ == with_part(old(self).cells@, old(self).parts.len(), p)
            },
            !old(self).room_for(p, None) ==> r is None && *final(self) == *old(self),
    {
        if !self.fits(&p, None) {
            return None;
        }
        self.parts.push(None);
        let i = self.parts.len() - 1;
        proof {
            assert forall|ii: int| #[trigger] self.is_part(ii) implies self.placed(ii) by {
                assert(old(self).is_part(ii));
                lemma_placed_frame(*old(self), *self, ii);
            }
            assert forall|at: (i32, i32)| #[trigger] self.holds(at) implies self.cell_ok(at) by {
                assert(old(self).holds(at));
                assert(old(self).cell_ok(at));
            }
            assert forall|at: (i32, i32)| #[trigger] covers(p, at) implies !self.holds(at) by {
                if self.holds(at) {
                    assert(old(self).holds(at));
                }
            }
            assert forall|ii: int| #[trigger] self.is_part(ii) implies is_float(self.part_ref(ii).value@) by {
                assert(old(self).is_part(ii));
            }
        }
        let ghost m1 = self.cells@;
        let mut zeros: Vec<u8> = Vec::new();
        let pins = p.pins();
        while zeros.len() < pins.len()
            invariant
                zeros@.len() <= pins@.len(),
                forall|j: int| 0 <= j < zeros@.len() ==> #[trigger] zeros@[j] == 0,
            decreases pins@.len() - zeros@.len(),
        {
            zeros.push(0);
        }
        self.put(i, p, &zeros);
        proof {
            assert forall|key: (i32, i32)| #[trigger] self.cells@.contains_key(key) implies self.cells@[key] == with_part(m1, i, p)[key] by {
                if pin_cells(p).contains(swap(key)) {
                    let j = pin_cells(p).index_of(swap(key));
                    assert(zeros@[j] == 0);
                }
            }
            assert(self.cells@ =~= with_part(m1, i, p));
        }
        Some(i)
    }

    /// Set the mask of the wire or pin at `at`; nothing else changes.
    fn set_mask(&mut self, at: (i32, i32), mask: u8)
        ensures
            final(self).parts@ == old(self).parts@,
            final(self).cells@ == (if old(self).holds(at) && mask_of(old(self).cell_at(at)) is Some {
                old(self).cells@.insert(swap(at), with_mask(old(self).cell_at(at), mask))
            } else {
                old(self).cells@
            }),
    {
        match self.cell(at) {
            Some(Cell::Wire(_)) => {
                self.cells.insert((at.1, at.0), Cell::Wire(mask));
            },
            Some(Cell::Pin(i, k, _)) => {
                self.cells.insert((at.1, at.0), Cell::Pin(i, k, mask));
            },
            _ => {},
        }
    }

    /// Clear side `opposite(d)` on the neighbour across side `d` of `at`,
    /// when `mask` joins `d` and that side leads to a cell of the grid.
    fn unhook_side(&mut self, at: (i32, i32), mask: u8, d: u8)
        requires
            is_side(d),
        ensures
            final(self).parts@ == old(self).parts@,
            final(self).cells@ == (if joins(mask, d) && can_step(at, d) && old(self).holds(step(at, d)) && mask_of(old(self).cell_at(step(at, d))) is Some {
                old(self).cells@.insert(swap(step(at, d)), without_side(old(self).cell_at(step(at, d)), spec_opposite(d)))
            } else {
                old(self).cells@
            }),
    {
        if mask & d == 0 {
            return;
        }
        let (dx, dy) = offset(d);
        let nb = match (at.0.checked_add(dx), at.1.checked_add(dy)) {
            (Some(x), Some(y)) => (x, y),
            _ => {
                return;
            },
        };
        if let Some(m) = self.mask(nb) {
            self.set_mask(nb, m & !opposite(d));
        }
    }

    /// Clear the sides that neighbours join toward `at`.
    fn unhook(&mut self, at: (i32, i32), mask: u8)
        ensures
            final(self).parts@ == old(self).parts@,
            final(self).cells@ == unhooked(old(self).cells@, at, mask),
    {
        let ghost m0 = self.cells@;
        self.unhook_side(at, mask, N);
        self.unhook_side(at, mask, E);
        self.unhook_side(at, mask, S);
        self.unhook_side(at, mask, W);
        proof {
            let u = unhooked(m0, at, mask);
            lemma_steps_differ(at);
            assert forall|key: (i32, i32)| #[trigger] self.cells@.contains_key(key) <==> u.contains_key(key) by {}
            assert forall|key: (i32, i32)| #[trigger] self.cells@.contains_key(key) implies self.cells@[key] == u[key] by {
                let c = m0[key];
                if mask_of(c) is Some {
                } else {
                    assert(c is Body);
                }
            }
            assert(self.cells@ =~= u);
        }
    }

    /// Take part `i`'s body and pin cells off the board, leaving every
    /// other cell as it is; hand back the part and its pins' masks.
    fn strip(&mut self, i: usize) -> (r: (Part, Vec<u8>))
        requires
            old(self).wf(),
            old(self).is_part(i as int),
            old(self).parts@.len() <= usize::MAX,
        ensures
            final(self).wf(),
            r.0 == old(self).part_ref(i as int),
            on_grid(r.0),
            final(self).parts@ == old(self).parts@.update(i as int, None),
            final(self).cells@ == stripped(old(self).cells@, r.0),
            r.1@.len() == pin_cells(r.0).len(),
            forall|j: int| 0 <= j < r.1@.len() ==> #[trigger] r.1@[j] == mask_in(old(self).cells@, pin_cells(r.0)[j]),
    {
        let p = self.parts[i].as_ref().unwrap().duplicate();
        let ghost m0 = self.cells@;
        proof {
            assert(self.placed(i as int));
            lemma_body_shape(p);
            lemma_pins_shape(p);
        }
        let body = p.body();
        let pins = p.pins();
        let mut masks: Vec<u8> = Vec::new();
        let mut k: usize = 0;
        while k < pins.len()
            invariant
                pins@ == pin_cells(p),
                k <= pins@.len(),
                masks@.len() == k,
                self.cells@ == m0,
                forall|j: int| 0 <= j < k ==> #[trigger] masks@[j] == mask_in(m0, pins@[j]),
            decreases pins@.len() - k,
        {
            let m = match self.mask(pins[k]) {
                Some(m) => m,
                None => 0,
            };
            masks.push(m);
            k = k + 1;
        }
        self.parts.set(i, None);
        assert forall|key: (i32, i32)| in_body(p, swap(key)) implies #[trigger] body_cells(p).index_of(swap(key)) >= 0 by {
            assert(body_cells(p).contains(swap(key)));
        }
        let mut k: usize = 0;
        while k < body.len()
            invariant
                i < old(self).parts@.len(),
                self.parts@ == old(self).parts@.update(i as int, None),
                on_grid(p),
                body@ == body_cells(p),
                body_cells(p).no_duplicates(),
                k <= body@.len(),
                forall|at: (i32, i32)| #[trigger] body_cells(p).contains(at) <==> in_body(p, at),
                forall|key: (i32, i32)| #[trigger] self.cells@.contains_key(key) <==> m0.contains_key(key) && !(in_body(p, swap(key)) && body_cells(p).index_of(swap(key)) < k),
                forall|key: (i32, i32)| #[trigger] self.cells@.contains_key(key) ==> self.cells@[key] == m0[key],
            decreases body@.len() - k,
        {
            let c = body[k];
            self.cells.remove(&(c.1, c.0));
            proof {
                assert(body_cells(p).index_of(c) == k) by {
                    assert(body_cells(p).contains(c));
                }
                assert forall|key: (i32, i32)| #[trigger] self.cells@.contains_key(key) <==> m0.contains_key(key) && !(in_body(p, swap(key)) && body_cells(p).index_of(swap(key)) < k + 1) by {
                    if in_body(p, swap(key)) {
                        assert(body_cells(p).contains(swap(key)));
                        let j = body_cells(p).index_of(swap(key));
                        assert(body_cells(p)[j] == swap(key));
                        assert(j == k <==> swap(key) == c);
                    }
                }
            }
            k = k + 1;
        }
        assert forall|key: (i32, i32)| in_body(p, swap(key)) implies #[trigger] body_cells(p).index_of(swap(key)) < body@.len() by {
            assert(body_cells(p).contains(swap(key)));
        }
        assert forall|key: (i32, i32)| pin_cells(p).contains(swap(key)) implies #[trigger] pin_cells(p).index_of(swap(key)) >= 0 by {
        }
        let mut k: usize = 0;
        while k < pins.len()
            invariant
                i < old(self).parts@.len(),
                self.parts@ == old(self).parts@.update(i as int, None),
                on_grid(p),
                body@ == body_cells(p),
                pins@ == pin_cells(p),
                pin_cells(p).no_duplicates(),
                k <= pins@.len(),
                forall|at: (i32, i32)| #[trigger] body_cells(p).contains(at) <==> in_body(p, at),
                forall|key: (i32, i32)| #[trigger] self.cells@.contains_key(key) <==> m0.contains_key(key) && !in_body(p, swap(key)) && !(pin_cells(p).contains(swap(key)) && pin_cells(p).index_of(swap(key)) < k),
                forall|key: (i32, i32)| #[trigger] self.cells@.contains_key(key) ==> self.cells@[key] == m0[key],
            decreases pins@.len() - k,
        {
            let c = pins[k];
            self.cells.remove(&(c.1, c.0));
            proof {
                assert(pin_cells(p).index_of(c) == k) by {
                    assert(pin_cells(p).contains(c));
                }
                assert forall|key: (i32, i32)| #[trigger] self.cells@.contains_key(key) <==> m0.contains_key(key) && !in_body(p, swap(key)) && !(pin_cells(p).contains(swap(key)) && pin_cells(p).index_of(swap(key)) < k + 1) by {
                    if pin_cells(p).contains(swap(key)) {
                        let j = pin_cells(p).index_of(swap(key));
                        assert(pin_cells(p)[j] == swap(key));
                        assert(j == k <==> swap(key) == c);
                    }
                }
            }
            k = k + 1;
        }
        proof {
            assert forall|key: (i32, i32)| #[trigger] self.cells@.contains_key(key) <==> stripped(m0, p).contains_key(key) by {
                if pin_cells(p).contains(swap(key)) {
                    let j = pin_cells(p).index_of(swap(key));
                    assert(pin_cells(p)[j] == swap(key));
                }
            }
            assert(self.cells@ =~= stripped(m0, p));
            lemma_lift_wf(*old(self), *self, i as int);
        }
        (p, masks)
    }

    /// Cut the wires at the pins of `p` that do not stay (`ks`): each
    /// neighbour a pin joined in `m0` loses the side that faced it.
    fn unhook_pins(&mut self, pins: &Vec<(i32, i32)>, masks: &Vec<u8>, ks: &Vec<bool>, Ghost(m0): Ghost<Map<(i32, i32), Cell>>, Ghost(p): Ghost<Part>)
        requires
            on_grid(p),
            pins@ == pin_cells(p),
            masks@.len() == pins@.len(),
            ks@.len() == pins@.len(),
            forall|j: int| 0 <= j < pins@.len() ==> #[trigger] masks@[j] == mask_in(m0, pins@[j]),
        ensures
            final(self).parts@ == old(self).parts@,
            forall|key: (i32, i32)| #[trigger] final(self).cells@.contains_key(key) <==> old(self).cells@.contains_key(key),
            forall|key: (i32, i32)| #[trigger] final(self).cells@.contains_key(key) ==>
                final(self).cells@[key] == without_side(old(self).cells@[key], cut_sides_upto(m0, p, ks@, swap(key), pins@.len() as int)),
    {
        let ghost base = self.cells@;
        proof {
            lemma_pins_shape(p);
            assert forall|key: (i32, i32)| #[trigger] base.contains_key(key) implies base[key] == without_side(base[key], cut_sides_upto(m0, p, ks@, swap(key), 0)) by {
                let at = swap(key);
                lemma_side_bits_add(false, false, false, false);
                lemma_without_twice(base[key], 0, 0);
                assert(!cut_side_upto(m0, p, ks@, at, N, 0) && !cut_side_upto(m0, p, ks@, at, E, 0) && !cut_side_upto(m0, p, ks@, at, S, 0) && !cut_side_upto(m0, p, ks@, at, W, 0)) by {
                    assert forall|e: u8| is_side(e) && cut_side(m0, p, at, e) implies pin_cells(p).index_of(step(at, e)) >= 0 by {}
                }
            }
        }
        let mut k: usize = 0;
        while k < pins.len()
            invariant
                on_grid(p),
                pins@ == pin_cells(p),
                pin_cells(p).no_duplicates(),
                masks@.len() == pins@.len(),
                ks@.len() == pins@.len(),
                forall|j: int| 0 <= j < pins@.len() ==> #[trigger] masks@[j] == mask_in(m0, pins@[j]),
                k <= pins@.len(),
                self.parts@ == old(self).parts@,
                base == old(self).cells@,
                forall|key: (i32, i32)| #[trigger] self.cells@.contains_key(key) <==> base.contains_key(key),
                forall|key: (i32, i32)| #[trigger] self.cells@.contains_key(key) ==> self.cells@[key] == without_side(base[key], cut_sides_upto(m0, p, ks@, swap(key), k as int)),
            decreases pins@.len() - k,
        {
            let q = pins[k];
            let mk = masks[k];
            let ghost before = self.cells@;
            if !ks[k] {
                self.unhook(q, mk);
            }
            proof {
                assert forall|key: (i32, i32)| #[trigger] self.cells@.contains_key(key) implies self.cells@[key] == without_side(base[key], cut_sides_upto(m0, p, ks@, swap(key), k + 1)) by {
                    lemma_unhook_step(m0, base, p, ks@, before, self.cells@, k as int, q, mk, key);
                }
            }
            k = k + 1;
        }
    }

    /// Take part `i` off the board, cutting the wires at its pins.
    fn lift(&mut self, i: usize) -> (r: Option<Part>)
        requires
            old(self).wf(),
            old(self).parts@.len() <= usize::MAX,
        ensures
            final(self).wf(),
            old(self).is_part(i as int) ==> {
                &&& r == Some(old(self).part_ref(i as int))
                &&& final(self).parts@ == old(self).parts@.update(i as int, None)
                &&& final(self).cells@ == without_part(old(self).cells@, old(self).part_ref(i as int))
            },
            !old(self).is_part(i as int) ==> r is None && *final(self) == *old(self),
    {
        if i >= self.parts.len() || self.parts[i].is_none() {
            return None;
        }
        let ghost m0 = self.cells@;
        let (p, masks) = self.strip(i);
        let ghost b1 = *self;
        let pins = p.pins();
        let mut ks: Vec<bool> = Vec::new();
        let mut k: usize = 0;
        while k < pins.len()
            invariant
                k <= pins@.len(),
                ks@.len() == k,
                forall|j: int| 0 <= j < k ==> !#[trigger] ks@[j],
            decreases pins@.len() - k,
        {
            ks.push(false);
            k = k + 1;
        }
        self.unhook_pins(&pins, &masks, &ks, Ghost(m0), Ghost(p));
        proof {
            let mm = without_part(m0, p);
            assert forall|key: (i32, i32)| #[trigger] self.cells@.contains_key(key) <==> mm.contains_key(key) by {}
            assert forall|key: (i32, i32)| #[trigger] self.cells@.contains_key(key) implies self.cells@[key] == mm[key] by {
                let at = swap(key);
                assert forall|e: u8| is_side(e) implies cut_side_upto(m0, p, ks@, at, e, pins@.len() as int) == cut_side(m0, p, at, e) by {
                    if cut_side(m0, p, at, e) {
                        let j = pin_cells(p).index_of(step(at, e));
                        assert(0 <= j < pin_cells(p).len());
                    }
                }
            }
            assert(self.cells@ =~= mm);
            lemma_masks_frame(b1, *self);
        }
        Some(p)
    }
}

/// The cells with part `p`'s body and pins taken off and nothing else
/// changed.
spec fn stripped(m: Map<(i32, i32), Cell>, p: Part) -> Map<(i32, i32), Cell> {
    Map::new(|key: (i32, i32)| m.contains_key(key) && !covers(p, swap(key)), |key: (i32, i32)| m[key])
}

/// The cell at `at` after side `d` is joined there: a new wire if the
/// cell was empty, or the same cell with `d` added to its mask.
pub open spec fn joined(m: Map<(i32, i32), Cell>, at: (i32, i32), d: u8) -> Cell {
    if m.contains_key(swap(at)) {
        with_sides(m[swap(at)], d)
    } else {
        Cell::Wire(d)
    }
}

/// All four sides are set.
pub open spec fn four_sides(m: u8) -> bool {
    joins(m, N) && joins(m, E) && joins(m, S) && joins(m, W)
}

/// A wire cell where all four sides meet.
pub open spec fn four_way(c: Cell) -> bool {
    match c {
        Cell::Wire(m) => four_sides(m),
        _ => false,
    }
}

/// The wire with its join mark flipped.
pub open spec fn join_flipped(c: Cell) -> Cell {
    match c {
        Cell::Wire(m) => Cell::Wire(m ^ JOIN),
        _ => c,
    }
}

impl Board {
    /// A wire may leave `at` toward `dir`: the cell is empty, a wire, or a
    /// pin whose body lies on another side.
    pub open spec fn open_at(&self, at: (i32, i32), dir: u8) -> bool {
        self.holds(at) ==> match self.cell_at(at) {
            Cell::Wire(_) => true,
            Cell::Body(_) => false,
            Cell::Pin(i, _, _) => self.is_part(i as int) && inward_side(self.part_ref(i as int), at) != dir,
        }
    }

    /// Delete the wire or part at `at`. True when there was one.
    pub fn delete(&mut self, at: (i32, i32)) -> (r: bool)
        requires
            old(self).wf(),
            old(self).parts@.len() <= usize::MAX,
            old(self).holds(at) && old(self).cell_at(at) is Wire ==> steps_fit_at(at, old(self).cell_at(at)->Wire_0),
        ensures
            final(self).wf(),
            r == old(self).holds(at),
            !old(self).holds(at) ==> *final(self) == *old(self),
            old(self).holds(at) ==> match old(self).cell_at(at) {
                Cell::Wire(m) => final(self).parts@ == old(self).parts@
                    && final(self).cells@ == unhooked(old(self).cells@.remove(swap(at)), at, m),
                Cell::Body(i) => final(self).parts@ == old(self).parts@.update(i as int, None)
                    && final(self).cells@ == without_part(old(self).cells@, old(self).part_ref(i as int)),
                Cell::Pin(i, _, _) => final(self).parts@ == old(self).parts@.update(i as int, None)
                    && final(self).cells@ == without_part(old(self).cells@, old(self).part_ref(i as int)),
            },
    {
        match self.cell(at) {
            Some(Cell::Wire(m)) => {
                let ghost b0 = *self;
                self.cells.remove(&(at.1, at.0));
                proof {
                    lemma_remove_wire_wf(b0, *self, at);
                }
                let ghost b1 = *self;
                self.unhook(at, m);
                proof {
                    lemma_masks_frame(b1, *self);
                }
                true
            },
            Some(Cell::Body(i)) => {
                proof {
                    assert(self.cell_ok(at));
                }
                self.lift(i).is_some()
            },
            Some(Cell::Pin(i, _, _)) => {
                proof {
                    assert(self.cell_ok(at));
                }
                self.lift(i).is_some()
            },
            None => false,
        }
    }

    /// Can a wire leave `at` toward `dir`?
    fn open(&self, at: (i32, i32), dir: u8) -> (r: bool)
        requires
            self.wf(),
        ensures
            r == self.open_at(at, dir),
    {
        match self.cell(at) {
            None => true,
            Some(Cell::Wire(_)) => true,
            Some(Cell::Body(_)) => false,
            Some(Cell::Pin(i, _, _)) => {
                proof {
                    assert(self.cell_ok(at));
                    assert(self.placed(i as int));
                }
                match self.part(i) {
                    Some(p) => p.inward(at) != dir,
                    None => false,
                }
            },
        }
    }

    /// Join side `d` at `at`: a new wire there, or `d` added to the mask of
    /// the wire or pin already there.
    fn join_side(&mut self, at: (i32, i32), d: u8)
        requires
            old(self).wf(),
            !(old(self).holds(at) && old(self).cell_at(at) is Body),
        ensures
            final(self).wf(),
            final(self).parts@ == old(self).parts@,
            final(self).cells@ == old(self).cells@.insert(swap(at), joined(old(self).cells@, at, d)),
    {
        let ghost b0 = *self;
        match self.cell(at) {
            None => {
                self.cells.insert((at.1, at.0), Cell::Wire(d));
                proof {
                    lemma_add_wire_wf(b0, *self, at);
                }
            },
            Some(Cell::Wire(m)) => {
                self.cells.insert((at.1, at.0), Cell::Wire(m | d));
                proof {
                    lemma_masks_frame(b0, *self);
                }
            },
            Some(Cell::Pin(i, k, m)) => {
                self.cells.insert((at.1, at.0), Cell::Pin(i, k, m | d));
                proof {
                    lemma_masks_frame(b0, *self);
                }
            },
            Some(Cell::Body(_)) => {},
        }
    }

    /// Lay a wire from `at` one cell toward `dir`, joining what is there.
    pub fn wire(&mut self, at: (i32, i32), dir: u8) -> (r: bool)
        requires
            old(self).wf(),
            can_step(at, dir),
        ensures
            final(self).wf(),
            r == (old(self).open_at(at, dir) && old(self).open_at(step(at, dir), spec_opposite(dir))),
            r ==> final(self).parts@ == old(self).parts@
                && final(self).cells@ == old(self).cells@.insert(swap(at), joined(old(self).cells@, at, dir)).insert(
                    swap(step(at, dir)),
                    joined(old(self).cells@, step(at, dir), spec_opposite(dir)),
                ),
            !r ==> *final(self) == *old(self),
    {
        let (dx, dy) = offset(dir);
        let to = (at.0 + dx, at.1 + dy);
        if !self.open(at, dir) || !self.open(to, opposite(dir)) {
            return false;
        }
        let ghost m0 = self.cells@;
        self.join_side(at, dir);
        proof {
            assert(swap(to) != swap(at));
            assert(self.cells@.contains_key(swap(to)) == m0.contains_key(swap(to)));
        }
        self.join_side(to, opposite(dir));
        proof {
            assert(joined(m0.insert(swap(at), joined(m0, at, dir)), to, spec_opposite(dir)) == joined(m0, to, spec_opposite(dir)));
        }
        true
    }

    /// Mark or unmark the four-way wire cell at `at` as a join.
    pub fn toggle_join(&mut self, at: (i32, i32)) -> (r: bool)
        requires
            old(self).wf(),
        ensures
            final(self).wf(),
            r == (old(self).holds(at) && four_way(old(self).cell_at(at))),
            r ==> final(self).parts@ == old(self).parts@
                && final(self).cells@ == old(self).cells@.insert(swap(at), join_flipped(old(self).cell_at(at))),
            !r ==> *final(self) == *old(self),
    {
        match self.cell(at) {
            Some(Cell::Wire(m)) => {
                let four = m & 15 == 15;
                assert(four == four_sides(m)) by (bit_vector)
                    requires four == (m & 15 == 15);
                if four {
                    let ghost b0 = *self;
                    self.cells.insert((at.1, at.0), Cell::Wire(m ^ JOIN));
                    proof {
                        lemma_masks_frame(b0, *self);
                    }
                    true
                } else {
                    false
                }
            },
            _ => false,
        }
    }

    /// Change part `i` to `new` (moved, turned or edited) if it still
    /// fits, counting its own cells as free. A pin that stays where it was
    /// keeps its wires; wires to pins that moved come loose.
    pub fn change(&mut self, i: usize, new: Part) -> (r: bool)
        requires
            old(self).wf(),
            old(self).parts@.len() <= usize::MAX,
            on_grid(new),
            is_float(new.value@),
        ensures
            final(self).wf(),
            r == (old(self).is_part(i as int) && old(self).room_for(new, Some(i))),
            r ==> final(self).parts@ == old(self).parts@.update(i as int, Some(new))
                && final(self).cells@ == changed_cells(old(self).cells@, i, old(self).part_ref(i as int), new),
            !r ==> *final(self) == *old(self),
    {
        if i >= self.parts.len() || self.parts[i].is_none() {
            return false;
        }
        if !self.fits(&new, Some(i)) {
            return false;
        }
        let ghost b0 = *self;
        let ghost m0 = self.cells@;
        proof {
            assert(self.is_part(i as int));
            assert(self.placed(i as int));
        }
        let (p, masks) = self.strip(i);
        proof {
            assert forall|at: (i32, i32)| #[trigger] covers(new, at) implies !self.holds(at) by {
                if self.holds(at) {
                    assert(b0.holds(at));
                    assert(b0.cell_ok(at));
                    assert(b0.free_for(at, Some(i)));
                    if b0.cell_at(at) is Body {
                        assert(in_body(p, at));
                    } else {
                        assert(pin_cells(p).contains(at));
                    }
                }
            }
            lemma_pins_shape(p);
            lemma_pins_shape(new);
        }
        let ghost m1 = self.cells@;
        let ppins = p.pins();
        let qpins = new.pins();
        let mut ks: Vec<bool> = Vec::new();
        let mut k: usize = 0;
        while k < ppins.len()
            invariant
                ppins@ == pin_cells(p),
                qpins@ == pin_cells(new),
                k <= ppins@.len(),
                ks@.len() == k,
                forall|j: int| 0 <= j < k ==> #[trigger] ks@[j] == pin_stays(p, new, j),
            decreases ppins@.len() - k,
        {
            let stays = k < qpins.len() && qpins[k].0 == ppins[k].0 && qpins[k].1 == ppins[k].1;
            ks.push(stays);
            k = k + 1;
        }
        let mut ms: Vec<u8> = Vec::new();
        let mut j: usize = 0;
        while j < qpins.len()
            invariant
                ppins@ == pin_cells(p),
                qpins@ == pin_cells(new),
                masks@.len() == pin_cells(p).len(),
                forall|jj: int| 0 <= jj < masks@.len() ==> #[trigger] masks@[jj] == mask_in(m0, pin_cells(p)[jj]),
                j <= qpins@.len(),
                ms@.len() == j,
                forall|jj: int| 0 <= jj < j ==> #[trigger] ms@[jj] == kept_mask(m0, p, new, jj),
            decreases qpins@.len() - j,
        {
            let keep = j < ppins.len() && qpins[j].0 == ppins[j].0 && qpins[j].1 == ppins[j].1;
            if keep {
                ms.push(masks[j]);
            } else {
                ms.push(0);
            }
            j = j + 1;
        }
        self.put(i, new, &ms);
        let ghost m2 = self.cells@;
        let ghost b2 = *self;
        self.unhook_pins(&ppins, &masks, &ks, Ghost(m0), Ghost(p));
        proof {
            let target = changed_cells(m0, i, p, new);
            assert forall|key: (i32, i32)| #[trigger] self.cells@.contains_key(key) <==> target.contains_key(key) by {}
            assert forall|key: (i32, i32)| #[trigger] self.cells@.contains_key(key) implies self.cells@[key] == target[key] by {
                let at = swap(key);
                assert forall|e: u8| is_side(e) implies cut_side_upto(m0, p, ks@, at, e, ppins@.len() as int) == loose_side(m0, p, new, at, e) by {
                    if cut_side(m0, p, at, e) {
                        let jj = pin_cells(p).index_of(step(at, e));
                        assert(0 <= jj < pin_cells(p).len());
                    }
                }
                assert(cut_sides_upto(m0, p, ks@, at, ppins@.len() as int) == loose_sides(m0, p, new, at));
                if !covers(new, at) {
                    assert(m1.contains_key(key));
                }
            }
            assert(self.cells@ =~= target);
            lemma_masks_frame(b2, *self);
        }
        true
    }
}

impl Board {
    /// Put a wire joining sides `m` on the free cell at `at`.
    pub(crate) fn add_wire(&mut self, at: (i32, i32), m: u8)
        requires
            old(self).wf(),
            !old(self).holds(at),
        ensures
            final(self).wf(),
            final(self).parts@ == old(self).parts@,
            final(self).cells@ == old(self).cells@.insert(swap(at), Cell::Wire(m)),
    {
        let ghost b0 = *self;
        self.cells.insert((at.1, at.0), Cell::Wire(m));
        proof {
            lemma_add_wire_wf(b0, *self, at);
        }
    }

    /// Set the mask of the wire or pin at `at`; anything else stays as it is.
    pub(crate) fn change_mask(&mut self, at: (i32, i32), mask: u8)
        requires
            old(self).wf(),
        ensures
            final(self).wf(),
            final(self).parts@ == old(self).parts@,
            final(self).cells@ == (if old(self).holds(at) && mask_of(old(self).cell_at(at)) is Some {
                old(self).cells@.insert(swap(at), with_mask(old(self).cell_at(at), mask))
            } else {
                old(self).cells@
            }),
    {
        let ghost b0 = *self;
        self.set_mask(at, mask);
        proof {
            lemma_masks_frame(b0, *self);
        }
    }
}

impl Board {
    /// Close or open switch or button `i`; nothing else changes.
    pub fn set_closed(&mut self, i: usize, now: bool)
        requires
            old(self).wf(),
        ensures
            final(self).wf(),
            final(self).cells@ == old(self).cells@,
            final(self).parts@ == if old(self).is_part(i as int) {
                old(self).parts@.update(i as int, Some(Part { closed: now, ..old(self).part_ref(i as int) }))
            } else {
                old(self).parts@
            },
    {
        if i < self.parts.len() {
            match self.parts[i].as_ref() {
                Some(p) => {
                    let mut q = p.duplicate();
                    q.closed = now;
                    let ghost b0 = *self;
                    self.parts.set(i, Some(q));
                    proof {
                        lemma_same_shape(b0, *self, i as int);
                    }
                },
                None => {},
            }
        }
    }

    /// Mark LED `i` burnt out; nothing else changes.
    pub fn set_burnt(&mut self, i: usize)
        requires
            old(self).wf(),
        ensures
            final(self).wf(),
            final(self).cells@ == old(self).cells@,
            final(self).parts@ == if old(self).is_part(i as int) {
                old(self).parts@.update(i as int, Some(Part { burnt: true, ..old(self).part_ref(i as int) }))
            } else {
                old(self).parts@
            },
    {
        if i < self.parts.len() {
            match self.parts[i].as_ref() {
                Some(p) => {
                    let mut q = p.duplicate();
                    q.burnt = true;
                    let ghost b0 = *self;
                    self.parts.set(i, Some(q));
                    proof {
                        lemma_same_shape(b0, *self, i as int);
                    }
                },
                None => {},
            }
        }
    }
}

/// Every part keeps a value that reads as a number when one part changes
/// and keeps its value.
proof fn lemma_same_values(a: Board, b: Board, i: int)
    requires
        a.wf(),
        a.is_part(i),
        b.parts@.len() == a.parts@.len(),
        b.parts@[i] is Some,
        b.part_ref(i).value == a.part_ref(i).value,
        forall|j: int| 0 <= j < a.parts@.len() && j != i ==> b.parts@[j] == a.parts@[j],
    ensures
        forall|j: int| #[trigger] b.is_part(j) ==> is_float(b.part_ref(j).value@),
{
    assert forall|j: int| #[trigger] b.is_part(j) implies is_float(b.part_ref(j).value@) by {
        assert(a.is_part(j));
        if j != i {
            assert(b.parts@[j] == a.parts@[j]);
        }
    }
}

/// Changing a part in a way that keeps its kind, place and facing keeps the
/// board consistent.
proof fn lemma_same_shape(a: Board, b: Board, i: int)
    requires
        a.wf(),
        a.is_part(i),
        b.cells@ == a.cells@,
        b.parts@.len() == a.parts@.len(),
        b.parts@[i] is Some,
        b.part_ref(i).kind == a.part_ref(i).kind,
        b.part_ref(i).x == a.part_ref(i).x,
        b.part_ref(i).y == a.part_ref(i).y,
        b.part_ref(i).orient == a.part_ref(i).orient,
        b.part_ref(i).value == a.part_ref(i).value,
        forall|j: int| 0 <= j < a.parts@.len() && j != i ==> b.parts@[j] == a.parts@[j],
    ensures
        b.wf(),
{
    lemma_same_values(a, b, i);
    assert(pin_cells(b.part_ref(i)) == pin_cells(a.part_ref(i)));
    assert forall|j: int| #[trigger] b.is_part(j) implies b.placed(j) by {
        assert(a.is_part(j));
        assert(a.placed(j));
        if j == i {
            let p = a.part_ref(i);
            let q = b.part_ref(i);
            assert(on_grid(q));
            assert forall|at: (i32, i32)| in_body(q, at) implies #[trigger] b.holds(at) && b.cell_at(at) == Cell::Body(i as usize) by {
                assert(in_body(p, at));
                assert(a.holds(at));
            }
            assert forall|k: int| 0 <= k < pin_cells(q).len() implies #[trigger] b.holds(pin_cells(q)[k])
                && pin_of(b.cell_at(pin_cells(q)[k])) == Some((i as usize, k as usize)) by {
                assert(pin_cells(q)[k] == pin_cells(p)[k]);
                assert(a.holds(pin_cells(p)[k]));
            }
            assert(b.placed(j));
        } else {
            assert(b.part_ref(j) == a.part_ref(j));
            lemma_placed_frame(a, b, j);
            assert(b.placed(j));
        }
    }
    assert forall|at: (i32, i32)| #[trigger] b.holds(at) implies b.cell_ok(at) by {
        assert(a.holds(at));
        assert(a.cell_ok(at));
        match a.cell_at(at) {
            Cell::Body(j) => {
                if j as int != i {
                    assert(b.parts@[j as int] == a.parts@[j as int]);
                }
            },
            Cell::Pin(j, _, _) => {
                if j as int != i {
                    assert(b.parts@[j as int] == a.parts@[j as int]);
                }
            },
            _ => {},
        }
    }
}

impl Default for Board {
    /// An empty board.
    fn default() -> (b: Board)
        ensures
            b.parts@.len() == 0,
            b.cells@ == Map::<(i32, i32), Cell>::empty(),
            b.wf(),
    {
        Board::new()
    }
}

/// Taking a wire off keeps the board consistent.
proof fn lemma_remove_wire_wf(a: Board, b: Board, at: (i32, i32))
    requires
        a.wf(),
        a.holds(at),
        a.cell_at(at) is Wire,
        b.parts@ == a.parts@,
        b.cells@ == a.cells@.remove(swap(at)),
    ensures
        b.wf(),
{
    assert forall|ii: int| #[trigger] b.is_part(ii) implies is_float(b.part_ref(ii).value@) by {
        assert(a.is_part(ii));
    }
    assert forall|ii: int| #[trigger] b.is_part(ii) implies b.placed(ii) by {
        assert(a.is_part(ii));
        assert(a.placed(ii));
        let q = a.part_ref(ii);
        assert forall|x: (i32, i32)| in_body(q, x) implies #[trigger] b.holds(x) && b.cell_at(x) == Cell::Body(ii as usize) by {
            assert(a.holds(x));
        }
        assert forall|k: int| 0 <= k < pin_cells(q).len() implies #[trigger] b.holds(pin_cells(q)[k])
            && pin_of(b.cell_at(pin_cells(q)[k])) == Some((ii as usize, k as usize)) by {
            assert(a.holds(pin_cells(q)[k]));
        }
    }
    assert forall|x: (i32, i32)| #[trigger] b.holds(x) implies b.cell_ok(x) by {
        assert(a.holds(x));
        assert(a.cell_ok(x));
    }
}

/// Putting a wire on a free cell keeps the board consistent.
proof fn lemma_add_wire_wf(a: Board, b: Board, at: (i32, i32))
    requires
        a.wf(),
        !a.holds(at),
        b.parts@ == a.parts@,
        b.cells@ == a.cells@.insert(swap(at), Cell::Wire(b.cell_at(at)->Wire_0)),
        b.cell_at(at) is Wire,
    ensures
        b.wf(),
{
    assert forall|ii: int| #[trigger] b.is_part(ii) implies is_float(b.part_ref(ii).value@) by {
        assert(a.is_part(ii));
    }
    assert forall|ii: int| #[trigger] b.is_part(ii) implies b.placed(ii) by {
        assert(a.is_part(ii));
        lemma_placed_frame(a, b, ii);
    }
    assert forall|x: (i32, i32)| #[trigger] b.holds(x) implies b.cell_ok(x) by {
        if x != at {
            assert(a.holds(x));
            assert(a.cell_ok(x));
        }
    }
}

/// The cell with its mask replaced; a body cell stays as it is.
pub open spec fn with_mask(c: Cell, m: u8) -> Cell {
    match c {
        Cell::Wire(_) => Cell::Wire(m),
        Cell::Pin(i, k, _) => Cell::Pin(i, k, m),
        Cell::Body(i) => Cell::Body(i),
    }
}

/// Two cells are the same but for their masks.
pub open spec fn same_but_mask(a: Cell, b: Cell) -> bool {
    match a {
        Cell::Wire(_) => b is Wire,
        Cell::Body(i) => b == Cell::Body(i),
        Cell::Pin(i, k, _) => pin_of(b) == Some((i, k)),
    }
}

/// Changing masks, and nothing else, keeps a board consistent.
proof fn lemma_masks_frame(a: Board, b: Board)
    requires
        a.wf(),
        b.parts@ == a.parts@,
        forall|at: (i32, i32)| #[trigger] b.holds(at) <==> a.holds(at),
        forall|at: (i32, i32)| #[trigger] a.holds(at) ==> same_but_mask(a.cell_at(at), b.cell_at(at)),
    ensures
        b.wf(),
{
    assert forall|ii: int| #[trigger] b.is_part(ii) implies is_float(b.part_ref(ii).value@) by {
        assert(a.is_part(ii));
    }
    assert forall|i: int| #[trigger] b.is_part(i) implies b.placed(i) by {
        assert(a.is_part(i));
        assert(a.placed(i));
        let p = a.part_ref(i);
        assert forall|at: (i32, i32)| in_body(p, at) implies #[trigger] b.holds(at) && b.cell_at(at) == Cell::Body(i as usize) by {
            assert(a.holds(at));
        }
        assert forall|k: int| 0 <= k < pin_cells(p).len() implies #[trigger] b.holds(pin_cells(p)[k])
            && pin_of(b.cell_at(pin_cells(p)[k])) == Some((i as usize, k as usize)) by {
            assert(a.holds(pin_cells(p)[k]));
        }
    }
    assert forall|at: (i32, i32)| #[trigger] b.holds(at) implies b.cell_ok(at) by {
        assert(a.holds(at));
        assert(a.cell_ok(at));
    }
}

/// Side `e` of `at` faced one of the first `k` pins of `p`, which joined
/// back, and that pin does not stay (`ks`).
spec fn cut_side_upto(m: Map<(i32, i32), Cell>, p: Part, ks: Seq<bool>, at: (i32, i32), e: u8, k: int) -> bool {
    cut_side(m, p, at, e) && !ks[pin_cells(p).index_of(step(at, e))] && pin_cells(p).index_of(step(at, e)) < k
}

/// The sides of `at` cut by the first `k` pins of `p` that do not stay.
spec fn cut_sides_upto(m: Map<(i32, i32), Cell>, p: Part, ks: Seq<bool>, at: (i32, i32), k: int) -> u8 {
    side_bits(
        cut_side_upto(m, p, ks, at, N, k),
        cut_side_upto(m, p, ks, at, E, k),
        cut_side_upto(m, p, ks, at, S, k),
        cut_side_upto(m, p, ks, at, W, k),
    )
}

proof fn lemma_clear_twice(m: u8, a: u8, b: u8)
    ensures
        (m & !a) & !b == m & !(a | b),
        m & !0u8 == m,
{
    assert((m & !a) & !b == m & !(a | b)) by (bit_vector);
    assert(m & !0u8 == m) by (bit_vector);
}

proof fn lemma_without_twice(c: Cell, a: u8, b: u8)
    ensures
        without_side(without_side(c, a), b) == without_side(c, a | b),
        without_side(c, 0) == c,
{
    match c {
        Cell::Wire(m) => lemma_clear_twice(m, a, b),
        Cell::Pin(_, _, m) => lemma_clear_twice(m, a, b),
        Cell::Body(_) => {},
    }
}

proof fn lemma_side_bits_add(n: bool, e: bool, s: bool, w: bool)
    ensures
        side_bits(false, false, false, false) == 0,
        side_bits(true, e, s, w) == side_bits(n, e, s, w) | N,
        side_bits(n, true, s, w) == side_bits(n, e, s, w) | E,
        side_bits(n, e, true, w) == side_bits(n, e, s, w) | S,
        side_bits(n, e, s, true) == side_bits(n, e, s, w) | W,
{
    let nn: u8 = if n { 1 } else { 0 };
    let ee: u8 = if e { 2 } else { 0 };
    let ss: u8 = if s { 4 } else { 0 };
    let ww: u8 = if w { 8 } else { 0 };
    assert(side_bits(n, e, s, w) == nn | ee | ss | ww);
    assert((nn == 0 || nn == 1) && (ee == 0 || ee == 2) && (ss == 0 || ss == 4) && (ww == 0 || ww == 8) ==> {
        &&& 1u8 | ee | ss | ww == (nn | ee | ss | ww) | 1
        &&& nn | 2u8 | ss | ww == (nn | ee | ss | ww) | 2
        &&& nn | ee | 4u8 | ww == (nn | ee | ss | ww) | 4
        &&& nn | ee | ss | 8u8 == (nn | ee | ss | ww) | 8
    }) by (bit_vector);
    assert(0u8 | 0u8 | 0u8 | 0u8 == 0u8) by (bit_vector);
}

/// Stepping across a side and back across the opposite one.
proof fn lemma_step_back(at: (i32, i32), e: u8, q: (i32, i32))
    requires
        is_side(e),
        can_step(at, e),
        step(at, e) == q,
    ensures
        step(q, spec_opposite(e)) == at,
        can_step(q, spec_opposite(e)),
{
}

/// The cells across different sides of `at` are different cells.
proof fn lemma_steps_differ(at: (i32, i32))
    ensures
        can_step(at, N) && can_step(at, E) ==> step(at, N) != step(at, E),
        can_step(at, N) && can_step(at, S) ==> step(at, N) != step(at, S),
        can_step(at, N) && can_step(at, W) ==> step(at, N) != step(at, W),
        can_step(at, E) && can_step(at, S) ==> step(at, E) != step(at, S),
        can_step(at, E) && can_step(at, W) ==> step(at, E) != step(at, W),
        can_step(at, S) && can_step(at, W) ==> step(at, S) != step(at, W),
{
}

/// Whether side `e` of `at` counts as cut changes only for the side that
/// faced pin `k` when that pin joined toward `at` and does not stay.
proof fn lemma_flag_change(m0: Map<(i32, i32), Cell>, p: Part, ks: Seq<bool>, k: int, q: (i32, i32), mk: u8, at: (i32, i32), e: u8)
    requires
        is_side(e),
        pin_cells(p).no_duplicates(),
        0 <= k < pin_cells(p).len(),
        q == pin_cells(p)[k],
        mk == mask_in(m0, q),
    ensures
        cut_side_upto(m0, p, ks, at, e, k) ==> cut_side_upto(m0, p, ks, at, e, k + 1),
        cut_side_upto(m0, p, ks, at, e, k + 1) && !cut_side_upto(m0, p, ks, at, e, k) ==> !ks[k] && joins(mk, spec_opposite(e))
            && can_step(q, spec_opposite(e)) && at == step(q, spec_opposite(e)),
        !ks[k] && joins(mk, spec_opposite(e)) && can_step(q, spec_opposite(e)) && at == step(q, spec_opposite(e))
            ==> cut_side_upto(m0, p, ks, at, e, k + 1) && !cut_side_upto(m0, p, ks, at, e, k),
        ks[k] ==> cut_side_upto(m0, p, ks, at, e, k + 1) == cut_side_upto(m0, p, ks, at, e, k),
{
    if cut_side_upto(m0, p, ks, at, e, k + 1) && !cut_side_upto(m0, p, ks, at, e, k) {
        let j = pin_cells(p).index_of(step(at, e));
        assert(pin_cells(p)[j] == step(at, e));
        assert(j == k);
        lemma_step_back(at, e, q);
    }
    if can_step(q, spec_opposite(e)) && at == step(q, spec_opposite(e)) {
        lemma_step_back(q, spec_opposite(e), at);
        assert(spec_opposite(spec_opposite(e)) == e);
        assert(step(at, e) == q);
        assert(can_step(at, e));
        if joins(mk, spec_opposite(e)) {
            assert(pin_cells(p).contains(q));
            let j = pin_cells(p).index_of(q);
            assert(pin_cells(p)[j] == q);
            assert(j == k);
        }
    }
}

/// One pin's unhooking adds exactly the side facing it to each cut set;
/// a pin that stays cuts nothing.
proof fn lemma_unhook_step(
    m0: Map<(i32, i32), Cell>,
    base: Map<(i32, i32), Cell>,
    p: Part,
    ks: Seq<bool>,
    before: Map<(i32, i32), Cell>,
    after: Map<(i32, i32), Cell>,
    k: int,
    q: (i32, i32),
    mk: u8,
    key: (i32, i32),
)
    requires
        pin_cells(p).no_duplicates(),
        0 <= k < pin_cells(p).len(),
        q == pin_cells(p)[k],
        mk == mask_in(m0, q),
        after == if ks[k] { before } else { unhooked(before, q, mk) },
        after.contains_key(key),
        forall|kk: (i32, i32)| #[trigger] before.contains_key(kk) ==> before[kk] == without_side(base[kk], cut_sides_upto(m0, p, ks, swap(kk), k)),
    ensures
        after[key] == without_side(base[key], cut_sides_upto(m0, p, ks, swap(key), k + 1)),
{
    let at = swap(key);
    assert(before.contains_key(key));
    let c0 = base[key];
    let n0 = cut_side_upto(m0, p, ks, at, N, k);
    let e0 = cut_side_upto(m0, p, ks, at, E, k);
    let s0 = cut_side_upto(m0, p, ks, at, S, k);
    let w0 = cut_side_upto(m0, p, ks, at, W, k);
    let n1 = cut_side_upto(m0, p, ks, at, N, k + 1);
    let e1 = cut_side_upto(m0, p, ks, at, E, k + 1);
    let s1 = cut_side_upto(m0, p, ks, at, S, k + 1);
    let w1 = cut_side_upto(m0, p, ks, at, W, k + 1);
    lemma_flag_change(m0, p, ks, k, q, mk, at, N);
    lemma_flag_change(m0, p, ks, k, q, mk, at, E);
    lemma_flag_change(m0, p, ks, k, q, mk, at, S);
    lemma_flag_change(m0, p, ks, k, q, mk, at, W);
    let old_bits = side_bits(n0, e0, s0, w0);
    lemma_side_bits_add(n0, e0, s0, w0);
    lemma_steps_differ(q);
    if ks[k] {
        assert(n1 == n0 && e1 == e0 && s1 == s0 && w1 == w0);
    } else if joins(mk, N) && can_step(q, N) && at == step(q, N) {
        lemma_without_twice(c0, old_bits, S);
    } else if joins(mk, E) && can_step(q, E) && at == step(q, E) {
        lemma_without_twice(c0, old_bits, W);
    } else if joins(mk, S) && can_step(q, S) && at == step(q, S) {
        lemma_without_twice(c0, old_bits, N);
    } else if joins(mk, W) && can_step(q, W) && at == step(q, W) {
        lemma_without_twice(c0, old_bits, E);
    } else {
        assert(n1 == n0 && e1 == e0 && s1 == s0 && w1 == w0);
    }
}

/// Taking a part's cells off keeps the board consistent.
proof fn lemma_lift_wf(a: Board, b: Board, i: int)
    requires
        a.wf(),
        a.is_part(i),
        a.parts@.len() <= usize::MAX,
        b.parts@ == a.parts@.update(i, None),
        b.cells@ == stripped(a.cells@, a.part_ref(i)),
    ensures
        b.wf(),
{
    assert forall|ii: int| #[trigger] b.is_part(ii) implies is_float(b.part_ref(ii).value@) by {
        assert(a.is_part(ii));
    }
    let p = a.part_ref(i);
    assert(a.placed(i));
    assert forall|at: (i32, i32)| #[trigger] a.holds(at) && owner_of(a.cell_at(at)) != Some(i as usize) implies
        b.holds(at) && same_but_mask(a.cell_at(at), b.cell_at(at)) by {
        if covers(p, at) {
            if in_body(p, at) {
                assert(a.cell_at(at) == Cell::Body(i as usize));
            } else {
                let kk = pin_cells(p).index_of(at);
                assert(pin_cells(p)[kk] == at);
                assert(a.holds(pin_cells(p)[kk]));
            }
        }
        assert(b.cells@.contains_key(swap(at)));
    }
    assert forall|ii: int| #[trigger] b.is_part(ii) implies b.placed(ii) by {
        assert(a.is_part(ii));
        assert(a.placed(ii));
        assert(ii != i);
        let q = a.part_ref(ii);
        assert(ii as usize != i as usize);
        assert forall|at: (i32, i32)| in_body(q, at) implies #[trigger] b.holds(at) && b.cell_at(at) == Cell::Body(ii as usize) by {
            assert(a.holds(at));
            assert(a.cell_at(at) == Cell::Body(ii as usize));
            assert(owner_of(a.cell_at(at)) != Some(i as usize));
            assert(b.holds(at) && same_but_mask(a.cell_at(at), b.cell_at(at)));
        }
        assert forall|k: int| 0 <= k < pin_cells(q).len() implies #[trigger] b.holds(pin_cells(q)[k])
            && pin_of(b.cell_at(pin_cells(q)[k])) == Some((ii as usize, k as usize)) by {
            let at = pin_cells(q)[k];
            assert(a.holds(at));
            assert(pin_of(a.cell_at(at)) == Some((ii as usize, k as usize)));
            assert(owner_of(a.cell_at(at)) != Some(i as usize));
            assert(b.holds(at) && same_but_mask(a.cell_at(at), b.cell_at(at)));
        }
    }
    assert forall|at: (i32, i32)| #[trigger] b.holds(at) implies b.cell_ok(at) by {
        assert(a.holds(at));
        assert(a.cell_ok(at));
        assert(!covers(p, at));
        if owner_of(a.cell_at(at)) == Some(i as usize) {
            if a.cell_at(at) is Body {
                assert(in_body(p, at));
            } else {
                assert(pin_cells(p).contains(at));
            }
        }
    }
}

/// A placed part stays placed on a board that keeps every cell in use
/// and the part itself.
proof fn lemma_placed_frame(a: Board, b: Board, i: int)
    requires
        a.is_part(i),
        a.placed(i),
        b.is_part(i),
        b.part_ref(i) == a.part_ref(i),
        forall|at: (i32, i32)| #[trigger] a.holds(at) ==> b.holds(at) && b.cell_at(at) == a.cell_at(at),
    ensures
        b.placed(i),
{
    let p = a.part_ref(i);
    assert forall|at: (i32, i32)| in_body(p, at) implies #[trigger] b.holds(at) && b.cell_at(at) == Cell::Body(i as usize) by {
        assert(a.holds(at));
    }
    assert forall|k: int| 0 <= k < pin_cells(p).len() implies #[trigger] b.holds(pin_cells(p)[k])
        && pin_of(b.cell_at(pin_cells(p)[k])) == Some((i as usize, k as usize)) by {
        assert(a.holds(pin_cells(p)[k]));
    }
}

/// Placing a part on free cells and taking it off again leaves the cells
/// as they were: its pins had no wires to cut.
pub proof fn lemma_place_then_lift(m: Map<(i32, i32), Cell>, i: usize, p: Part)
    requires
        on_grid(p),
        forall|at: (i32, i32)| #[trigger] covers(p, at) ==> !m.contains_key(swap(at)),
    ensures
        without_part(with_part(m, i, p), p) == m,
{
    let placed = with_part(m, i, p);
    lemma_pins_shape(p);
    assert forall|key: (i32, i32)| #[trigger] m.contains_key(key) implies cut_sides(placed, p, swap(key)) == 0 by {
        let at = swap(key);
        assert forall|e: u8| !#[trigger] cut_side(placed, p, at, e) by {
            if can_step(at, e) && pin_cells(p).contains(step(at, e)) {
                let pc = step(at, e);
                let k = pin_cells(p).index_of(pc);
                assert(pin_cells(p)[k] == pc);
                assert(!in_body(p, pc));
                assert(swap(swap(pc)) == pc);
                assert(placed.contains_key(swap(pc)));
                assert(mask_in(placed, pc) == 0);
                assert(!joins(0u8, spec_opposite(e))) by (bit_vector);
            }
        }
        assert(side_bits(false, false, false, false) == 0) by (bit_vector);
    }
    assert forall|key: (i32, i32)| #[trigger] m.contains_key(key) implies without_part(placed, p)[key] == m[key] by {
        assert(swap(swap(key)) == key);
        assert(!covers(p, swap(key)));
        let c = m[key];
        assert(without_side(c, 0) == c) by {
            match c {
                Cell::Wire(x) => {
                    assert(x & !0u8 == x) by (bit_vector);
                },
                Cell::Pin(_, _, x) => {
                    assert(x & !0u8 == x) by (bit_vector);
                },
                Cell::Body(_) => {},
            }
        }
    }
    assert forall|key: (i32, i32)| #[trigger] without_part(placed, p).contains_key(key) <==> m.contains_key(key) by {
        if m.contains_key(key) {
            assert(swap(swap(key)) == key);
            assert(!covers(p, swap(key)));
        }
    }
    assert(without_part(placed, p) =~= m);
}

/// Changing a part without moving it (its value, colour, switch or burnt
/// state) leaves every cell as it was: no wire comes loose.
pub proof fn lemma_edit_keeps_wires(b: Board, i: usize, q: Part)
    requires
        b.wf(),
        b.is_part(i as int),
        q.kind == b.part_ref(i as int).kind,
        q.x == b.part_ref(i as int).x,
        q.y == b.part_ref(i as int).y,
        q.orient == b.part_ref(i as int).orient,
    ensures
        changed_cells(b.cells@, i, b.part_ref(i as int), q) == b.cells@,
{
    let m = b.cells@;
    let p = b.part_ref(i as int);
    assert(b.placed(i as int));
    assert(pin_cells(q) == pin_cells(p));
    lemma_pins_shape(p);
    let t = changed_cells(m, i, p, q);
    assert forall|key: (i32, i32)| #[trigger] t.contains_key(key) <==> m.contains_key(key) by {
        let at = swap(key);
        assert(swap(at) == key);
        assert(covers(q, at) == covers(p, at));
        if covers(p, at) {
            if in_body(p, at) {
                assert(b.holds(at));
            } else {
                let j = pin_cells(p).index_of(at);
                assert(b.holds(pin_cells(p)[j]));
            }
        }
    }
    assert forall|key: (i32, i32)| #[trigger] m.contains_key(key) implies t[key] == m[key] by {
        let at = swap(key);
        assert(swap(at) == key);
        assert forall|e: u8| !#[trigger] loose_side(m, p, q, at, e) by {
            if cut_side(m, p, at, e) {
                let j = pin_cells(p).index_of(step(at, e));
                assert(0 <= j < pin_cells(p).len());
            }
        }
        lemma_side_bits_add(false, false, false, false);
        assert(loose_sides(m, p, q, at) == 0);
        let c = m[key];
        lemma_without_twice(c, 0, 0);
        if in_body(q, at) {
            assert(in_body(p, at));
            assert(b.holds(at));
            assert(b.cell_at(at) == Cell::Body(i));
            assert(t[key] == without_side(Cell::Body(i), 0));
        } else if pin_cells(q).contains(at) {
            let j = pin_cells(q).index_of(at);
            assert(pin_cells(p)[j] == at);
            assert(b.holds(pin_cells(p)[j]));
            assert(pin_of(b.cell_at(pin_cells(p)[j])) == Some((i, j as usize)));
            let inner = Cell::Pin(i, j as usize, kept_mask(m, p, q, j));
            lemma_without_twice(inner, 0, 0);
        }
    }
    assert(t =~= m);
}

/// Marking a crossing as a join and marking it again leaves it as it was,
/// still four-way.
pub proof fn lemma_join_toggles_back(c: Cell)
    requires
        four_way(c),
    ensures
        four_way(join_flipped(c)),
        join_flipped(join_flipped(c)) == c,
{
    if let Cell::Wire(m) = c {
        assert((m ^ 16) ^ 16 == m) by (bit_vector);
        assert(four_sides(m) ==> four_sides(m ^ 16)) by (bit_vector);
    }
}

} // verus!
