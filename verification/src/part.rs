//! A part on the board: its kind, where it sits, which way it faces, and
//! the cells its body and pins take.
//!
//! A small part is a row of body cells with pin cells around it; a chip
//! is a block with its inputs down the left side and outputs down the
//! right.

use vstd::prelude::*;
use crate::geom::{step, N, E, S, W};
use crate::kind::{Kind, LedColor, kind_gate, kind_is_chip, kind_default_value};
use crate::numbers::{is_float, lemma_digits_read, lemma_point_read};

verus! {

/// A part on the board.
#[derive(Clone, Debug)]
pub struct Part {
    pub kind: Kind,
    /// The left cell of the body.
    pub x: i32,
    pub y: i32,
    /// 0 and 1 lie flat with the first pin left or right; 2 and 3 stand
    /// up with the first pin on top or below.
    pub orient: u8,
    /// Volts, ohms, farads or hertz, as the decimal text a saved board holds.
    pub value: String,
    pub color: LedColor,
    pub closed: bool,
    pub burnt: bool,
}

/// The body's width and height in cells.
pub open spec fn part_size(k: Kind) -> (int, int) {
    match k {
        Kind::Counter => (5, 4),
        Kind::Timer => (5, 3),
        Kind::Display => (5, 5),
        _ => if kind_gate(k) is Some || k == Kind::Clock { (4, 1) } else { (3, 1) },
    }
}

/// Every cell the part takes, and every cell where a pin of its kind may
/// sit (left and right of its body, above and below its second column),
/// has coordinates an `i32` can hold.
pub open spec fn on_grid(p: Part) -> bool {
    &&& i32::MIN < p.x
    &&& p.x + part_size(p.kind).0 <= i32::MAX
    &&& i32::MIN < p.y
    &&& p.y + 1 <= i32::MAX
    &&& p.y + part_size(p.kind).1 - 1 <= i32::MAX
}

/// A cell of the grid, from `int` coordinates.
pub open spec fn cell(x: int, y: int) -> (i32, i32) {
    (x as i32, y as i32)
}

/// Pin cells, in order: a battery's + and −, an LED's anode and cathode, a
/// transistor's collector, base and emitter, a gate's a, b and q, a
/// counter's clock, reset and 1 2 4 8, a display's 1 2 4 8, a 555's
/// trigger, threshold, discharge and output.
pub open spec fn pin_cells(p: Part) -> Seq<(i32, i32)> {
    let x = p.x as int;
    let y = p.y as int;
    let w = part_size(p.kind).0;
    let left = cell(x - 1, y);
    let right = cell(x + w, y);
    let top = cell(x + 1, y - 1);
    let bottom = cell(x + 1, y + 1);
    let flat = p.orient % 2 == 0;
    match p.kind {
        Kind::Npn => {
            let base = if flat { left } else { right };
            if p.orient < 2 { seq![top, base, bottom] } else { seq![bottom, base, top] }
        },
        Kind::Not => if flat { seq![left, right] } else { seq![right, left] },
        Kind::Clock => seq![if flat { right } else { left }],
        Kind::And | Kind::Or | Kind::Nand | Kind::Nor | Kind::Xor => seq![top, bottom, if flat { right } else { left }],
        Kind::Counter => seq![cell(x - 1, y), cell(x - 1, y + 1), cell(x + w, y), cell(x + w, y + 1), cell(x + w, y + 2), cell(x + w, y + 3)],
        Kind::Timer => seq![cell(x - 1, y), cell(x - 1, y + 1), cell(x - 1, y + 2), cell(x + w, y)],
        Kind::Display => seq![cell(x - 1, y), cell(x - 1, y + 1), cell(x - 1, y + 2), cell(x - 1, y + 3)],
        _ => if p.orient == 0 {
            seq![left, right]
        } else if p.orient == 1 {
            seq![right, left]
        } else if p.orient == 2 {
            seq![top, bottom]
        } else {
            seq![bottom, top]
        },
    }
}

/// The body cells, row by row, each row left to right.
pub open spec fn body_cells(p: Part) -> Seq<(i32, i32)> {
    let w = part_size(p.kind).0;
    let h = part_size(p.kind).1;
    Seq::new((w * h) as nat, |i: int| cell(p.x + i % w, p.y + i / w))
}

/// `at` lies in the part's body.
pub open spec fn in_body(p: Part, at: (i32, i32)) -> bool {
    &&& p.x <= at.0 < p.x + part_size(p.kind).0
    &&& p.y <= at.1 < p.y + part_size(p.kind).1
}

/// The side of pin cell `pin` that faces the body.
pub open spec fn inward_side(p: Part, pin: (i32, i32)) -> u8 {
    if pin.1 < p.y {
        S
    } else if pin.1 >= p.y + part_size(p.kind).1 {
        N
    } else if pin.0 < p.x {
        E
    } else {
        W
    }
}

/// The orientation after a quarter turn; gates and clocks just face the
/// other way, and chips do not turn.
pub open spec fn turned(k: Kind, orient: u8) -> u8 {
    if kind_is_chip(k) {
        orient
    } else if kind_gate(k) is Some || k == Kind::Clock {
        ((orient + 1) % 2) as u8
    } else {
        ((orient + 1) % 4) as u8
    }
}

/// A part's pins are distinct cells outside its body, each next to the
/// body on the side `inward_side` names.
pub proof fn lemma_pins_shape(p: Part)
    requires
        on_grid(p),
    ensures
        pin_cells(p).no_duplicates(),
        forall|k: int| 0 <= k < pin_cells(p).len() ==> !in_body(p, #[trigger] pin_cells(p)[k]),
        forall|k: int| 0 <= k < pin_cells(p).len() ==> in_body(p, step(#[trigger] pin_cells(p)[k], inward_side(p, pin_cells(p)[k]))),
        1 <= pin_cells(p).len() <= 6,
{
}

/// The body cells are exactly the cells of the body, each once.
pub proof fn lemma_body_shape(p: Part)
    requires
        on_grid(p),
    ensures
        body_cells(p).no_duplicates(),
        forall|at: (i32, i32)| #[trigger] body_cells(p).contains(at) <==> in_body(p, at),
        forall|k: int| 0 <= k < body_cells(p).len() ==> in_body(p, #[trigger] body_cells(p)[k]),
        body_cells(p).len() == part_size(p.kind).0 * part_size(p.kind).1,
        body_cells(p).len() <= 25,
{
    let w = part_size(p.kind).0;
    let h = part_size(p.kind).1;
    let b = body_cells(p);
    assert(3 <= w <= 5 && 1 <= h <= 5);
    assert(b.len() == w * h) by (nonlinear_arith)
        requires b.len() == (w * h) as nat, w >= 0, h >= 0;
    assert(w * h <= 25) by (nonlinear_arith)
        requires 3 <= w <= 5, 1 <= h <= 5;
    assert forall|k: int| 0 <= k < b.len() implies in_body(p, #[trigger] b[k]) by {
        lemma_row_col(k, w, h);
    }
    assert forall|i: int, j: int| 0 <= i < b.len() && 0 <= j < b.len() && i != j implies b[i] != b[j] by {
        lemma_row_col(i, w, h);
        lemma_row_col(j, w, h);
        lemma_row_col_unique(i, j, w);
    }
    assert forall|at: (i32, i32)| #[trigger] b.contains(at) <==> in_body(p, at) by {
        if in_body(p, at) {
            let dx = at.0 - p.x;
            let dy = at.1 - p.y;
            let k = dy * w + dx;
            lemma_index_of_row_col(dx, dy, w, h);
            assert(b[k] == at);
        }
    }
}

proof fn lemma_row_col(k: int, w: int, h: int)
    requires
        0 <= k < w * h,
        3 <= w <= 5,
        1 <= h <= 5,
    ensures
        0 <= k % w < w,
        0 <= k / w < h,
{
    assert(0 <= k % w < w) by (nonlinear_arith)
        requires w > 0;
    assert(0 <= k / w < h) by (nonlinear_arith)
        requires 0 <= k < w * h, w > 0;
}

proof fn lemma_row_col_unique(i: int, j: int, w: int)
    requires
        0 <= i,
        0 <= j,
        i != j,
        w > 0,
    ensures
        i % w != j % w || i / w != j / w,
{
    assert(i == w * (i / w) + i % w) by (nonlinear_arith)
        requires w > 0;
    assert(j == w * (j / w) + j % w) by (nonlinear_arith)
        requires w > 0;
}

proof fn lemma_index_of_row_col(dx: int, dy: int, w: int, h: int)
    requires
        0 <= dx < w,
        0 <= dy < h,
        w > 0,
    ensures
        0 <= dy * w + dx < w * h,
        (dy * w + dx) % w == dx,
        (dy * w + dx) / w == dy,
{
    assert(0 <= dy * w + dx < w * h) by (nonlinear_arith)
        requires 0 <= dx < w, 0 <= dy < h, w > 0;
    vstd::arithmetic::div_mod::lemma_fundamental_div_mod_converse(dy * w + dx, w, dy, dx);
}

impl Part {
    /// A new part at `(x, y)`, lying flat with its first pin on the left,
    /// starting with its kind's value, red if it is an LED, open, not burnt.
    pub fn new(kind: Kind, x: i32, y: i32) -> (r: Part)
        ensures
            r.kind == kind,
            r.x == x,
            r.y == y,
            r.orient == 0,
            r.value@ == kind_default_value(kind),
            r.color == LedColor::Red,
            !r.closed,
            !r.burnt,
    {
        Part {
            kind,
            x,
            y,
            orient: 0,
            value: String::from_str(kind.default_value()),
            color: LedColor::Red,
            closed: false,
            burnt: false,
        }
    }

    /// A copy of the part.
    pub fn duplicate(&self) -> (r: Part)
        ensures
            r == *self,
    {
        Part {
            kind: self.kind,
            x: self.x,
            y: self.y,
            orient: self.orient,
            value: self.value.clone(),
            color: self.color,
            closed: self.closed,
            burnt: self.burnt,
        }
    }

    /// The body's width and height in cells.
    pub fn size(&self) -> (r: (i32, i32))
        ensures
            r.0 == part_size(self.kind).0,
            r.1 == part_size(self.kind).1,
    {
        match self.kind {
            Kind::Counter => (5, 4),
            Kind::Timer => (5, 3),
            Kind::Display => (5, 5),
            k => if k.gate().is_some() || k == Kind::Clock { (4, 1) } else { (3, 1) },
        }
    }

    /// Pin cells, in order (see `pin_cells`).
    pub fn pins(&self) -> (r: Vec<(i32, i32)>)
        requires
            on_grid(*self),
        ensures
            r@ == pin_cells(*self),
    {
        let (x, y) = (self.x, self.y);
        let (w, _) = self.size();
        let left = (x - 1, y);
        let right = (x + w, y);
        let top = (x + 1, y - 1);
        let bottom = (x + 1, y + 1);
        let flat = self.orient % 2 == 0;
        let r = match self.kind {
            Kind::Npn => {
                let base = if flat { left } else { right };
                if self.orient < 2 { vec![top, base, bottom] } else { vec![bottom, base, top] }
            },
            Kind::Not => if flat { vec![left, right] } else { vec![right, left] },
            Kind::Clock => vec![if flat { right } else { left }],
            Kind::And | Kind::Or | Kind::Nand | Kind::Nor | Kind::Xor => vec![top, bottom, if flat { right } else { left }],
            Kind::Counter => vec![(x - 1, y), (x - 1, y + 1), (x + w, y), (x + w, y + 1), (x + w, y + 2), (x + w, y + 3)],
            Kind::Timer => vec![(x - 1, y), (x - 1, y + 1), (x - 1, y + 2), (x + w, y)],
            Kind::Display => vec![(x - 1, y), (x - 1, y + 1), (x - 1, y + 2), (x - 1, y + 3)],
            _ => if self.orient == 0 {
                vec![left, right]
            } else if self.orient == 1 {
                vec![right, left]
            } else if self.orient == 2 {
                vec![top, bottom]
            } else {
                vec![bottom, top]
            },
        };
        assert(r@ =~= pin_cells(*self));
        r
    }

    /// The body cells, row by row, each row left to right.
    pub fn body(&self) -> (r: Vec<(i32, i32)>)
        requires
            on_grid(*self),
        ensures
            r@ == body_cells(*self),
    {
        let (w, h) = self.size();
        let ghost wi = w as int;
        let mut r: Vec<(i32, i32)> = Vec::new();
        let mut dy: i32 = 0;
        while dy < h
            invariant
                0 <= dy <= h,
                w == part_size(self.kind).0,
                h == part_size(self.kind).1,
                on_grid(*self),
                wi == w as int,
                r@.len() == dy * wi,
                forall|k: int| 0 <= k < r@.len() ==> #[trigger] r@[k] == cell(self.x + k % wi, self.y + k / wi),
            decreases h - dy,
        {
            let mut dx: i32 = 0;
            while dx < w
                invariant
                    0 <= dx <= w,
                    0 <= dy < h,
                    w == part_size(self.kind).0,
                    h == part_size(self.kind).1,
                    on_grid(*self),
                    wi == w as int,
                    r@.len() == dy * wi + dx,
                    forall|k: int| 0 <= k < r@.len() ==> #[trigger] r@[k] == cell(self.x + k % wi, self.y + k / wi),
                decreases w - dx,
            {
                proof {
                    lemma_index_of_row_col(dx as int, dy as int, wi, h as int);
                }
                r.push((self.x + dx, self.y + dy));
                dx = dx + 1;
            }
            assert(r@.len() == (dy + 1) * wi) by (nonlinear_arith)
                requires r@.len() == dy * wi + wi;
            dy = dy + 1;
        }
        assert(r@ =~= body_cells(*self));
        r
    }

    /// The side of a pin that faces the body; wires join on the others.
    pub fn inward(&self, pin: (i32, i32)) -> (r: u8)
        requires
            on_grid(*self),
        ensures
            r == inward_side(*self, pin),
    {
        let (_, h) = self.size();
        if pin.1 < self.y {
            S
        } else if pin.1 as i64 - self.y as i64 >= h as i64 {
            N
        } else if pin.0 < self.x {
            E
        } else {
            W
        }
    }

    /// Turn the part a quarter; gates and clocks just face the other way.
    /// False for chips, which do not turn.
    pub fn turn(&mut self) -> (r: bool)
        requires
            kind_is_chip(old(self).kind) || old(self).orient < 255,
        ensures
            r == !kind_is_chip(old(self).kind),
            *final(self) == (Part { orient: turned(old(self).kind, old(self).orient), ..*old(self) }),
    {
        if self.kind.is_chip() {
            return false;
        }
        if self.kind.gate().is_some() || self.kind == Kind::Clock {
            self.orient = (self.orient + 1) % 2;
        } else {
            self.orient = (self.orient + 1) % 4;
        }
        true
    }

    /// Whether every cell the part takes, and every cell where a pin of
    /// its kind may sit, has coordinates an `i32` can hold.
    pub fn fits_grid(&self) -> (r: bool)
        ensures
            r == on_grid(*self),
    {
        let (w, h) = self.size();
        i32::MIN < self.x && self.x <= i32::MAX - w && i32::MIN < self.y && self.y < i32::MAX && self.y <= i32::MAX - (h - 1)
    }

    /// Every cell the part takes: its body, then its pins.
    pub fn cells(&self) -> (r: Vec<(i32, i32)>)
        requires
            on_grid(*self),
        ensures
            r@ == body_cells(*self) + pin_cells(*self),
    {
        let mut r = self.body();
        let p = self.pins();
        let mut i: usize = 0;
        while i < p.len()
            invariant
                i <= p@.len(),
                p@ == pin_cells(*self),
                r@ == body_cells(*self) + p@.take(i as int),
            decreases p@.len() - i,
        {
            r.push(p[i]);
            assert(p@.take(i as int).push(p@[i as int]) =~= p@.take(i + 1));
            i = i + 1;
        }
        assert(p@.take(p@.len() as int) =~= p@);
        r
    }
}

/// A chip's pins go down its sides a row at a time. A display's input
/// `k`, the one weighted 2^k, sits left of row `k`. A counter's clock and
/// reset sit left of rows 0 and 1, and its outputs 1, 2, 4 and 8 right of
/// rows 0 to 3. A 555's trigger, threshold and discharge sit left of rows
/// 0 to 2, and its output right of row 0.
pub proof fn lemma_chip_pins_by_row(p: Part)
    requires
        on_grid(p),
    ensures
        p.kind == Kind::Display ==> pin_cells(p).len() == 4 && forall|k: int| 0 <= k < 4 ==>
            (#[trigger] pin_cells(p)[k]).0 == p.x - 1 && pin_cells(p)[k].1 == p.y + k,
        p.kind == Kind::Counter ==> pin_cells(p).len() == 6 && (forall|k: int| 0 <= k < 2 ==>
            (#[trigger] pin_cells(p)[k]).0 == p.x - 1 && pin_cells(p)[k].1 == p.y + k) && (forall|k: int| 2 <= k < 6 ==>
            (#[trigger] pin_cells(p)[k]).0 == p.x + 5 && pin_cells(p)[k].1 == p.y + k - 2),
        p.kind == Kind::Timer ==> pin_cells(p).len() == 4 && (forall|k: int| 0 <= k < 3 ==>
            (#[trigger] pin_cells(p)[k]).0 == p.x - 1 && pin_cells(p)[k].1 == p.y + k) && pin_cells(p)[3].0 == p.x + 5
            && pin_cells(p)[3].1 == p.y,
{
}

/// The cell `c` is `(x, y)`.
pub open spec fn is_at(c: (i32, i32), x: int, y: int) -> bool {
    c.0 == x && c.1 == y
}

/// Where each pin of a part sits, by the part's kind and facing. A two-pin
/// part lying flat has its first pin left of its body and its second
/// right; facing 1 swaps them; standing (2) puts the first above its
/// middle and the second below, and 3 swaps those. A gate's inputs a and b
/// sit above and below its second column and its output q right of it, or
/// left when it faces the other way; a NOT's input and output sit left and
/// right. A clock's one output sits right, or left. A transistor's base
/// sits left, or right when it faces 1 or 3, with the collector above and
/// the emitter below, swapped when it faces 2 or 3.
pub proof fn lemma_pins_by_place(p: Part)
    requires
        on_grid(p),
    ensures
        ({
            let c = pin_cells(p);
            let (x, y) = (p.x as int, p.y as int);
            let flat = p.orient % 2 == 0;
            &&& (p.kind == Kind::Battery || p.kind == Kind::Resistor || p.kind == Kind::Capacitor || p.kind == Kind::Led
                || p.kind == Kind::Switch || p.kind == Kind::Button) ==> c.len() == 2 && if p.orient == 0 {
                is_at(c[0], x - 1, y) && is_at(c[1], x + 3, y)
            } else if p.orient == 1 {
                is_at(c[0], x + 3, y) && is_at(c[1], x - 1, y)
            } else if p.orient == 2 {
                is_at(c[0], x + 1, y - 1) && is_at(c[1], x + 1, y + 1)
            } else {
                is_at(c[0], x + 1, y + 1) && is_at(c[1], x + 1, y - 1)
            }
            &&& p.kind == Kind::Not ==> c.len() == 2 && if flat {
                is_at(c[0], x - 1, y) && is_at(c[1], x + 4, y)
            } else {
                is_at(c[0], x + 4, y) && is_at(c[1], x - 1, y)
            }
            &&& p.kind == Kind::Clock ==> c.len() == 1 && if flat { is_at(c[0], x + 4, y) } else { is_at(c[0], x - 1, y) }
            &&& (p.kind == Kind::And || p.kind == Kind::Or || p.kind == Kind::Nand || p.kind == Kind::Nor || p.kind == Kind::Xor)
                ==> c.len() == 3 && is_at(c[0], x + 1, y - 1) && is_at(c[1], x + 1, y + 1)
                && if flat { is_at(c[2], x + 4, y) } else { is_at(c[2], x - 1, y) }
            &&& p.kind == Kind::Npn ==> c.len() == 3 && (if flat { is_at(c[1], x - 1, y) } else { is_at(c[1], x + 3, y) })
                && if p.orient < 2 {
                is_at(c[0], x + 1, y - 1) && is_at(c[2], x + 1, y + 1)
            } else {
                is_at(c[0], x + 1, y + 1) && is_at(c[2], x + 1, y - 1)
            }
        }),
{
}

/// Every kind's starting value reads as a number.
pub proof fn lemma_default_values_read()
    ensures
        forall|k: Kind| #[trigger] is_float(kind_default_value(k)),
{
    reveal_strlit("9");
    reveal_strlit("470");
    reveal_strlit("0.00001");
    reveal_strlit("1");
    reveal_strlit("0");
    lemma_digits_read("9"@);
    lemma_digits_read("470"@);
    lemma_digits_read("1"@);
    lemma_digits_read("0"@);
    let t = "0.00001"@;
    assert(t.take(1) =~= seq!['0']);
    assert(t.skip(2) =~= seq!['0', '0', '0', '0', '1']);
    lemma_point_read(t, 1);
    assert forall|k: Kind| #[trigger] is_float(kind_default_value(k)) by {
        match k {
            Kind::Battery => {},
            Kind::Resistor => {},
            Kind::Capacitor => {},
            Kind::Clock => {},
            _ => {},
        }
    }
}

/// Turning a part all the way round brings it back: four quarter turns
/// for a part that lies flat or stands up, two for a gate or a clock,
/// which only face one way or the other.
pub proof fn lemma_turns_come_round(k: Kind, orient: u8)
    requires
        orient < 4,
        kind_gate(k) is Some || k == Kind::Clock ==> orient < 2,
    ensures
        kind_gate(k) is Some || k == Kind::Clock ==> turned(k, turned(k, orient)) == orient,
        turned(k, turned(k, turned(k, turned(k, orient)))) == orient,
{
}

/// How far part `i` is off its marked value, counted in steps of a
/// thousandth of a percent up from −1%: a spread from 0 to 2000 that is
/// the same for a part every time.
pub open spec fn spread_of(i: usize) -> int {
    vstd::wrapping::u64_specs::wrapping_mul((i + 1) as u64, 0x9E37_79B9_7F4A_7C15) as int / 0x100_0000_0000 % 2001
}

/// How far part `i` is off its marked value, counted in steps of a
/// thousandth of a percent up from −1%, so never more than 1% either way.
pub fn spread(i: usize) -> (r: u64)
    requires
        i < u64::MAX,
    ensures
        r == spread_of(i),
        r <= 2000,
{
    let m = (i as u64 + 1).wrapping_mul(0x9E37_79B9_7F4A_7C15);
    let h = m >> 40;
    assert(h == m / 0x100_0000_0000) by (bit_vector)
        requires
            h == m >> 40,
    ;
    h % 2001
}

} // verus!
