//! The editor: what each key does to the board, the cursor, and the modes
//! of drawing wire and carrying a part. What needs the screen, the files
//! or the solver is handed back as an action for the program to carry
//! out.

use vstd::prelude::*;
use crate::board::{Board, Cell, without_part, with_part, changed_cells, joined, can_step, four_way, join_flipped, unhooked, covers};
use crate::chars::{chars_of, spells};
use crate::geom::{step, spec_opposite, offset, spec_offset, N, E, S, W};
use crate::part::turned;
use crate::kind::{Kind, LedColor, picker_order, kind_is_chip, kind_default_value, color_at, color_index, next_color};
use crate::lessons::{starter, starter_parts, LESSON_COUNT};
use crate::part::{Part, on_grid, lemma_default_values_read};
use crate::numbers::is_float;
use crate::save::{placed_in_turn, part_text, shape, PartText, lemma_room_is_free};

verus! {

/// A key, by what it does.
#[derive(Clone, Copy, PartialEq, Eq, Structural, Debug)]
pub enum Key {
    Up,
    Down,
    Left,
    Right,
    /// Stop drawing or carrying.
    Escape,
    /// Start or stop drawing wire.
    Pen,
    /// Pick up or drop the part under the cursor.
    Carry,
    /// Add the part on number key 1 to 6.
    Add(u8),
    Delete,
    Turn,
    /// Choose any part to add.
    Pick,
    Bigger,
    Smaller,
    /// Flip a switch or press a button.
    Space,
    /// Put in a new LED for a burnt one.
    Mend,
    /// Join or part a crossing.
    Join,
    Power,
    Next,
    Previous,
    /// Put the board back to its start, when pressed twice.
    Reset,
    Help,
    /// The terminal changed size.
    Resize,
    Quit,
    Other,
}

/// The key a key name stands for.
pub open spec fn key_of(k: Seq<char>) -> Key {
    if k == "q"@ {
        Key::Quit
    } else if k == "UP"@ || k == "k"@ {
        Key::Up
    } else if k == "DOWN"@ || k == "j"@ {
        Key::Down
    } else if k == "LEFT"@ || k == "h"@ {
        Key::Left
    } else if k == "RIGHT"@ || k == "l"@ {
        Key::Right
    } else if k == "ESC"@ {
        Key::Escape
    } else if k == "w"@ {
        Key::Pen
    } else if k == "m"@ {
        Key::Carry
    } else if k == "1"@ {
        Key::Add(1)
    } else if k == "2"@ {
        Key::Add(2)
    } else if k == "3"@ {
        Key::Add(3)
    } else if k == "4"@ {
        Key::Add(4)
    } else if k == "5"@ {
        Key::Add(5)
    } else if k == "6"@ {
        Key::Add(6)
    } else if k == "x"@ || k == "DEL"@ {
        Key::Delete
    } else if k == "o"@ {
        Key::Turn
    } else if k == "a"@ {
        Key::Pick
    } else if k == "+"@ || k == "="@ {
        Key::Bigger
    } else if k == "-"@ {
        Key::Smaller
    } else if k == " "@ {
        Key::Space
    } else if k == "r"@ {
        Key::Mend
    } else if k == "."@ {
        Key::Join
    } else if k == "p"@ {
        Key::Power
    } else if k == "n"@ {
        Key::Next
    } else if k == "N"@ {
        Key::Previous
    } else if k == "R"@ {
        Key::Reset
    } else if k == "?"@ {
        Key::Help
    } else if k == "RESIZE"@ {
        Key::Resize
    } else {
        Key::Other
    }
}

/// The key a key name stands for.
pub fn key_named(k: &str) -> (r: Key)
    ensures
        r == key_of(k@),
{
    let t = chars_of(k);
    if spells(&t, "q") {
        Key::Quit
    } else if spells(&t, "UP") || spells(&t, "k") {
        Key::Up
    } else if spells(&t, "DOWN") || spells(&t, "j") {
        Key::Down
    } else if spells(&t, "LEFT") || spells(&t, "h") {
        Key::Left
    } else if spells(&t, "RIGHT") || spells(&t, "l") {
        Key::Right
    } else if spells(&t, "ESC") {
        Key::Escape
    } else if spells(&t, "w") {
        Key::Pen
    } else if spells(&t, "m") {
        Key::Carry
    } else if spells(&t, "1") {
        Key::Add(1)
    } else if spells(&t, "2") {
        Key::Add(2)
    } else if spells(&t, "3") {
        Key::Add(3)
    } else if spells(&t, "4") {
        Key::Add(4)
    } else if spells(&t, "5") {
        Key::Add(5)
    } else if spells(&t, "6") {
        Key::Add(6)
    } else if spells(&t, "x") || spells(&t, "DEL") {
        Key::Delete
    } else if spells(&t, "o") {
        Key::Turn
    } else if spells(&t, "a") {
        Key::Pick
    } else if spells(&t, "+") || spells(&t, "=") {
        Key::Bigger
    } else if spells(&t, "-") {
        Key::Smaller
    } else if spells(&t, " ") {
        Key::Space
    } else if spells(&t, "r") {
        Key::Mend
    } else if spells(&t, ".") {
        Key::Join
    } else if spells(&t, "p") {
        Key::Power
    } else if spells(&t, "n") {
        Key::Next
    } else if spells(&t, "N") {
        Key::Previous
    } else if spells(&t, "R") {
        Key::Reset
    } else if spells(&t, "?") {
        Key::Help
    } else if spells(&t, "RESIZE") {
        Key::Resize
    } else {
        Key::Other
    }
}

/// A message for the person at the keyboard.
#[derive(Clone, Copy, PartialEq, Eq, Structural, Debug)]
pub enum Note {
    NoPartToCarry,
    NoRoomForNumberedPart,
    NoRoomForPickedPart,
    ChipsDoNotTurn,
    NoRoomThere,
    WireBlocked,
    NoPartHere,
    NoRoomToTurn,
    CannotChange,
    JoinNeedsFour,
    PressResetAgain,
    ButtonNeedsPower,
}

/// What a note says.
pub open spec fn note_text(n: Note) -> Seq<char> {
    match n {
        Note::NoPartToCarry => "Put the cursor on a part to move it."@,
        Note::NoRoomForNumberedPart => "No room here: a part needs three cells, and a free cell at each end."@,
        Note::NoRoomForPickedPart => "No room here for that part."@,
        Note::ChipsDoNotTurn => "Chips don't turn: inputs stay on the left, outputs on the right."@,
        Note::NoRoomThere => "No room there."@,
        Note::WireBlocked => "A wire can't go through a part. Join it at the pin at either end."@,
        Note::NoPartHere => "Put the cursor on a part first."@,
        Note::NoRoomToTurn => "No room to turn it here."@,
        Note::CannotChange => "That can't change."@,
        Note::JoinNeedsFour => "A join only matters where four wires meet."@,
        Note::PressResetAgain => "Press R again to put this board back to its start."@,
        Note::ButtonNeedsPower => "Power on first: a button only holds while you press."@,
    }
}

impl Note {
    /// What the note says.
    pub fn text(self) -> (r: &'static str)
        ensures
            r@ == note_text(self),
    {
        match self {
            Note::NoPartToCarry => "Put the cursor on a part to move it.",
            Note::NoRoomForNumberedPart => "No room here: a part needs three cells, and a free cell at each end.",
            Note::NoRoomForPickedPart => "No room here for that part.",
            Note::ChipsDoNotTurn => "Chips don't turn: inputs stay on the left, outputs on the right.",
            Note::NoRoomThere => "No room there.",
            Note::WireBlocked => "A wire can't go through a part. Join it at the pin at either end.",
            Note::NoPartHere => "Put the cursor on a part first.",
            Note::NoRoomToTurn => "No room to turn it here.",
            Note::CannotChange => "That can't change.",
            Note::JoinNeedsFour => "A join only matters where four wires meet.",
            Note::PressResetAgain => "Press R again to put this board back to its start.",
            Note::ButtonNeedsPower => "Power on first: a button only holds while you press.",
        }
    }
}

/// What the program does after a key, beyond what the editor did.
#[derive(Clone, Copy, PartialEq, Eq, Structural, Debug)]
pub enum Action {
    /// Nothing more.
    Stay,
    Quit,
    /// The board changed shape: work out its circuit again.
    Rebuild,
    /// Turn the power on or off.
    Power,
    /// Keep this board and go to board `0` (free) or challenge `1` and up.
    Mode(usize),
    /// Let the person pick any part, then add it.
    Pick,
    /// Show every key.
    Help,
    /// Flip the switch or press the button under the cursor.
    Flip,
    /// Step part `.0`'s value up (`.1`) or down to the next one stocked,
    /// then set it.
    StepValue(usize, bool),
    /// Draw everything again.
    Redraw,
}

/// What flipping did.
#[derive(Clone, Copy, PartialEq, Eq, Structural, Debug)]
pub enum Flip {
    Nothing,
    /// Switch `.0` is now closed (`.1`) or open.
    Switched(usize, bool),
    /// Button `.0` is held down.
    Pressed(usize),
}

/// The board being edited, and where the person is on it.
pub struct Editor {
    pub board: Board,
    /// 0 is free building; 1 and up are the challenges.
    pub mode: usize,
    pub cur: (i32, i32),
    /// Drawing wire: moving the cursor lays it.
    pub pen: bool,
    /// The part being carried: moving the cursor moves it.
    pub carrying: Option<usize>,
    /// `R` was pressed once.
    pub reset_armed: bool,
    pub note: Option<Note>,
}

/// The part moved one cell across side `dir`.
pub open spec fn shifted(p: Part, dir: u8) -> Part {
    Part { x: (p.x + spec_offset(dir).0) as i32, y: (p.y + spec_offset(dir).1) as i32, ..p }
}

/// Everything but the board, the cursor and the note is as it was.
pub open spec fn same_modes(a: Editor, b: Editor) -> bool {
    &&& b.mode == a.mode
    &&& b.pen == a.pen
    &&& b.carrying == a.carrying
    &&& b.reset_armed == a.reset_armed
}

/// The board after part `i` changed to `q`, when it fits; the cursor, if
/// it is no longer on the part, goes to the part's body.
pub open spec fn changed_to(a: Editor, b: Editor, i: usize, q: Part, miss: Note, r: Action) -> bool {
    &&& same_modes(a, b)
    &&& if a.board.is_part(i as int) && a.board.room_for(q, Some(i)) {
        &&& b.board.parts@ == a.board.parts@.update(i as int, Some(q))
        &&& b.board.cells@ == changed_cells(a.board.cells@, i, a.board.part_ref(i as int), q)
        &&& b.cur == if b.board.owner(a.cur) == Some(i) { a.cur } else { ((q.x + 1) as i32, q.y) }
        &&& b.note == a.note
        &&& r == Action::Rebuild
    } else {
        &&& b.board == a.board
        &&& b.cur == a.cur
        &&& b.note == Some(miss)
        &&& r == Action::Stay
    }
}

/// A new part of kind `k` whose body starts left of the cursor: lying
/// flat, with its kind's starting value, red, open and not burnt.
pub open spec fn new_text(k: Kind, cur: (i32, i32)) -> PartText {
    PartText {
        kind: k,
        x: (cur.0 - 1) as i32,
        y: cur.1,
        orient: 0,
        value: kind_default_value(k),
        color: LedColor::Red,
        closed: false,
        burnt: false,
    }
}

/// The board after a new part of kind `k` is added left of the cursor,
/// where it fits.
pub open spec fn added(a: Editor, b: Editor, k: Kind, miss: Note, r: Action) -> bool {
    let t = new_text(k, a.cur);
    &&& same_modes(a, b)
    &&& b.cur == a.cur
    &&& if a.cur.0 > i32::MIN && on_grid(shape(t)) && a.board.room_for(shape(t), None) {
        &&& b.board.parts@.len() == a.board.parts@.len() + 1
        &&& b.board.parts@.drop_last() == a.board.parts@
        &&& b.board.parts@.last() is Some
        &&& part_text(b.board.parts@.last().unwrap()) == t
        &&& b.board.cells@ == with_part(a.board.cells@, a.board.parts@.len() as usize, shape(t))
        &&& b.note == a.note
        &&& r == Action::Rebuild
    } else {
        &&& b.board == a.board
        &&& b.note == Some(miss)
        &&& r == Action::Stay
    }
}

/// The editor after the cursor steps across side `dir`: a carried part
/// moves with it where it fits, or a wire is laid where it can go; at the
/// edge of the grid the cursor stays.
pub open spec fn went(a: Editor, b: Editor, dir: u8, r: Action) -> bool {
    &&& same_modes(a, b)
    &&& if !can_step(a.cur, dir) {
        &&& b.board == a.board
        &&& b.cur == a.cur
        &&& b.note == a.note
        &&& r == Action::Stay
    } else if a.carrying is Some {
        let i = a.carrying.unwrap();
        let q = shifted(a.board.part_ref(i as int), dir);
        if a.board.is_part(i as int) && on_grid(q) && a.board.room_for(q, Some(i)) {
            &&& b.board.parts@ == a.board.parts@.update(i as int, Some(q))
            &&& b.board.cells@ == changed_cells(a.board.cells@, i, a.board.part_ref(i as int), q)
            &&& b.cur == step(a.cur, dir)
            &&& b.note == a.note
            &&& r == Action::Rebuild
        } else {
            &&& b.board == a.board
            &&& b.cur == a.cur
            &&& b.note == Some(Note::NoRoomThere)
            &&& r == Action::Stay
        }
    } else if a.pen {
        if a.board.open_at(a.cur, dir) && a.board.open_at(step(a.cur, dir), spec_opposite(dir)) {
            &&& b.board.parts@ == a.board.parts@
            &&& b.board.cells@ == a.board.cells@.insert(crate::board::swap(a.cur), joined(a.board.cells@, a.cur, dir)).insert(
                crate::board::swap(step(a.cur, dir)),
                joined(a.board.cells@, step(a.cur, dir), spec_opposite(dir)),
            )
            &&& b.cur == step(a.cur, dir)
            &&& b.note == a.note
            &&& r == Action::Rebuild
        } else {
            &&& b.board == a.board
            &&& b.cur == a.cur
            &&& b.note == Some(Note::WireBlocked)
            &&& r == Action::Stay
        }
    } else {
        &&& b.board == a.board
        &&& b.cur == step(a.cur, dir)
        &&& b.note == a.note
        &&& r == Action::Stay
    }
}

/// The kind on number key `d`, 1 to 6.
pub open spec fn numbered_kind(d: u8) -> Kind {
    if d == 1 {
        Kind::Battery
    } else if d == 2 {
        Kind::Resistor
    } else if d == 3 {
        Kind::Capacitor
    } else if d == 4 {
        Kind::Led
    } else if d == 5 {
        Kind::Switch
    } else {
        Kind::Npn
    }
}

/// Number keys 1 to 6 add the first six parts of the part picker, in its
/// order: battery, resistor, capacitor, LED, switch and transistor.
pub proof fn lemma_number_keys_follow_the_picker()
    ensures
        forall|d: u8| 1 <= d <= 6 ==> #[trigger] numbered_kind(d) == picker_order()[d - 1],
        numbered_kind(1) == Kind::Battery,
        numbered_kind(2) == Kind::Resistor,
        numbered_kind(3) == Kind::Capacitor,
        numbered_kind(4) == Kind::Led,
        numbered_kind(5) == Kind::Switch,
        numbered_kind(6) == Kind::Npn,
{
    assert forall|d: u8| 1 <= d <= 6 implies #[trigger] numbered_kind(d) == picker_order()[d - 1] by {
        if d == 1 {
        } else if d == 2 {
        } else if d == 3 {
        } else if d == 4 {
        } else if d == 5 {
        } else {
        }
    }
}

/// The editor as every key first leaves it: the note is cleared, and any
/// key but `R` disarms the reset.
pub open spec fn prelude(a: Editor, key: Key) -> Editor {
    Editor { note: None, reset_armed: if key == Key::Reset { a.reset_armed } else { false }, ..a }
}

/// The board after the wire or part at `at` is deleted, as
/// `Board::delete` does it.
pub open spec fn deleted(a: Board, b: Board, at: (i32, i32)) -> bool {
    if !a.holds(at) {
        b == a
    } else {
        match a.cell_at(at) {
            Cell::Wire(m) => b.parts@ == a.parts@ && b.cells@ == unhooked(a.cells@.remove(crate::board::swap(at)), at, m),
            Cell::Body(i) => b.parts@ == a.parts@.update(i as int, None) && b.cells@ == without_part(a.cells@, a.part_ref(i as int)),
            Cell::Pin(i, _, _) => b.parts@ == a.parts@.update(i as int, None) && b.cells@ == without_part(a.cells@, a.part_ref(i as int)),
        }
    }
}

/// The colour after stepping up or down the cycle red, green, yellow, blue.
pub open spec fn stepped_color(c: LedColor, up: bool) -> LedColor {
    color_at((color_index(c) + if up { 1int } else { 3int }) % 4)
}

/// What `+` or `-` does to the part under the cursor: an LED changes
/// colour, a switch flips, anything else has its value stepped by the
/// program.
pub open spec fn stepped(a: Editor, b: Editor, up: bool, r: Action) -> bool {
    match a.board.owner(a.cur) {
        None => b == Editor { note: Some(Note::NoPartHere), ..a } && r == Action::Stay,
        Some(i) => {
            let p = a.board.part_ref(i as int);
            if p.kind == Kind::Led {
                changed_to(a, b, i, Part { color: stepped_color(p.color, up), ..p }, Note::CannotChange, r)
            } else if p.kind == Kind::Switch {
                changed_to(a, b, i, Part { closed: !p.closed, ..p }, Note::CannotChange, r)
            } else {
                b == a && r == Action::StepValue(i, up)
            }
        },
    }
}

impl Editor {
    /// The board is consistent and the mode is a board there is.
    pub open spec fn wf(&self) -> bool {
        &&& self.board.wf()
        &&& self.mode <= LESSON_COUNT
    }

    /// Editing `board`, board `mode`, with the cursor near the top left.
    pub fn new(board: Board, mode: usize) -> (e: Editor)
        ensures
            e.board == board,
            e.mode == mode,
            e.cur == (2i32, 2i32),
            !e.pen,
            e.carrying is None,
            !e.reset_armed,
            e.note is None,
    {
        Editor { board, mode, cur: (2, 2), pen: false, carrying: None, reset_armed: false, note: None }
    }

    /// Go to another board: drawing and carrying stop.
    pub fn switch_to(&mut self, board: Board, mode: usize)
        ensures
            final(self).board == board,
            final(self).mode == mode,
            final(self).cur == old(self).cur,
            !final(self).pen,
            final(self).carrying is None,
            final(self).reset_armed == old(self).reset_armed,
            final(self).note == old(self).note,
    {
        self.board = board;
        self.mode = mode;
        self.pen = false;
        self.carrying = None;
    }

    /// Part `i` changed to `q` if it fits; the cursor follows the part.
    fn change_part(&mut self, i: usize, q: Part, miss: Note) -> (r: Action)
        requires
            old(self).wf(),
            old(self).board.parts@.len() < usize::MAX,
            on_grid(q),
            is_float(q.value@),
        ensures
            final(self).wf(),
            changed_to(*old(self), *final(self), i, q, miss, r),
    {
        let ghost a = *self;
        let (qx, qy) = (q.x, q.y);
        if self.board.change(i, q) {
            proof {
                assert(on_grid(self.board.part_ref(i as int)));
            }
            if self.board.part_at(self.cur) != Some(i) {
                self.cur = (qx + 1, qy);
            }
            Action::Rebuild
        } else {
            self.note = Some(miss);
            Action::Stay
        }
    }

    /// Add a new part of kind `kind`, its body starting left of the
    /// cursor, where it fits.
    fn add_kind(&mut self, kind: Kind, miss: Note) -> (r: Action)
        requires
            old(self).wf(),
            old(self).board.parts@.len() < usize::MAX,
        ensures
            final(self).wf(),
            added(*old(self), *final(self), kind, miss, r),
    {
        let ghost a = *self;
        let ghost t = new_text(kind, self.cur);
        if self.cur.0 == i32::MIN {
            self.note = Some(miss);
            return Action::Stay;
        }
        let p = Part::new(kind, self.cur.0 - 1, self.cur.1);
        proof {
            assert(part_text(p) == t);
            assert(shape(part_text(p)) == shape(t));
        }
        if !p.fits_grid() {
            proof {
                assert(on_grid(p) == on_grid(shape(t)));
            }
            self.note = Some(miss);
            return Action::Stay;
        }
        proof {
            lemma_default_values_read();
            lemma_room_is_free(self.board, p);
            assert forall|at: (i32, i32)| covers(p, at) == #[trigger] covers(shape(t), at) by {
                assert(crate::part::pin_cells(p) == crate::part::pin_cells(shape(t)));
            }
            assert(self.board.room_for(p, None) == self.board.room_for(shape(t), None));
        }
        match self.board.place(p) {
            Some(_) => {
                proof {
                    assert(self.board.parts@.drop_last() =~= a.board.parts@);
                }
                Action::Rebuild
            },
            None => {
                self.note = Some(miss);
                Action::Stay
            },
        }
    }

    /// Add a part of kind `kind` that the person picked, its body
    /// starting left of the cursor, where it fits.
    pub fn add(&mut self, kind: Kind) -> (r: Action)
        requires
            old(self).wf(),
            old(self).board.parts@.len() < usize::MAX,
        ensures
            final(self).wf(),
            added(*old(self), *final(self), kind, Note::NoRoomForPickedPart, r),
    {
        self.add_kind(kind, Note::NoRoomForPickedPart)
    }

    /// Step the cursor across side `dir`, carrying or drawing.
    fn go(&mut self, dir: u8) -> (r: Action)
        requires
            old(self).wf(),
            old(self).board.parts@.len() < usize::MAX,
            dir == N || dir == E || dir == S || dir == W,
        ensures
            final(self).wf(),
            went(*old(self), *final(self), dir, r),
    {
        let (dx, dy) = offset(dir);
        let fits = match (self.cur.0.checked_add(dx), self.cur.1.checked_add(dy)) {
            (Some(_), Some(_)) => true,
            _ => false,
        };
        if !fits {
            return Action::Stay;
        }
        let next = (self.cur.0 + dx, self.cur.1 + dy);
        match self.carrying {
            Some(i) => {
                match self.board.part(i) {
                    Some(p) => {
                        proof {
                            assert(self.board.placed(i as int));
                        }
                        let mut q = p.duplicate();
                        q.x = q.x + dx;
                        q.y = q.y + dy;
                        proof {
                            assert(q == shifted(self.board.part_ref(i as int), dir));
                        }
                        if q.fits_grid() {
                            if self.board.change(i, q) {
                                self.cur = next;
                                return Action::Rebuild;
                            }
                        }
                        self.note = Some(Note::NoRoomThere);
                        Action::Stay
                    },
                    None => {
                        self.note = Some(Note::NoRoomThere);
                        Action::Stay
                    },
                }
            },
            None => {
                if self.pen {
                    if self.board.wire(self.cur, dir) {
                        self.cur = next;
                        Action::Rebuild
                    } else {
                        self.note = Some(Note::WireBlocked);
                        Action::Stay
                    }
                } else {
                    self.cur = next;
                    Action::Stay
                }
            },
        }
    }

    /// What a key does.
    pub fn press(&mut self, key: Key) -> (r: Action)
        requires
            old(self).wf(),
            old(self).board.parts@.len() < usize::MAX,
            key == Key::Turn && old(self).board.owner(old(self).cur) is Some ==> ({
                let p = old(self).board.part_ref(old(self).board.owner(old(self).cur).unwrap() as int);
                kind_is_chip(p.kind) || p.orient < 255
            }),
            key == Key::Delete && old(self).board.holds(old(self).cur) && old(self).board.cell_at(old(self).cur) is Wire
                ==> crate::board::steps_fit_at(old(self).cur, old(self).board.cell_at(old(self).cur)->Wire_0),
        ensures
            final(self).wf(),
            key == Key::Quit ==> *final(self) == prelude(*old(self), key) && r == Action::Quit,
            key == Key::Up ==> went(prelude(*old(self), key), *final(self), N, r),
            key == Key::Down ==> went(prelude(*old(self), key), *final(self), S, r),
            key == Key::Left ==> went(prelude(*old(self), key), *final(self), W, r),
            key == Key::Right ==> went(prelude(*old(self), key), *final(self), E, r),
            key == Key::Escape ==> *final(self) == (Editor { pen: false, carrying: None, ..prelude(*old(self), key) }) && r == Action::Stay,
            key == Key::Pen ==> *final(self) == (Editor { pen: !old(self).pen, carrying: None, ..prelude(*old(self), key) })
                && r == Action::Stay,
            key == Key::Carry ==> ({
                let c = if old(self).carrying is Some { None } else { old(self).board.owner(old(self).cur) };
                let n = if c is None && old(self).board.owner(old(self).cur) is None { Some(Note::NoPartToCarry) } else { None };
                *final(self) == (Editor { pen: false, carrying: c, note: n, ..prelude(*old(self), key) }) && r == Action::Stay
            }),
            forall|d: u8| key == Key::Add(d) ==> if 1 <= d <= 6 {
                added(prelude(*old(self), key), *final(self), numbered_kind(d), Note::NoRoomForNumberedPart, r)
            } else {
                *final(self) == prelude(*old(self), key) && r == Action::Stay
            },
            key == Key::Delete ==> same_modes(prelude(*old(self), key), *final(self)) && final(self).cur == old(self).cur
                && final(self).note is None && deleted(old(self).board, final(self).board, old(self).cur)
                && r == if old(self).board.holds(old(self).cur) { Action::Rebuild } else { Action::Stay },
            key == Key::Turn ==> match old(self).board.owner(old(self).cur) {
                None => *final(self) == (Editor { note: Some(Note::NoPartHere), ..prelude(*old(self), key) }) && r == Action::Stay,
                Some(i) => {
                    let p = old(self).board.part_ref(i as int);
                    if kind_is_chip(p.kind) {
                        *final(self) == (Editor { note: Some(Note::ChipsDoNotTurn), ..prelude(*old(self), key) }) && r == Action::Stay
                    } else {
                        changed_to(prelude(*old(self), key), *final(self), i, Part { orient: turned(p.kind, p.orient), ..p },
                            Note::NoRoomToTurn, r)
                    }
                },
            },
            key == Key::Bigger ==> stepped(prelude(*old(self), key), *final(self), true, r),
            key == Key::Smaller ==> stepped(prelude(*old(self), key), *final(self), false, r),
            key == Key::Mend ==> match old(self).board.owner(old(self).cur) {
                None => *final(self) == (Editor { note: Some(Note::NoPartHere), ..prelude(*old(self), key) }) && r == Action::Stay,
                Some(i) => changed_to(prelude(*old(self), key), *final(self), i,
                    Part { burnt: false, ..old(self).board.part_ref(i as int) }, Note::CannotChange, r),
            },
            key == Key::Join ==> if old(self).board.holds(old(self).cur) && four_way(old(self).board.cell_at(old(self).cur)) {
                same_modes(prelude(*old(self), key), *final(self)) && final(self).cur == old(self).cur && final(self).note is None
                    && final(self).board.parts@ == old(self).board.parts@
                    && final(self).board.cells@ == old(self).board.cells@.insert(crate::board::swap(old(self).cur),
                        join_flipped(old(self).board.cell_at(old(self).cur)))
                    && r == Action::Rebuild
            } else {
                *final(self) == (Editor { note: Some(Note::JoinNeedsFour), ..prelude(*old(self), key) }) && r == Action::Stay
            },
            key == Key::Next ==> *final(self) == prelude(*old(self), key) && r == Action::Mode(((old(self).mode + 1) % (LESSON_COUNT + 1)) as usize),
            key == Key::Previous ==> *final(self) == prelude(*old(self), key)
                && r == Action::Mode(((old(self).mode + LESSON_COUNT) % (LESSON_COUNT + 1)) as usize),
            key == Key::Reset ==> if old(self).reset_armed {
                &&& same_modes(Editor { reset_armed: false, ..prelude(*old(self), key) }, *final(self))
                &&& final(self).cur == old(self).cur
                &&& final(self).note is None
                &&& final(self).board.has_parts(placed_in_turn(starter_parts(old(self).mode as int), starter_parts(old(self).mode as int).len()).0)
                &&& final(self).board.cells@ == placed_in_turn(starter_parts(old(self).mode as int), starter_parts(old(self).mode as int).len()).1
                &&& r == Action::Rebuild
            } else {
                *final(self) == (Editor { reset_armed: true, note: Some(Note::PressResetAgain), ..prelude(*old(self), key) })
                    && r == Action::Stay
            },
            key == Key::Pick ==> *final(self) == prelude(*old(self), key) && r == Action::Pick,
            key == Key::Power ==> *final(self) == prelude(*old(self), key) && r == Action::Power,
            key == Key::Space ==> *final(self) == prelude(*old(self), key) && r == Action::Flip,
            key == Key::Help ==> *final(self) == prelude(*old(self), key) && r == Action::Help,
            key == Key::Resize ==> *final(self) == prelude(*old(self), key) && r == Action::Redraw,
            key == Key::Other ==> *final(self) == prelude(*old(self), key) && r == Action::Stay,
    {
        self.note = None;
        if key != Key::Reset {
            self.reset_armed = false;
        }
        match key {
            Key::Quit => Action::Quit,
            Key::Up => self.go(N),
            Key::Down => self.go(S),
            Key::Left => self.go(W),
            Key::Right => self.go(E),
            Key::Escape => {
                self.pen = false;
                self.carrying = None;
                Action::Stay
            },
            Key::Pen => {
                self.carrying = None;
                self.pen = !self.pen;
                Action::Stay
            },
            Key::Carry => {
                self.pen = false;
                let here = self.board.part_at(self.cur);
                self.carrying = if self.carrying.is_some() { None } else { here };
                if self.carrying.is_none() && here.is_none() {
                    self.note = Some(Note::NoPartToCarry);
                }
                Action::Stay
            },
            Key::Add(d) => {
                if d == 1 {
                    self.add_kind(Kind::Battery, Note::NoRoomForNumberedPart)
                } else if d == 2 {
                    self.add_kind(Kind::Resistor, Note::NoRoomForNumberedPart)
                } else if d == 3 {
                    self.add_kind(Kind::Capacitor, Note::NoRoomForNumberedPart)
                } else if d == 4 {
                    self.add_kind(Kind::Led, Note::NoRoomForNumberedPart)
                } else if d == 5 {
                    self.add_kind(Kind::Switch, Note::NoRoomForNumberedPart)
                } else if d == 6 {
                    self.add_kind(Kind::Npn, Note::NoRoomForNumberedPart)
                } else {
                    Action::Stay
                }
            },
            Key::Delete => {
                if self.board.delete(self.cur) {
                    Action::Rebuild
                } else {
                    Action::Stay
                }
            },
            Key::Turn => {
                match self.board.part_at(self.cur) {
                    None => {
                        self.note = Some(Note::NoPartHere);
                        Action::Stay
                    },
                    Some(i) => {
                        proof {
                            assert(self.board.cell_ok(self.cur));
                            assert(self.board.is_part(i as int));
                            assert(self.board.placed(i as int));
                        }
                        let mut q = match self.board.part(i) {
                            Some(p) => p.duplicate(),
                            None => {
                                return Action::Stay;
                            },
                        };
                        if q.kind.is_chip() {
                            self.note = Some(Note::ChipsDoNotTurn);
                            return Action::Stay;
                        }
                        q.turn();
                        self.change_part(i, q, Note::NoRoomToTurn)
                    },
                }
            },
            Key::Bigger => self.step_here(true),
            Key::Smaller => self.step_here(false),
            Key::Mend => {
                match self.board.part_at(self.cur) {
                    None => {
                        self.note = Some(Note::NoPartHere);
                        Action::Stay
                    },
                    Some(i) => {
                        proof {
                            assert(self.board.cell_ok(self.cur));
                            assert(self.board.placed(i as int));
                        }
                        let mut q = match self.board.part(i) {
                            Some(p) => p.duplicate(),
                            None => {
                                return Action::Stay;
                            },
                        };
                        q.burnt = false;
                        self.change_part(i, q, Note::CannotChange)
                    },
                }
            },
            Key::Join => {
                if self.board.toggle_join(self.cur) {
                    Action::Rebuild
                } else {
                    self.note = Some(Note::JoinNeedsFour);
                    Action::Stay
                }
            },
            Key::Next => Action::Mode((self.mode + 1) % (LESSON_COUNT + 1)),
            Key::Previous => Action::Mode((self.mode + LESSON_COUNT) % (LESSON_COUNT + 1)),
            Key::Reset => {
                if self.reset_armed {
                    self.board = if self.mode == 0 { Board::new() } else { starter(self.mode) };
                    self.reset_armed = false;
                    Action::Rebuild
                } else {
                    self.reset_armed = true;
                    self.note = Some(Note::PressResetAgain);
                    Action::Stay
                }
            },
            Key::Pick => Action::Pick,
            Key::Power => Action::Power,
            Key::Space => Action::Flip,
            Key::Help => Action::Help,
            Key::Resize => Action::Redraw,
            Key::Other => Action::Stay,
        }
    }

    /// `+` or `-` on the part under the cursor.
    fn step_here(&mut self, up: bool) -> (r: Action)
        requires
            old(self).wf(),
            old(self).board.parts@.len() < usize::MAX,
        ensures
            final(self).wf(),
            stepped(*old(self), *final(self), up, r),
    {
        match self.board.part_at(self.cur) {
            None => {
                self.note = Some(Note::NoPartHere);
                Action::Stay
            },
            Some(i) => {
                proof {
                    assert(self.board.cell_ok(self.cur));
                    assert(self.board.placed(i as int));
                }
                let mut q = match self.board.part(i) {
                    Some(p) => p.duplicate(),
                    None => {
                        return Action::Stay;
                    },
                };
                if q.kind == Kind::Led {
                    q.color = next_color(q.color, up);
                    self.change_part(i, q, Note::CannotChange)
                } else if q.kind == Kind::Switch {
                    q.closed = !q.closed;
                    self.change_part(i, q, Note::CannotChange)
                } else {
                    Action::StepValue(i, up)
                }
            },
        }
    }

    /// Give part `i` the value `value`, as the program stepped it.
    pub fn set_value(&mut self, i: usize, value: String) -> (r: Action)
        requires
            old(self).wf(),
            old(self).board.parts@.len() < usize::MAX,
            is_float(value@),
        ensures
            final(self).wf(),
            changed_to(*old(self), *final(self), i, Part { value, ..old(self).board.part_ref(i as int) }, Note::CannotChange, r),
    {
        match self.board.part(i) {
            Some(p) => {
                proof {
                    assert(self.board.placed(i as int));
                }
                let mut q = p.duplicate();
                q.value = value;
                self.change_part(i, q, Note::CannotChange)
            },
            None => {
                self.note = Some(Note::CannotChange);
                Action::Stay
            },
        }
    }

    /// Space on a switch flips it; on a button it presses it, but only
    /// while the power is on.
    pub fn flip(&mut self, powered: bool) -> (r: Flip)
        requires
            old(self).wf(),
        ensures
            final(self).wf(),
            same_modes(*old(self), *final(self)),
            final(self).cur == old(self).cur,
            final(self).board.cells@ == old(self).board.cells@,
            match old(self).board.owner(old(self).cur) {
                None => final(self).board == old(self).board && final(self).note == old(self).note && r == Flip::Nothing,
                Some(i) => {
                    let p = old(self).board.part_ref(i as int);
                    if p.kind == Kind::Switch {
                        final(self).board.parts@ == old(self).board.parts@.update(i as int, Some(Part { closed: !p.closed, ..p }))
                            && final(self).note == old(self).note && r == Flip::Switched(i, !p.closed)
                    } else if p.kind == Kind::Button && powered {
                        final(self).board.parts@ == old(self).board.parts@.update(i as int, Some(Part { closed: true, ..p }))
                            && final(self).note == old(self).note && r == Flip::Pressed(i)
                    } else if p.kind == Kind::Button {
                        final(self).board == old(self).board && final(self).note == Some(Note::ButtonNeedsPower) && r == Flip::Nothing
                    } else {
                        final(self).board == old(self).board && final(self).note == old(self).note && r == Flip::Nothing
                    }
                },
            },
    {
        match self.board.part_at(self.cur) {
            None => Flip::Nothing,
            Some(i) => {
                proof {
                    assert(self.board.cell_ok(self.cur));
                }
                let (kind, closed) = match self.board.part(i) {
                    Some(p) => (p.kind, p.closed),
                    None => {
                        return Flip::Nothing;
                    },
                };
                if kind == Kind::Switch {
                    self.board.set_closed(i, !closed);
                    Flip::Switched(i, !closed)
                } else if kind == Kind::Button && powered {
                    self.board.set_closed(i, true);
                    Flip::Pressed(i)
                } else if kind == Kind::Button {
                    self.note = Some(Note::ButtonNeedsPower);
                    Flip::Nothing
                } else {
                    Flip::Nothing
                }
            },
        }
    }
}

} // verus!
