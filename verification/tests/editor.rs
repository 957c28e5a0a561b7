use circuit::board::{Board, Cell};
use circuit::editor::{key_named, Action, Editor, Flip, Key, Note};
use circuit::geom::{E, W};
use circuit::kind::{Kind, LedColor};

fn empty(mode: usize) -> Editor {
    Editor::new(Board::default(), mode)
}

#[test]
fn key_names_map_to_keys() {
    assert_eq!(key_named("q"), Key::Quit);
    assert_eq!(key_named("UP"), Key::Up);
    assert_eq!(key_named("k"), Key::Up);
    assert_eq!(key_named("j"), Key::Down);
    assert_eq!(key_named("LEFT"), Key::Left);
    assert_eq!(key_named("l"), Key::Right);
    assert_eq!(key_named("ESC"), Key::Escape);
    assert_eq!(key_named("1"), Key::Add(1));
    assert_eq!(key_named("6"), Key::Add(6));
    assert_eq!(key_named("7"), Key::Other);
    assert_eq!(key_named("DEL"), Key::Delete);
    assert_eq!(key_named("x"), Key::Delete);
    assert_eq!(key_named("="), Key::Bigger);
    assert_eq!(key_named("-"), Key::Smaller);
    assert_eq!(key_named(" "), Key::Space);
    assert_eq!(key_named("N"), Key::Previous);
    assert_eq!(key_named("R"), Key::Reset);
    assert_eq!(key_named("r"), Key::Mend);
    assert_eq!(key_named("RESIZE"), Key::Resize);
    assert_eq!(key_named("qq"), Key::Other);
    assert_eq!(key_named(""), Key::Other);
}

#[test]
fn a_new_editor_starts_near_the_top_left() {
    let ed = empty(3);
    assert_eq!(ed.cur, (2, 2));
    assert_eq!(ed.mode, 3);
    assert!(!ed.pen);
    assert!(ed.carrying.is_none());
    assert!(ed.note.is_none());
}

#[test]
fn number_keys_add_a_part_left_of_the_cursor() {
    let mut ed = empty(0);
    assert_eq!(ed.press(Key::Add(1)), Action::Rebuild);
    let p = ed.board.part(0).unwrap();
    assert_eq!((p.kind, p.x, p.y, p.orient), (Kind::Battery, 1, 2, 0));
    assert_eq!(p.value, "9");
    assert_eq!(ed.board.cell((0, 2)), Some(Cell::Pin(0, 0, 0)));
    // The same place again: no room.
    assert_eq!(ed.press(Key::Add(2)), Action::Stay);
    assert_eq!(ed.note, Some(Note::NoRoomForNumberedPart));
    assert_eq!(ed.board.parts.len(), 1);
    // Any key clears the note.
    assert_eq!(ed.press(Key::Other), Action::Stay);
    assert!(ed.note.is_none());
    // A key past six adds nothing.
    ed.cur = (20, 20);
    assert_eq!(ed.press(Key::Add(7)), Action::Stay);
    assert_eq!(ed.board.parts.len(), 1);
    // Each number key has its kind.
    assert_eq!(ed.press(Key::Add(4)), Action::Rebuild);
    let led = ed.board.part(1).unwrap();
    assert_eq!((led.kind, led.x, led.color), (Kind::Led, 19, LedColor::Red));
}

#[test]
fn picked_parts_are_added_or_refused() {
    let mut ed = empty(0);
    assert_eq!(ed.add(Kind::Counter), Action::Rebuild);
    assert_eq!(ed.board.part(0).unwrap().kind, Kind::Counter);
    assert_eq!(ed.add(Kind::Timer), Action::Stay);
    assert_eq!(ed.note, Some(Note::NoRoomForPickedPart));
}

#[test]
fn the_cursor_moves_and_stops_at_the_grid_edge() {
    let mut ed = empty(0);
    assert_eq!(ed.press(Key::Right), Action::Stay);
    assert_eq!(ed.cur, (3, 2));
    assert_eq!(ed.press(Key::Up), Action::Stay);
    assert_eq!(ed.cur, (3, 1));
    ed.cur = (0, i32::MIN);
    assert_eq!(ed.press(Key::Up), Action::Stay);
    assert_eq!(ed.cur, (0, i32::MIN));
    ed.cur = (i32::MAX, 0);
    assert_eq!(ed.press(Key::Right), Action::Stay);
    assert_eq!(ed.cur, (i32::MAX, 0));
    assert_eq!(ed.press(Key::Left), Action::Stay);
    assert_eq!(ed.cur, (i32::MAX - 1, 0));
}

#[test]
fn drawing_lays_wire_behind_the_cursor() {
    let mut ed = empty(0);
    ed.cur = (10, 10);
    assert_eq!(ed.press(Key::Pen), Action::Stay);
    assert!(ed.pen);
    assert_eq!(ed.press(Key::Right), Action::Rebuild);
    assert_eq!(ed.cur, (11, 10));
    assert_eq!(ed.board.cell((10, 10)), Some(Cell::Wire(E)));
    assert_eq!(ed.board.cell((11, 10)), Some(Cell::Wire(W)));
    // A wire cannot run into a part's body.
    ed.cur = (20, 10);
    assert_eq!(ed.press(Key::Pen), Action::Stay);
    assert!(!ed.pen);
    assert_eq!(ed.press(Key::Add(2)), Action::Rebuild); // body (19..21, 10)
    ed.cur = (20, 9);
    ed.press(Key::Pen);
    assert_eq!(ed.press(Key::Down), Action::Stay);
    assert_eq!(ed.note, Some(Note::WireBlocked));
    assert_eq!(ed.cur, (20, 9));
    // Escape stops drawing.
    assert_eq!(ed.press(Key::Escape), Action::Stay);
    assert!(!ed.pen);
}

#[test]
fn a_carried_part_moves_with_the_cursor() {
    let mut ed = empty(0);
    ed.press(Key::Add(2));
    assert_eq!(ed.press(Key::Carry), Action::Stay);
    assert_eq!(ed.carrying, Some(0));
    assert_eq!(ed.press(Key::Down), Action::Rebuild);
    assert_eq!(ed.cur, (2, 3));
    let p = ed.board.part(0).unwrap();
    assert_eq!((p.x, p.y), (1, 3));
    assert_eq!(ed.board.cell((2, 2)), None);
    assert_eq!(ed.board.part_at((2, 3)), Some(0));
    // Dropping it.
    assert_eq!(ed.press(Key::Carry), Action::Stay);
    assert!(ed.carrying.is_none());
    // Nothing to carry on an empty cell.
    ed.cur = (30, 30);
    ed.press(Key::Carry);
    assert!(ed.carrying.is_none());
    assert_eq!(ed.note, Some(Note::NoPartToCarry));
    // A carried part does not go where another part is.
    let mut ed = empty(0);
    ed.press(Key::Add(2)); // body (1..3, 2)
    ed.cur = (7, 2);
    ed.press(Key::Add(2)); // body (6..8, 2), pins (5, 2) and (9, 2)
    ed.press(Key::Carry);
    assert_eq!(ed.press(Key::Left), Action::Stay);
    assert_eq!(ed.note, Some(Note::NoRoomThere));
    assert_eq!(ed.board.part(1).unwrap().x, 6);
    assert_eq!(ed.cur, (7, 2));
}

#[test]
fn turning_and_chips() {
    let mut ed = empty(0);
    ed.press(Key::Add(1));
    assert_eq!(ed.press(Key::Turn), Action::Rebuild);
    let p = ed.board.part(0).unwrap();
    assert_eq!(p.orient, 1);
    assert_eq!(p.pins(), vec![(4, 2), (0, 2)]);
    ed.cur = (20, 20);
    assert_eq!(ed.add(Kind::Counter), Action::Rebuild);
    assert_eq!(ed.press(Key::Turn), Action::Stay);
    assert_eq!(ed.note, Some(Note::ChipsDoNotTurn));
    ed.cur = (50, 50);
    assert_eq!(ed.press(Key::Turn), Action::Stay);
    assert_eq!(ed.note, Some(Note::NoPartHere));
}

#[test]
fn plus_and_minus_change_a_part() {
    let mut ed = empty(0);
    ed.press(Key::Add(4));
    assert_eq!(ed.press(Key::Bigger), Action::Rebuild);
    assert_eq!(ed.board.part(0).unwrap().color, LedColor::Green);
    assert_eq!(ed.press(Key::Smaller), Action::Rebuild);
    assert_eq!(ed.press(Key::Smaller), Action::Rebuild);
    assert_eq!(ed.board.part(0).unwrap().color, LedColor::Blue);
    ed.cur = (10, 5);
    ed.press(Key::Add(5));
    assert_eq!(ed.press(Key::Bigger), Action::Rebuild);
    assert!(ed.board.part(1).unwrap().closed);
    ed.cur = (20, 5);
    ed.press(Key::Add(2));
    assert_eq!(ed.press(Key::Bigger), Action::StepValue(2, true));
    assert_eq!(ed.press(Key::Smaller), Action::StepValue(2, false));
    assert_eq!(ed.set_value(2, "1000".to_string()), Action::Rebuild);
    assert_eq!(ed.board.part(2).unwrap().value, "1000");
    assert_eq!(ed.set_value(9, "1".to_string()), Action::Stay);
    assert_eq!(ed.note, Some(Note::CannotChange));
    ed.cur = (40, 40);
    assert_eq!(ed.press(Key::Bigger), Action::Stay);
    assert_eq!(ed.note, Some(Note::NoPartHere));
}

#[test]
fn space_flips_switches_and_presses_buttons() {
    let mut ed = empty(0);
    ed.press(Key::Add(5));
    assert_eq!(ed.flip(false), Flip::Switched(0, true));
    assert!(ed.board.part(0).unwrap().closed);
    assert_eq!(ed.flip(true), Flip::Switched(0, false));
    ed.cur = (10, 10);
    ed.add(Kind::Button);
    assert_eq!(ed.flip(false), Flip::Nothing);
    assert_eq!(ed.note, Some(Note::ButtonNeedsPower));
    assert!(!ed.board.part(1).unwrap().closed);
    assert_eq!(ed.flip(true), Flip::Pressed(1));
    assert!(ed.board.part(1).unwrap().closed);
    ed.cur = (30, 30);
    assert_eq!(ed.flip(true), Flip::Nothing);
    assert_eq!(ed.press(Key::Space), Action::Flip);
}

#[test]
fn deleting_and_mending() {
    let mut ed = empty(0);
    ed.press(Key::Add(4));
    ed.board.set_burnt(0);
    assert!(ed.board.part(0).unwrap().burnt);
    assert_eq!(ed.press(Key::Mend), Action::Rebuild);
    assert!(!ed.board.part(0).unwrap().burnt);
    assert_eq!(ed.press(Key::Delete), Action::Rebuild);
    assert!(ed.board.part(0).is_none());
    assert!(ed.board.cells.is_empty());
    assert_eq!(ed.press(Key::Delete), Action::Stay);
    assert_eq!(ed.press(Key::Mend), Action::Stay);
    assert_eq!(ed.note, Some(Note::NoPartHere));
}

#[test]
fn joins_need_four_wires() {
    let mut ed = empty(0);
    ed.cur = (5, 5);
    assert_eq!(ed.press(Key::Join), Action::Stay);
    assert_eq!(ed.note, Some(Note::JoinNeedsFour));
    // Two wires crossing at (5, 5).
    ed.cur = (4, 5);
    ed.press(Key::Pen);
    ed.press(Key::Right);
    ed.press(Key::Right);
    ed.press(Key::Escape);
    ed.cur = (5, 4);
    ed.press(Key::Pen);
    ed.press(Key::Down);
    ed.press(Key::Down);
    ed.press(Key::Escape);
    ed.cur = (5, 5);
    assert_eq!(ed.board.cell((5, 5)), Some(Cell::Wire(15)));
    assert_eq!(ed.press(Key::Join), Action::Rebuild);
    assert_eq!(ed.board.cell((5, 5)), Some(Cell::Wire(15 | circuit::geom::JOIN)));
    assert_eq!(ed.press(Key::Join), Action::Rebuild);
    assert_eq!(ed.board.cell((5, 5)), Some(Cell::Wire(15)));
}

#[test]
fn boards_go_round_the_challenges() {
    let mut ed = empty(0);
    assert_eq!(ed.press(Key::Next), Action::Mode(1));
    assert_eq!(ed.press(Key::Previous), Action::Mode(8));
    let mut last = empty(8);
    assert_eq!(last.press(Key::Next), Action::Mode(0));
    assert_eq!(last.press(Key::Previous), Action::Mode(7));
    assert_eq!(ed.press(Key::Power), Action::Power);
    assert_eq!(ed.press(Key::Pick), Action::Pick);
    assert_eq!(ed.press(Key::Help), Action::Help);
    assert_eq!(ed.press(Key::Resize), Action::Redraw);
    assert_eq!(ed.press(Key::Quit), Action::Quit);
}

#[test]
fn reset_takes_two_presses_in_a_row() {
    let mut ed = empty(0);
    ed.press(Key::Add(1));
    assert_eq!(ed.press(Key::Reset), Action::Stay);
    assert!(ed.reset_armed);
    assert_eq!(ed.note, Some(Note::PressResetAgain));
    // Another key in between disarms it.
    ed.press(Key::Other);
    assert!(!ed.reset_armed);
    assert_eq!(ed.press(Key::Reset), Action::Stay);
    assert_eq!(ed.press(Key::Reset), Action::Rebuild);
    assert!(ed.board.parts.is_empty());
    assert!(ed.board.cells.is_empty());
    // On a challenge the starting parts come back.
    let mut ch = empty(1);
    ch.press(Key::Reset);
    assert_eq!(ch.press(Key::Reset), Action::Rebuild);
    let kinds: Vec<Kind> = ch.board.parts.iter().flatten().map(|p| p.kind).collect();
    assert_eq!(kinds, vec![Kind::Battery, Kind::Resistor, Kind::Led]);
}

#[test]
fn switching_boards_stops_drawing_and_carrying() {
    let mut ed = empty(0);
    ed.press(Key::Pen);
    ed.cur = (7, 8);
    ed.switch_to(Board::default(), 2);
    assert_eq!(ed.mode, 2);
    assert!(!ed.pen);
    assert!(ed.carrying.is_none());
    assert_eq!(ed.cur, (7, 8));
}

#[test]
fn notes_read_as_sentences() {
    assert_eq!(Note::NoRoomThere.text(), "No room there.");
    assert_eq!(Note::PressResetAgain.text(), "Press R again to put this board back to its start.");
}

#[test]
fn plus_on_a_wired_led_keeps_its_wires() {
    let mut ed = empty(0);
    ed.press(Key::Add(4)); // LED body (1..3, 2), pins (0, 2) and (4, 2)
    assert!(ed.board.wire((4, 2), E));
    assert_eq!(ed.board.cell((4, 2)), Some(Cell::Pin(0, 1, E)));
    assert_eq!(ed.press(Key::Bigger), Action::Rebuild);
    assert_eq!(ed.board.part(0).unwrap().color, LedColor::Green);
    assert_eq!(ed.board.cell((4, 2)), Some(Cell::Pin(0, 1, E)));
    assert_eq!(ed.board.cell((5, 2)), Some(Cell::Wire(W)));
    ed.board.set_burnt(0);
    assert_eq!(ed.press(Key::Mend), Action::Rebuild);
    assert_eq!(ed.board.cell((4, 2)), Some(Cell::Pin(0, 1, E)));
    assert_eq!(ed.set_value(0, "2".to_string()), Action::Rebuild);
    assert_eq!(ed.board.cell((4, 2)), Some(Cell::Pin(0, 1, E)));
}

#[test]
fn parts_are_added_right_up_to_the_edge_of_the_grid() {
    let mut ed = empty(0);
    ed.cur = (i32::MIN + 2, 0);
    assert_eq!(ed.press(Key::Add(2)), Action::Rebuild);
    assert_eq!(ed.board.part(0).unwrap().pins()[0], (i32::MIN, 0));
    ed.cur = (i32::MIN + 1, 5);
    assert_eq!(ed.press(Key::Add(2)), Action::Stay);
    assert_eq!(ed.note, Some(Note::NoRoomForNumberedPart));
    // Carrying the first part one step further left has no room on the grid.
    ed.cur = (i32::MIN + 2, 0);
    ed.press(Key::Carry);
    assert_eq!(ed.press(Key::Left), Action::Stay);
    assert_eq!(ed.note, Some(Note::NoRoomThere));
    assert_eq!(ed.press(Key::Right), Action::Rebuild);
    assert_eq!(ed.board.part(0).unwrap().x, i32::MIN + 2);
}
