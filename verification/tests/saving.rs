use circuit::board::{Board, Cell};
use circuit::geom::{E, S};
use circuit::kind::{Kind, LedColor};
use circuit::part::Part;

fn sample() -> Board {
    let mut b = Board::default();
    let mut bat = Part::new(Kind::Battery, 0, 2);
    bat.orient = 2;
    b.place(bat).unwrap();
    let mut led = Part::new(Kind::Led, 20, 1);
    led.color = LedColor::Blue;
    led.burnt = true;
    b.place(led).unwrap();
    let r = b.place(Part::new(Kind::Resistor, 6, 1)).unwrap();
    let mut sw = Part::new(Kind::Switch, 12, 6);
    sw.closed = true;
    sw.value = String::from("4.7e-6");
    b.place(sw).unwrap();
    let mut at = (1, 1);
    for _ in 0..4 {
        assert!(b.wire(at, E));
        at.0 += 1;
    }
    assert!(b.wire((9, 1), E));
    assert!(b.wire((10, 1), S));
    b.delete((21, 1));
    assert!(b.part(1).is_none());
    assert_eq!(b.part(r).unwrap().kind, Kind::Resistor);
    b
}

#[test]
fn a_board_is_saved_line_by_line_in_reading_order() {
    let b = sample();
    assert_eq!(
        b.to_text(),
        "part battery 0 2 2 9 red 0 0\n\
         part resistor 6 1 0 470 red 0 0\n\
         part switch 12 6 0 4.7e-6 red 1 0\n\
         pin 1 1 2\n\
         wire 2 1 10\n\
         wire 3 1 10\n\
         wire 4 1 10\n\
         pin 5 1 8\n\
         pin 9 1 2\n\
         wire 10 1 12\n\
         wire 10 2 1\n"
    );
}

#[test]
fn a_saved_board_loads_back_with_its_gaps_closed() {
    let b = sample();
    let back = Board::from_text(&b.to_text());
    assert_eq!(back.parts.len(), 3);
    let kinds: Vec<Kind> = back.parts.iter().flatten().map(|p| p.kind).collect();
    assert_eq!(kinds, vec![Kind::Battery, Kind::Resistor, Kind::Switch]);
    let sw = back.part(2).unwrap();
    assert!(sw.closed);
    assert_eq!(sw.value, "4.7e-6");
    assert_eq!((sw.x, sw.y, sw.orient), (12, 6, 0));
    assert_eq!(back.cells.len(), b.cells.len());
    for (key, c) in b.cells.iter() {
        let want = match *c {
            Cell::Body(i) => Cell::Body(if i == 0 { 0 } else { i - 1 }),
            Cell::Pin(i, k, m) => Cell::Pin(if i == 0 { 0 } else { i - 1 }, k, m),
            w => w,
        };
        assert_eq!(back.cells.get(key), Some(&want), "cell {key:?}");
    }
    assert_eq!(back.to_text(), b.to_text());
}

#[test]
fn lines_that_do_not_read_are_passed_over() {
    let text = "part resistor 6 1 0 470 red 0 0\n\
                part gizmo 1 1 0 1 red 0 0\n\
                part led 20 1 9999 1 red 0 0\n\
                part led 20 1 1 abc red 0 0\n\
                part led 20 1 1\n\
                part capacitor 0 8 1 .5e+3 green 1 1 extra words\n\
                wire 7 1 3\n\
                wire 30 30 300\n\
                wire 30 x 3\n\
                wire 31 30 5 6\n\
                wire 40 40 2\n\
                wire 40 40 9\n\
                pin 5 1 8\n\
                pin 41 40 8\n\
                flag 50 50 1\n\
                \n";
    let b = Board::from_text(text);
    assert_eq!(b.parts.len(), 2);
    let c = b.part(1).unwrap();
    assert_eq!(c.kind, Kind::Capacitor);
    assert_eq!(c.value, ".5e+3");
    assert_eq!(c.color, LedColor::Green);
    assert!(c.closed && c.burnt);
    assert_eq!(b.part_at((7, 1)), Some(0), "a wire does not go on a body");
    assert_eq!(b.cell((40, 40)), Some(Cell::Wire(2)), "the first wire line wins");
    assert_eq!(b.cell((30, 30)), None);
    assert_eq!(b.cell((31, 30)), None);
    assert_eq!(b.cell((5, 1)), Some(Cell::Pin(0, 0, 8)));
    assert_eq!(b.cell((41, 40)), None);
    assert_eq!(b.cell((50, 50)), None);
}

#[test]
fn parts_come_first_whatever_their_place_in_the_text() {
    let text = "wire 5 1 4\npin 5 1 8\npart resistor 6 1 0 470 red 0 0\n";
    let b = Board::from_text(text);
    assert_eq!(b.cell((5, 1)), Some(Cell::Pin(0, 0, 8)));
    let later = Board::from_text("part resistor 6 1 0 470 red 0 0\r\npart resistor 6 1 2 470 red 0 0\r\n");
    assert_eq!(later.parts.len(), 1, "the second resistor's cells are taken");
}

#[test]
fn an_empty_text_is_an_empty_board() {
    let b = Board::from_text("");
    assert!(b.parts.is_empty());
    assert!(b.cells.is_empty());
    assert_eq!(Board::default().to_text(), "");
}
