use circuit::board::{Board, Cell};
use circuit::geom::{crossing, offset, opposite, E, JOIN, N, S, W};
use circuit::kind::Kind;
use circuit::part::Part;

#[test]
fn chips_have_inputs_left_and_outputs_right() {
    let c = Part::new(Kind::Counter, 10, 10);
    assert_eq!(c.pins(), vec![(9, 10), (9, 11), (15, 10), (15, 11), (15, 12), (15, 13)]);
    assert_eq!(c.inward((9, 11)), E);
    assert_eq!(c.inward((15, 13)), W);
    assert_eq!(c.body().len(), 20);
    let g = Part::new(Kind::Nand, 10, 10);
    assert_eq!(g.pins(), vec![(11, 9), (11, 11), (14, 10)]);
    assert_eq!(g.inward((11, 11)), N);
    let mut b = Board::default();
    b.place(Part::new(Kind::Display, 0, 0)).unwrap();
    assert!(b.place(Part::new(Kind::Resistor, 2, 3)).is_none(), "the display's body is taken");
    let back = Board::from_text(&b.to_text());
    assert_eq!(back.parts.iter().flatten().next().map(|p| p.kind), Some(Kind::Display));
}

#[test]
fn wires_join_pins_into_nodes_and_survive_a_save() {
    let mut b = Board::default();
    let mut bat = Part::new(Kind::Battery, 0, 2);
    bat.orient = 2; // + at (1,1), − at (1,3)
    b.place(bat).unwrap();
    let r = b.place(Part::new(Kind::Resistor, 6, 1)).unwrap(); // pins (5,1), (9,1)
    // + to the resistor's left pin: (1,1) → (2,1) … (5,1).
    let mut at = (1, 1);
    for _ in 0..4 {
        assert!(b.wire(at, E));
        at.0 += 1;
    }
    let net = b.net();
    let res = &b.part(r).unwrap().pins();
    assert_eq!(net.node_of[&(1, 1)], net.node_of[&res[0]]);
    assert_ne!(net.node_of[&res[0]], net.node_of[&res[1]]);
    // A wire cannot enter a pin from the side that faces the body.
    assert!(!b.wire((9, 1), W));
    let back = Board::from_text(&b.to_text());
    let net2 = back.net();
    assert_eq!(net2.node_of[&(1, 1)], net2.node_of[&(5, 1)]);
    assert_eq!(back.parts.iter().flatten().count(), 2);
}

#[test]
fn sides_step_and_turn_back() {
    assert_eq!(offset(N), (0, -1));
    assert_eq!(offset(E), (1, 0));
    assert_eq!(offset(S), (0, 1));
    assert_eq!(offset(W), (-1, 0));
    assert_eq!(opposite(N), S);
    assert_eq!(opposite(E), W);
    assert_eq!(opposite(S), N);
    assert_eq!(opposite(W), E);
    assert!(crossing(15));
    assert!(!crossing(15 | JOIN));
    assert!(!crossing(7));
}

#[test]
fn parts_turn_a_quarter_and_chips_do_not() {
    let mut r = Part::new(Kind::Resistor, 5, 5);
    assert_eq!(r.pins(), vec![(4, 5), (8, 5)]);
    for want in [1u8, 2, 3, 0] {
        assert!(r.turn());
        assert_eq!(r.orient, want);
    }
    let mut g = Part::new(Kind::And, 5, 5);
    assert!(g.turn());
    assert_eq!(g.orient, 1);
    assert!(g.turn());
    assert_eq!(g.orient, 0);
    let mut c = Part::new(Kind::Timer, 5, 5);
    assert!(!c.turn());
    assert_eq!(c.orient, 0);
    let mut q = Part::new(Kind::Npn, 5, 5);
    assert_eq!(q.pins(), vec![(6, 4), (4, 5), (6, 6)]);
    q.orient = 3;
    assert_eq!(q.pins(), vec![(6, 6), (8, 5), (6, 4)]);
}

#[test]
fn deleting_a_wire_unhooks_its_neighbours() {
    let mut b = Board::default();
    assert!(b.wire((0, 0), E));
    assert!(b.wire((1, 0), E));
    assert_eq!(b.cell((1, 0)), Some(Cell::Wire(W | E)));
    assert!(b.delete((2, 0)));
    assert_eq!(b.cell((1, 0)), Some(Cell::Wire(W)));
    assert_eq!(b.cell((2, 0)), None);
    assert!(!b.delete((2, 0)));
}

#[test]
fn deleting_a_part_cuts_the_wires_at_its_pins() {
    let mut b = Board::default();
    let r = b.place(Part::new(Kind::Resistor, 6, 1)).unwrap(); // pins (5,1), (9,1)
    assert!(b.wire((4, 1), E));
    assert_eq!(b.cell((5, 1)), Some(Cell::Pin(r, 0, W)));
    assert_eq!(b.part_at((7, 1)), Some(r));
    assert!(b.delete((7, 1)));
    assert!(b.part(r).is_none());
    assert_eq!(b.cell((4, 1)), Some(Cell::Wire(0)));
    assert_eq!(b.cell((5, 1)), None);
    assert_eq!(b.part_at((7, 1)), None);
}

#[test]
fn a_part_moves_only_where_it_fits() {
    let mut b = Board::default();
    let r = b.place(Part::new(Kind::Resistor, 6, 1)).unwrap();
    b.place(Part::new(Kind::Led, 6, 5)).unwrap();
    let mut moved = b.part(r).unwrap().duplicate();
    moved.y = 2;
    assert!(b.change(r, moved));
    assert_eq!(b.part(r).unwrap().y, 2);
    assert_eq!(b.part_at((7, 1)), None);
    assert_eq!(b.part_at((7, 2)), Some(r));
    let mut onto = b.part(r).unwrap().duplicate();
    onto.y = 5;
    assert!(!b.change(r, onto), "the LED is in the way");
    assert_eq!(b.part(r).unwrap().y, 2);
}

#[test]
fn a_crossing_joins_only_when_marked() {
    let mut b = Board::default();
    assert!(b.wire((0, 1), E));
    assert!(b.wire((1, 1), E));
    assert!(b.wire((1, 0), S));
    assert!(b.wire((1, 1), S));
    let net = b.net();
    assert_ne!(net.node_of[&(0, 1)], net.node_of[&(1, 0)]);
    assert_eq!(net.across[&(1, 1)], net.node_of[&(0, 1)]);
    assert_eq!(net.node_of[&(1, 1)], net.node_of[&(1, 2)]);
    assert!(b.toggle_join((1, 1)));
    let joined = b.net();
    assert_eq!(joined.node_of[&(0, 1)], joined.node_of[&(1, 0)]);
    assert!(!b.toggle_join((0, 1)), "not a four-way wire");
    assert!(b.toggle_join((1, 1)));
    assert_eq!(b.cell((1, 1)), Some(Cell::Wire(15)));
}

#[test]
fn the_first_battery_sets_ground_and_devices_follow_the_parts() {
    let mut b = Board::default();
    let r = b.place(Part::new(Kind::Resistor, 6, 1)).unwrap();
    let mut bat = Part::new(Kind::Battery, 0, 2);
    bat.orient = 2;
    let first = b.place(bat).unwrap();
    let mut bat2 = Part::new(Kind::Battery, 20, 2);
    bat2.orient = 2;
    b.place(bat2).unwrap();
    b.delete((7, 1));
    let net = b.net();
    assert_eq!(net.battery, Some(first));
    assert_eq!(net.dev_part, vec![1, 2]);
    assert_eq!(net.part_dev, vec![None, Some(0), Some(1)]);
    assert_eq!(net.ground, net.node_of[&(1, 3)]);
    assert_eq!(net.dev_pins[0], vec![net.node_of[&(1, 1)], net.node_of[&(1, 3)]]);
    assert_eq!(net.nodes, 4);
    assert!(b.part(r).is_none());
    let empty = Board::default().net();
    assert_eq!(empty.nodes, 1);
    assert_eq!(empty.battery, None);
    assert_eq!(empty.ground, 0);
}

#[test]
fn placing_and_deleting_a_part_leaves_the_cells_as_they_were() {
    let mut b = Board::default();
    assert!(b.wire((0, 0), E));
    assert!(b.wire((1, 0), S));
    b.place(Part::new(Kind::Led, 10, 10)).unwrap();
    let before = b.cells.clone();
    let i = b.place(Part::new(Kind::Counter, 3, 3)).unwrap();
    assert_eq!(b.cells.len(), before.len() + 26);
    assert!(b.delete((4, 4)));
    assert!(b.part(i).is_none());
    assert_eq!(b.cells, before);
}

#[test]
fn parts_and_wires_are_kept_off_the_edge_of_the_grid() {
    assert!(Part::new(Kind::Resistor, 0, 0).fits_grid());
    // The right pin may sit on the last column, not past it.
    assert!(Part::new(Kind::Resistor, i32::MAX - 3, 0).fits_grid());
    assert!(!Part::new(Kind::Resistor, i32::MAX - 2, 0).fits_grid());
    // A pin may sit on the first column or row.
    assert!(Part::new(Kind::Counter, i32::MIN + 1, i32::MIN + 1).fits_grid());
    assert!(!Part::new(Kind::Counter, 0, i32::MIN).fits_grid());
    assert!(!Part::new(Kind::Resistor, i32::MIN, 0).fits_grid());
    // A counter's bottom row may be the last row.
    assert!(Part::new(Kind::Counter, 0, i32::MAX - 3).fits_grid());
    assert!(!Part::new(Kind::Counter, 0, i32::MAX - 2).fits_grid());
    // Pins above and below the body must fit too, whatever the kind.
    assert!(!Part::new(Kind::Resistor, 0, i32::MAX).fits_grid());
    assert!(circuit::save::text_fits_grid("part led 0 0 0 0 red 0 0\nwire 2147483647 0 2\n"));
    assert!(!circuit::save::text_fits_grid("part led 2147483646 0 0 0 red 0 0\n"));
    let ok = Board::from_text("wire 2147483647 0 8\n");
    assert!(ok.steps_fit_grid());
    let off = Board::from_text("wire 2147483647 0 2\n");
    assert!(!off.steps_fit_grid());
}

#[test]
fn editing_a_part_keeps_its_wires_and_moving_it_cuts_them() {
    let mut b = Board::default();
    let r = b.place(Part::new(Kind::Resistor, 6, 1)).unwrap(); // pins (5,1), (9,1)
    assert!(b.wire((4, 1), E));
    assert_eq!(b.cell((5, 1)), Some(Cell::Pin(r, 0, W)));
    let mut q = b.part(r).unwrap().clone();
    q.value = "1000".to_string();
    assert!(b.change(r, q));
    assert_eq!(b.part(r).unwrap().value, "1000");
    assert_eq!(b.cell((5, 1)), Some(Cell::Pin(r, 0, W)));
    assert_eq!(b.cell((4, 1)), Some(Cell::Wire(E)));
    let net = b.net();
    assert_eq!(net.node_of[&(4, 1)], net.node_of[&(5, 1)]);
    // Moved down a row: its pins moved, so the wire comes loose.
    let mut q = b.part(r).unwrap().clone();
    q.y = 2;
    assert!(b.change(r, q));
    assert_eq!(b.cell((5, 1)), None);
    assert_eq!(b.cell((4, 1)), Some(Cell::Wire(0)));
    assert_eq!(b.cell((5, 2)), Some(Cell::Pin(r, 0, 0)));
}

#[test]
fn turning_a_transistor_keeps_the_wires_on_pins_that_stay() {
    let mut b = Board::default();
    let t = b.place(Part::new(Kind::Npn, 10, 10)).unwrap(); // c (11,9), b (9,10), e (11,11)
    assert!(b.wire((11, 8), S));
    assert!(b.wire((8, 10), E));
    assert_eq!(b.cell((11, 9)), Some(Cell::Pin(t, 0, N)));
    assert_eq!(b.cell((9, 10)), Some(Cell::Pin(t, 1, W)));
    let mut q = b.part(t).unwrap().clone();
    assert!(q.turn());
    assert!(b.change(t, q));
    // The collector stays and keeps its wire; the base moved to the right.
    assert_eq!(b.cell((11, 9)), Some(Cell::Pin(t, 0, N)));
    assert_eq!(b.cell((11, 8)), Some(Cell::Wire(S)));
    assert_eq!(b.cell((9, 10)), None);
    assert_eq!(b.cell((8, 10)), Some(Cell::Wire(0)));
    assert_eq!(b.cell((13, 10)), Some(Cell::Pin(t, 1, 0)));
}

#[test]
fn parts_sit_right_at_the_edge_of_the_grid() {
    let mut b = Board::default();
    let r = b.place(Part::new(Kind::Resistor, i32::MIN + 1, 0)).unwrap();
    assert_eq!(b.part(r).unwrap().pins(), vec![(i32::MIN, 0), (i32::MIN + 4, 0)]);
    assert_eq!(b.cell((i32::MIN, 0)), Some(Cell::Pin(r, 0, 0)));
    assert!(b.wire((i32::MIN, 0), S));
    let c = b.place(Part::new(Kind::Counter, 0, i32::MAX - 3)).unwrap();
    let p = b.part(c).unwrap().clone();
    assert_eq!(p.pins()[5], (5, i32::MAX));
    assert_eq!(p.inward((5, i32::MAX)), W);
    assert_eq!(p.inward((-1, i32::MAX - 3)), E);
    // Moving the resistor off the edge cuts the wire at its first pin.
    let mut q = b.part(r).unwrap().clone();
    q.x = i32::MIN + 2;
    assert!(b.change(r, q));
    assert_eq!(b.cell((i32::MIN, 1)), Some(Cell::Wire(0)));
    assert_eq!(b.cell((i32::MIN, 0)), None);
    // A part on the edge is deleted like any other.
    assert!(b.delete((2, i32::MAX - 1)));
    assert!(b.part(c).is_none());
    assert_eq!(b.cell((5, i32::MAX)), None);
}
