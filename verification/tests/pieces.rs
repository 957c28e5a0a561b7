use circuit::chars::{chars_of, string_of};
use circuit::chip::{level, Logic, Reading};
use circuit::goals::{count_goal, seen_digit, tens_goal, watch_display};
use circuit::kind::{color_code, color_from, next_color, Gate, Kind, LedColor};
use circuit::labels::{binary_sum, board_path, cap, with_head, wrap};
use circuit::lessons::{lesson, lessons, starter, LESSON_COUNT};
use circuit::numbers::{is_float_word, parse_i32, parse_u8, push_int};
use circuit::part::spread;
use circuit::words::{split_lines, split_words};

fn chars(s: &str) -> Vec<char> {
    s.chars().collect()
}

fn strings(v: Vec<Vec<char>>) -> Vec<String> {
    v.into_iter().map(|w| w.into_iter().collect()).collect()
}

const HIGH: Reading = Reading { above_high: true, above_low: true };
const LOW: Reading = Reading { above_high: false, above_low: false };
const MIDDLE: Reading = Reading { above_high: false, above_low: true };

#[test]
fn text_wraps_on_words() {
    assert_eq!(wrap("one two three four", 9), vec!["one two", "three", "four"]);
    assert_eq!(binary_sum(13), "8 + 4 + 1");
    assert_eq!(binary_sum(0), "0");
}

#[test]
fn wrapping_breaks_words_longer_than_the_width() {
    assert_eq!(wrap("  a  verylongword b ", 4), vec!["a", "very", "long", "word", "b"]);
    assert_eq!(wrap("abcdefg", 3), vec!["abc", "def", "g"]);
    assert_eq!(wrap("xy abcdefg", 5), vec!["xy", "abcde", "fg"]);
    assert_eq!(wrap("ab cd", 0), vec!["ab", "cd"]);
    assert_eq!(wrap("ab cd ef", 2), vec!["ab", "cd", "ef"]);
    assert_eq!(wrap("", 10), Vec::<String>::new());
    assert_eq!(wrap("ab cd", 5), vec!["ab cd"]);
    assert_eq!(binary_sum(15), "8 + 4 + 2 + 1");
    assert_eq!(binary_sum(6), "4 + 2");
    assert_eq!(binary_sum(16), "0");
}

#[test]
fn whole_numbers_read_as_std_reads_them() {
    assert_eq!(parse_i32(&chars("-2147483648")), Some(i32::MIN));
    assert_eq!(parse_i32(&chars("2147483647")), Some(i32::MAX));
    assert_eq!(parse_i32(&chars("2147483648")), None);
    assert_eq!(parse_i32(&chars("+5")), Some(5));
    assert_eq!(parse_i32(&chars("007")), Some(7));
    assert_eq!(parse_i32(&chars("-")), None);
    assert_eq!(parse_i32(&chars("")), None);
    assert_eq!(parse_i32(&chars("1 2")), None);
    assert_eq!(parse_u8(&chars("255")), Some(255));
    assert_eq!(parse_u8(&chars("256")), None);
    assert_eq!(parse_u8(&chars("-0")), None);
    assert_eq!(parse_u8(&chars("+0")), Some(0));
    let mut v = Vec::new();
    push_int(&mut v, -305);
    push_int(&mut v, 0);
    push_int(&mut v, i32::MIN);
    assert_eq!(string_of(&v), "-3050-2147483648");
}

#[test]
fn decimal_numbers_read_as_std_reads_them() {
    for good in ["1", "470", "0.00001", "4.7e-6", ".5", "3.", "+1E3", "-2.5e+10", "inf", "-Infinity", "NaN", "1e0"] {
        assert!(is_float_word(&chars(good)), "{good}");
        assert!(good.parse::<f64>().is_ok(), "{good}");
    }
    for bad in ["", ".", "e5", "1e", "1.2.3", "--1", "+", "infin", "1e+", "0x10", " 1", "1,5"] {
        assert!(!is_float_word(&chars(bad)), "{bad}");
        assert!(bad.parse::<f64>().is_err(), "{bad}");
    }
}

#[test]
fn text_splits_into_lines_and_words() {
    assert_eq!(strings(split_lines(&chars("a b\n\nc\n"))), vec!["a b", "", "c", ""]);
    assert_eq!(strings(split_words(&chars(" a\tb\u{3000}c\r\u{a0}dd "))), vec!["a", "b", "c", "dd"]);
    assert_eq!(strings(split_words(&chars(""))), Vec::<String>::new());
    assert_eq!(string_of(&chars_of("µΩ")), "µΩ");
}

#[test]
fn the_first_letter_goes_up() {
    assert_eq!(cap("hello"), "Hello");
    assert_eq!(cap("ßa"), "SSa");
    assert_eq!(cap("élan"), "Élan");
    assert_eq!(cap(""), "");
    assert_eq!(cap("9 V"), "9 V");
}

#[test]
fn boards_are_kept_one_file_each() {
    assert_eq!(board_path(0), "free.txt");
    assert_eq!(board_path(3), "challenge3.txt");
    assert_eq!(board_path(12), "challenge12.txt");
}

#[test]
fn gates_follow_their_rules() {
    let table = [
        (Gate::Not, [true, true, false, false]),
        (Gate::And, [false, false, false, true]),
        (Gate::Or, [false, true, true, true]),
        (Gate::Nand, [true, true, true, false]),
        (Gate::Nor, [true, false, false, false]),
        (Gate::Xor, [false, true, true, false]),
    ];
    for (g, want) in table {
        for (i, (a, b)) in [(false, false), (false, true), (true, false), (true, true)].into_iter().enumerate() {
            assert_eq!(g.eval(a, b), want[i], "{g:?} {a} {b}");
        }
    }
    assert_eq!(Kind::Nor.gate(), Some(Gate::Nor));
    assert_eq!(Kind::Clock.gate(), None);
    assert!(Kind::Display.is_chip());
    assert!(!Kind::And.is_chip());
}

#[test]
fn inputs_read_with_a_dead_band() {
    assert!(level(true, MIDDLE));
    assert!(!level(false, MIDDLE));
    assert!(level(false, HIGH));
    assert!(!level(true, LOW));
    let mut g = Logic::off();
    g.gate_step(Gate::And, HIGH, MIDDLE);
    assert!(g.on);
    assert_eq!(g.ins[..2], [true, false]);
    assert!(!g.out[0]);
    g.gate_step(Gate::And, MIDDLE, HIGH);
    assert!(g.out[0], "a stays high in the dead band");
}

#[test]
fn a_counter_counts_rising_edges_and_resets() {
    let mut c = Logic::off();
    for n in 1..=17u8 {
        c.counter_step(HIGH, LOW);
        assert_eq!(c.value, n % 16);
        c.counter_step(HIGH, LOW);
        assert_eq!(c.value, n % 16, "no edge while the clock stays high");
        c.counter_step(LOW, LOW);
    }
    assert_eq!(c.value, 1);
    c.counter_step(HIGH, LOW);
    c.counter_step(LOW, LOW);
    c.counter_step(HIGH, LOW);
    assert_eq!(c.value, 3);
    assert_eq!(c.out, [true, true, false, false]);
    c.counter_step(LOW, HIGH);
    assert_eq!(c.value, 0);
    c.counter_step(HIGH, HIGH);
    assert_eq!(c.value, 0, "reset wins over the clock");
    assert_eq!(c.out, [false; 4]);
}

#[test]
fn a_full_byte_count_holds_without_a_rising_edge() {
    let mut c = Logic::off();
    c.value = 255;
    c.counter_step(LOW, LOW);
    assert_eq!(c.value, 255);
    assert_eq!(c.out, [true; 4]);
    c.ins[0] = true;
    c.counter_step(HIGH, LOW);
    assert_eq!(c.value, 255, "the clock stayed high");
    c.counter_step(HIGH, HIGH);
    assert_eq!(c.value, 0);
}

#[test]
fn a_display_shows_what_its_inputs_add_up_to() {
    let mut d = Logic::off();
    d.display_step([HIGH, LOW, HIGH, HIGH]);
    assert_eq!(d.value, 13);
    d.display_step([MIDDLE, MIDDLE, LOW, MIDDLE]);
    assert_eq!(d.value, 9);
    assert_eq!(d.out, [false; 4]);
}

#[test]
fn a_timer_goes_high_on_its_trigger_and_low_on_its_threshold() {
    let mut t = Logic::off();
    t.timer_step(true, true);
    assert!(t.out[0], "the trigger wins");
    t.timer_step(false, false);
    assert!(t.out[0]);
    t.timer_step(false, true);
    assert!(!t.out[0]);
    let mut k = Logic::off();
    k.clock_step(true);
    assert!(k.out[0] && k.on);
}

#[test]
fn colours_cycle_and_read_back() {
    assert_eq!(next_color(LedColor::Red, true), LedColor::Green);
    assert_eq!(next_color(LedColor::Red, false), LedColor::Blue);
    assert_eq!(next_color(LedColor::Blue, true), LedColor::Red);
    for c in [LedColor::Red, LedColor::Green, LedColor::Yellow, LedColor::Blue] {
        assert_eq!(color_from(color_code(c)), c);
        assert_eq!(next_color(next_color(c, true), false), c);
    }
    assert_eq!(color_from("purple"), LedColor::Red);
    for k in Kind::all() {
        assert_eq!(Kind::from_code(k.code()), Some(k));
    }
    assert_eq!(Kind::all().len(), 17);
    assert_eq!(Kind::from_code("LED"), None);
    assert_eq!(Kind::Timer.name(), "555 timer");
    assert_eq!(Kind::Switch.blurb(), "Space flips it");
}

#[test]
fn every_challenge_has_a_title_and_its_parts_fit() {
    assert_eq!(lessons().len(), LESSON_COUNT);
    assert_eq!(lesson(0).title, "Light an LED");
    assert_eq!(lesson(7).goal, "one display counts tenths from 0 to 9 and the other reaches 3 seconds.");
    let counts = [0, 3, 6, 11, 8, 11, 4, 7, 7, 0];
    for (n, want) in counts.into_iter().enumerate() {
        let b = starter(n);
        assert_eq!(b.parts.len(), want, "challenge {n}");
        assert_eq!(b.parts.iter().flatten().count(), want, "challenge {n}");
    }
    let b = starter(2);
    let r = b.part(2).unwrap();
    assert_eq!((r.kind, r.value.as_str()), (Kind::Resistor, "10000"));
    let back = circuit::board::Board::from_text(&b.to_text());
    assert_eq!(back.to_text(), b.to_text());
}

#[test]
fn each_part_is_off_its_value_by_a_steady_amount() {
    assert_eq!(spread(0), 1708);
    assert_eq!(spread(1), 584);
    assert_eq!(spread(2), 292);
    assert_eq!(spread(7), 336);
    assert_eq!(spread(1000), 1660);
    for i in 0..5000 {
        assert!(spread(i) <= 2000);
        assert_eq!(spread(i), spread(i));
    }
}

#[test]
fn a_new_first_letter_replaces_the_old_one() {
    assert_eq!(with_head("SS", "ßa"), "SSa");
    assert_eq!(with_head("", "x"), "");
    assert_eq!(with_head("Ab", "abc"), "Abbc");
}

#[test]
fn counting_goal_needs_fifteen_with_four_lit_then_zero() {
    assert_eq!(count_goal(false, 15, 3), (false, false));
    assert_eq!(count_goal(false, 15, 4), (true, false));
    assert_eq!(count_goal(true, 7, 0), (true, false));
    assert_eq!(count_goal(true, 0, 0), (true, true));
    assert_eq!(count_goal(false, 0, 9), (false, false));
}

#[test]
fn displays_are_watched_digit_by_digit() {
    let mut seen = 0;
    for v in 0..16u8 {
        seen = seen_digit(seen, v);
    }
    assert_eq!(seen, 0xFFFF);
    assert_eq!(seen_digit(0b1, 3), 0b1001);
    assert_eq!(watch_display(20, false, 10), (21, true));
    assert_eq!(watch_display(19, false, 12), (20, false));
    assert_eq!(watch_display(40, true, 9), (0, true));
    assert!(tens_goal(&vec![0x3FF, 0], &vec![false, false], &vec![4, 3]));
    assert!(!tens_goal(&vec![0x3FF, 0], &vec![true, false], &vec![4, 3]));
    assert!(!tens_goal(&vec![0x1FF, 0x3FF], &vec![false, false], &vec![2, 9]));
    assert!(!tens_goal(&vec![0x3FF], &vec![false], &vec![5]));
}
