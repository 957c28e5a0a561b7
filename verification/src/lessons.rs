//! The challenges: what each one teaches, the parts it starts with.

use vstd::prelude::*;
use crate::board::Board;
use crate::kind::{Kind, LedColor, kind_default_value};
use crate::part::{Part, on_grid, lemma_default_values_read};
use crate::numbers::{is_float, lemma_digits_read};
use crate::save::{PartText, part_text, placed_in_turn, lemma_room_is_free};

verus! {

/// A challenge: its title, what it teaches, and what the circuit must do.
pub struct Lesson {
    pub title: &'static str,
    pub text: &'static str,
    pub goal: &'static str,
}

/// How many challenges there are.
pub const LESSON_COUNT: usize = 8;
/// The title of challenge `n`, counting from 0.
pub open spec fn lesson_title(n: int) -> Seq<char> {
    if n == 0 {
        "Light an LED"@
    } else if n == 1 {
        "A transistor as a switch"@
    } else if n == 2 {
        "Make it blink"@
    } else if n == 3 {
        "Logic gates"@
    } else if n == 4 {
        "Count in binary"@
    } else if n == 5 {
        "Numbers on a display"@
    } else if n == 6 {
        "The 555 timer"@
    } else {
        "A stopwatch"@
    }
}

/// What challenge `n` teaches, counting from 0.
pub open spec fn lesson_text(n: int) -> Seq<char> {
    if n == 0 {
        "An LED lights when current flows from its arrow side (the anode) to its bar side (the cathode). \
It wants about 2 volts and 5 to 20 milliamps. A 9 volt battery pushes far more, so a resistor in the same loop \
holds the current down: (9 − 2) V ÷ 0.015 A is about 470 Ω. \
Wire + to the resistor, the resistor to the arrow side, and the bar side back to −. Press p to power on. \
Then try it without the resistor."@
    } else if n == 1 {
        "A transistor lets a small current steer a big one. A little current into the base (b) opens the path \
from the collector (c) to the emitter (e). \
Put the LED and the 470 Ω resistor between + and the collector, and the emitter on −. \
Then feed the base from + through the switch and the 10 kΩ resistor. Power on and press Space on the switch."@
    } else if n == 2 {
        "Two transistors can take turns. Each collector reaches the other transistor's base through a capacitor. \
When one turns on, its capacitor holds the other one off until the capacitor charges back up through a 47 kΩ \
resistor. Then they swap. That takes about 0.7 × 47 kΩ × 10 µF, a third of a second. \
For each side: LED and 470 Ω from + to a collector, 47 kΩ from + to a base, emitter to −. \
Then a capacitor from each collector to the other transistor's base."@
    } else if n == 3 {
        "A logic chip reads each input as high, near +, or low, near −. An AND gate's output q is high only \
when a and b are both high. Chips take their power from the battery. \
Wire each switch from + to one input, with a 10 kΩ resistor from that input to − so it reads low while the switch \
is open. Then q through 470 Ω and the LED to −. Power on and try all four switch settings."@
    } else if n == 4 {
        "A counter adds one each time its > input goes from low to high, and a high r puts it back to 0. \
Its outputs 1, 2, 4 and 8 show the count in binary: 13 is 8 + 4 + 1. \
Wire the clock's q to >, r to −, and each output through 470 Ω to an LED and on to −."@
    } else if n == 5 {
        "Four wires carry any number from 0 to 15. A display chip turns them back into one digit, carrying \
on past 9 with A, b, C, d, E and F. \
Wire the clock to the counter's >, r to −, and the counter's 1, 2, 4 and 8 to the display's 1, 2, 4 and 8."@
    } else if n == 6 {
        "The 555 may be the most-made chip of all. Here a capacitor charges through 10 kΩ and 68 kΩ until h \
sees two thirds of the battery. Then d empties it through the 68 kΩ until t sees one third, and it starts over. \
A round takes about 0.7 × (10 kΩ + 2 × 68 kΩ) × 10 µF, one second. \
Wire + to 10 kΩ to d, d to 68 kΩ to h, h to t, and t to the capacitor and on to −. \
Then o through 470 Ω and the LED to −."@
    } else {
        "A counter runs from 0 to 15, but a stopwatch digit has to go from 9 back to 0. At 10, outputs 2 and \
8 are high together for the first time. An AND gate on those two outputs can reset the counter the moment it \
gets there, so it only ever shows 0 to 9. That same pulse is the carry into the next digit. \
The clock at 10 Hz drives the first counter, and its display shows tenths. The AND gate feeds the first \
counter's r and the second counter's >, and the second display shows seconds."@
    }
}

/// What the circuit of challenge `n` must do, counting from 0.
pub open spec fn lesson_goal(n: int) -> Seq<char> {
    if n == 0 {
        "the LED glows with 5 to 25 mA."@
    } else if n == 1 {
        "the switch turns the LED on through the transistor, carrying under a tenth of the LED's current, and off again."@
    } else if n == 2 {
        "an LED blinks on and off three times, each half a tenth of a second to 3 seconds."@
    } else if n == 3 {
        "the LED follows the AND gate for all four switch settings."@
    } else if n == 4 {
        "the LEDs count all the way to 15, all four lit, and start over."@
    } else if n == 5 {
        "the display shows all sixteen digits, 0 to F."@
    } else if n == 6 {
        "the 555 blinks the LED, each half a tenth of a second to 3 seconds."@
    } else {
        "one display counts tenths from 0 to 9 and the other reaches 3 seconds."@
    }
}

/// Challenge `n`, counting from 0.
pub fn lesson(n: usize) -> (r: Lesson)
    requires
        n < LESSON_COUNT,
    ensures
        r.title@ == lesson_title(n as int),
        r.text@ == lesson_text(n as int),
        r.goal@ == lesson_goal(n as int),
{
    if n == 0 {
        Lesson {
            title: "Light an LED",
            text: "An LED lights when current flows from its arrow side (the anode) to its bar side (the cathode). \
It wants about 2 volts and 5 to 20 milliamps. A 9 volt battery pushes far more, so a resistor in the same loop \
holds the current down: (9 − 2) V ÷ 0.015 A is about 470 Ω. \
Wire + to the resistor, the resistor to the arrow side, and the bar side back to −. Press p to power on. \
Then try it without the resistor.",
            goal: "the LED glows with 5 to 25 mA.",
        }
    } else if n == 1 {
        Lesson {
            title: "A transistor as a switch",
            text: "A transistor lets a small current steer a big one. A little current into the base (b) opens the path \
from the collector (c) to the emitter (e). \
Put the LED and the 470 Ω resistor between + and the collector, and the emitter on −. \
Then feed the base from + through the switch and the 10 kΩ resistor. Power on and press Space on the switch.",
            goal: "the switch turns the LED on through the transistor, carrying under a tenth of the LED's current, and off again.",
        }
    } else if n == 2 {
        Lesson {
            title: "Make it blink",
            text: "Two transistors can take turns. Each collector reaches the other transistor's base through a capacitor. \
When one turns on, its capacitor holds the other one off until the capacitor charges back up through a 47 kΩ \
resistor. Then they swap. That takes about 0.7 × 47 kΩ × 10 µF, a third of a second. \
For each side: LED and 470 Ω from + to a collector, 47 kΩ from + to a base, emitter to −. \
Then a capacitor from each collector to the other transistor's base.",
            goal: "an LED blinks on and off three times, each half a tenth of a second to 3 seconds.",
        }
    } else if n == 3 {
        Lesson {
            title: "Logic gates",
            text: "A logic chip reads each input as high, near +, or low, near −. An AND gate's output q is high only \
when a and b are both high. Chips take their power from the battery. \
Wire each switch from + to one input, with a 10 kΩ resistor from that input to − so it reads low while the switch \
is open. Then q through 470 Ω and the LED to −. Power on and try all four switch settings.",
            goal: "the LED follows the AND gate for all four switch settings.",
        }
    } else if n == 4 {
        Lesson {
            title: "Count in binary",
            text: "A counter adds one each time its > input goes from low to high, and a high r puts it back to 0. \
Its outputs 1, 2, 4 and 8 show the count in binary: 13 is 8 + 4 + 1. \
Wire the clock's q to >, r to −, and each output through 470 Ω to an LED and on to −.",
            goal: "the LEDs count all the way to 15, all four lit, and start over.",
        }
    } else if n == 5 {
        Lesson {
            title: "Numbers on a display",
            text: "Four wires carry any number from 0 to 15. A display chip turns them back into one digit, carrying \
on past 9 with A, b, C, d, E and F. \
Wire the clock to the counter's >, r to −, and the counter's 1, 2, 4 and 8 to the display's 1, 2, 4 and 8.",
            goal: "the display shows all sixteen digits, 0 to F.",
        }
    } else if n == 6 {
        Lesson {
            title: "The 555 timer",
            text: "The 555 may be the most-made chip of all. Here a capacitor charges through 10 kΩ and 68 kΩ until h \
sees two thirds of the battery. Then d empties it through the 68 kΩ until t sees one third, and it starts over. \
A round takes about 0.7 × (10 kΩ + 2 × 68 kΩ) × 10 µF, one second. \
Wire + to 10 kΩ to d, d to 68 kΩ to h, h to t, and t to the capacitor and on to −. \
Then o through 470 Ω and the LED to −.",
            goal: "the 555 blinks the LED, each half a tenth of a second to 3 seconds.",
        }
    } else {
        Lesson {
            title: "A stopwatch",
            text: "A counter runs from 0 to 15, but a stopwatch digit has to go from 9 back to 0. At 10, outputs 2 and \
8 are high together for the first time. An AND gate on those two outputs can reset the counter the moment it \
gets there, so it only ever shows 0 to 9. That same pulse is the carry into the next digit. \
The clock at 10 Hz drives the first counter, and its display shows tenths. The AND gate feeds the first \
counter's r and the second counter's >, and the second display shows seconds.",
            goal: "one display counts tenths from 0 to 9 and the other reaches 3 seconds.",
        }
    }
}

/// Every challenge, in order.
pub fn lessons() -> (r: Vec<Lesson>)
    ensures
        r@.len() == LESSON_COUNT,
        forall|i: int| 0 <= i < LESSON_COUNT ==> (#[trigger] r@[i]).title@ == lesson_title(i) && r@[i].text@ == lesson_text(i)
            && r@[i].goal@ == lesson_goal(i),
{
    let mut r: Vec<Lesson> = Vec::new();
    let mut n: usize = 0;
    while n < LESSON_COUNT
        invariant
            n <= LESSON_COUNT,
            r@.len() == n,
            forall|i: int| 0 <= i < n ==> (#[trigger] r@[i]).title@ == lesson_title(i) && r@[i].text@ == lesson_text(i)
                && r@[i].goal@ == lesson_goal(i),
        decreases LESSON_COUNT - n,
    {
        r.push(lesson(n));
        n = n + 1;
    }
    r
}

/// A part as a challenge lays it out: lying flat or standing up, with its
/// kind's starting value unless another is given, red unless another
/// colour is given, open and not burnt.
pub open spec fn laid_out(kind: Kind, x: i32, y: i32, orient: u8, value: Option<Seq<char>>, color: LedColor) -> PartText {
    PartText {
        kind,
        x,
        y,
        orient,
        value: match value {
            Some(v) => v,
            None => kind_default_value(kind),
        },
        color,
        closed: false,
        burnt: false,
    }
}

/// The parts challenge `n` starts with, counting from 1, in the order
/// they are placed; none for the free board and past the last challenge.
pub open spec fn starter_parts(n: int) -> Seq<PartText> {
    if n == 1 {
        seq![
            laid_out(Kind::Battery, 4, 8, 2, None, LedColor::Red),
            laid_out(Kind::Resistor, 14, 4, 0, None, LedColor::Red),
            laid_out(Kind::Led, 26, 8, 0, None, LedColor::Red),
        ]
    } else if n == 2 {
        seq![
            laid_out(Kind::Battery, 4, 10, 2, None, LedColor::Red),
            laid_out(Kind::Switch, 10, 4, 0, None, LedColor::Red),
            laid_out(Kind::Resistor, 20, 4, 0, Some("10000"@), LedColor::Red),
            laid_out(Kind::Resistor, 30, 4, 0, None, LedColor::Red),
            laid_out(Kind::Led, 40, 4, 0, None, LedColor::Red),
            laid_out(Kind::Npn, 24, 10, 0, None, LedColor::Red),
        ]
    } else if n == 3 {
        seq![
            laid_out(Kind::Led, 8, 3, 0, None, LedColor::Red),
            laid_out(Kind::Led, 20, 3, 0, None, LedColor::Green),
            laid_out(Kind::Resistor, 32, 3, 0, None, LedColor::Red),
            laid_out(Kind::Resistor, 44, 3, 0, None, LedColor::Red),
            laid_out(Kind::Resistor, 8, 8, 0, Some("47000"@), LedColor::Red),
            laid_out(Kind::Resistor, 20, 8, 0, Some("47000"@), LedColor::Red),
            laid_out(Kind::Capacitor, 32, 8, 0, None, LedColor::Red),
            laid_out(Kind::Capacitor, 44, 8, 0, None, LedColor::Red),
            laid_out(Kind::Battery, 4, 14, 2, None, LedColor::Red),
            laid_out(Kind::Npn, 18, 14, 0, None, LedColor::Red),
            laid_out(Kind::Npn, 34, 14, 0, None, LedColor::Red),
        ]
    } else if n == 4 {
        seq![
            laid_out(Kind::Battery, 4, 12, 2, None, LedColor::Red),
            laid_out(Kind::Switch, 12, 4, 0, None, LedColor::Red),
            laid_out(Kind::Switch, 12, 8, 0, None, LedColor::Red),
            laid_out(Kind::Resistor, 19, 11, 2, Some("10000"@), LedColor::Red),
            laid_out(Kind::Resistor, 25, 11, 2, Some("10000"@), LedColor::Red),
            laid_out(Kind::And, 32, 6, 0, None, LedColor::Red),
            laid_out(Kind::Resistor, 40, 6, 0, None, LedColor::Red),
            laid_out(Kind::Led, 48, 6, 0, None, LedColor::Red),
        ]
    } else if n == 5 {
        seq![
            laid_out(Kind::Battery, 4, 14, 2, None, LedColor::Red),
            laid_out(Kind::Clock, 10, 4, 0, None, LedColor::Red),
            laid_out(Kind::Counter, 22, 4, 0, None, LedColor::Red),
            laid_out(Kind::Resistor, 32, 4, 0, None, LedColor::Red),
            laid_out(Kind::Led, 40, 4, 0, None, LedColor::Green),
            laid_out(Kind::Resistor, 32, 6, 0, None, LedColor::Red),
            laid_out(Kind::Led, 40, 6, 0, None, LedColor::Green),
            laid_out(Kind::Resistor, 32, 8, 0, None, LedColor::Red),
            laid_out(Kind::Led, 40, 8, 0, None, LedColor::Green),
            laid_out(Kind::Resistor, 32, 10, 0, None, LedColor::Red),
            laid_out(Kind::Led, 40, 10, 0, None, LedColor::Green),
        ]
    } else if n == 6 {
        seq![
            laid_out(Kind::Battery, 4, 14, 2, None, LedColor::Red),
            laid_out(Kind::Clock, 10, 4, 0, Some("2"@), LedColor::Red),
            laid_out(Kind::Counter, 22, 4, 0, None, LedColor::Red),
            laid_out(Kind::Display, 36, 4, 0, None, LedColor::Red),
        ]
    } else if n == 7 {
        seq![
            laid_out(Kind::Battery, 4, 14, 2, None, LedColor::Red),
            laid_out(Kind::Resistor, 12, 3, 0, Some("10000"@), LedColor::Red),
            laid_out(Kind::Resistor, 12, 7, 0, Some("68000"@), LedColor::Red),
            laid_out(Kind::Capacitor, 12, 11, 0, None, LedColor::Red),
            laid_out(Kind::Timer, 24, 6, 0, None, LedColor::Red),
            laid_out(Kind::Resistor, 34, 6, 0, None, LedColor::Red),
            laid_out(Kind::Led, 42, 6, 0, None, LedColor::Red),
        ]
    } else if n == 8 {
        seq![
            laid_out(Kind::Battery, 4, 20, 2, None, LedColor::Red),
            laid_out(Kind::Clock, 8, 4, 0, Some("10"@), LedColor::Red),
            laid_out(Kind::Counter, 20, 4, 0, None, LedColor::Red),
            laid_out(Kind::Display, 34, 4, 0, None, LedColor::Red),
            laid_out(Kind::And, 22, 12, 0, None, LedColor::Red),
            laid_out(Kind::Counter, 34, 12, 0, None, LedColor::Red),
            laid_out(Kind::Display, 46, 12, 0, None, LedColor::Red),
        ]
    } else {
        Seq::empty()
    }
}

/// A part as a challenge lays it out.
fn lay_out(kind: Kind, x: i32, y: i32, orient: u8, value: Option<&str>, color: LedColor) -> (p: Part)
    ensures
        part_text(p) == laid_out(kind, x, y, orient, match value {
            Some(v) => Some(v@),
            None => None,
        }, color),
{
    let mut p = Part::new(kind, x, y);
    p.orient = orient;
    p.color = color;
    match value {
        Some(v) => {
            p.value = String::from_str(v);
        },
        None => {},
    }
    p
}

/// The parts challenge `n` starts with, in the order they are placed.
fn starter_list(n: usize) -> (r: Vec<Part>)
    ensures
        r@.map_values(|p: Part| part_text(p)) == starter_parts(n as int),
{
    let r = if n == 1 {
        vec![
            lay_out(Kind::Battery, 4, 8, 2, None, LedColor::Red),
            lay_out(Kind::Resistor, 14, 4, 0, None, LedColor::Red),
            lay_out(Kind::Led, 26, 8, 0, None, LedColor::Red),
        ]
    } else if n == 2 {
        vec![
            lay_out(Kind::Battery, 4, 10, 2, None, LedColor::Red),
            lay_out(Kind::Switch, 10, 4, 0, None, LedColor::Red),
            lay_out(Kind::Resistor, 20, 4, 0, Some("10000"), LedColor::Red),
            lay_out(Kind::Resistor, 30, 4, 0, None, LedColor::Red),
            lay_out(Kind::Led, 40, 4, 0, None, LedColor::Red),
            lay_out(Kind::Npn, 24, 10, 0, None, LedColor::Red),
        ]
    } else if n == 3 {
        vec![
            lay_out(Kind::Led, 8, 3, 0, None, LedColor::Red),
            lay_out(Kind::Led, 20, 3, 0, None, LedColor::Green),
            lay_out(Kind::Resistor, 32, 3, 0, None, LedColor::Red),
            lay_out(Kind::Resistor, 44, 3, 0, None, LedColor::Red),
            lay_out(Kind::Resistor, 8, 8, 0, Some("47000"), LedColor::Red),
            lay_out(Kind::Resistor, 20, 8, 0, Some("47000"), LedColor::Red),
            lay_out(Kind::Capacitor, 32, 8, 0, None, LedColor::Red),
            lay_out(Kind::Capacitor, 44, 8, 0, None, LedColor::Red),
            lay_out(Kind::Battery, 4, 14, 2, None, LedColor::Red),
            lay_out(Kind::Npn, 18, 14, 0, None, LedColor::Red),
            lay_out(Kind::Npn, 34, 14, 0, None, LedColor::Red),
        ]
    } else if n == 4 {
        vec![
            lay_out(Kind::Battery, 4, 12, 2, None, LedColor::Red),
            lay_out(Kind::Switch, 12, 4, 0, None, LedColor::Red),
            lay_out(Kind::Switch, 12, 8, 0, None, LedColor::Red),
            lay_out(Kind::Resistor, 19, 11, 2, Some("10000"), LedColor::Red),
            lay_out(Kind::Resistor, 25, 11, 2, Some("10000"), LedColor::Red),
            lay_out(Kind::And, 32, 6, 0, None, LedColor::Red),
            lay_out(Kind::Resistor, 40, 6, 0, None, LedColor::Red),
            lay_out(Kind::Led, 48, 6, 0, None, LedColor::Red),
        ]
    } else if n == 5 {
        vec![
            lay_out(Kind::Battery, 4, 14, 2, None, LedColor::Red),
            lay_out(Kind::Clock, 10, 4, 0, None, LedColor::Red),
            lay_out(Kind::Counter, 22, 4, 0, None, LedColor::Red),
            lay_out(Kind::Resistor, 32, 4, 0, None, LedColor::Red),
            lay_out(Kind::Led, 40, 4, 0, None, LedColor::Green),
            lay_out(Kind::Resistor, 32, 6, 0, None, LedColor::Red),
            lay_out(Kind::Led, 40, 6, 0, None, LedColor::Green),
            lay_out(Kind::Resistor, 32, 8, 0, None, LedColor::Red),
            lay_out(Kind::Led, 40, 8, 0, None, LedColor::Green),
            lay_out(Kind::Resistor, 32, 10, 0, None, LedColor::Red),
            lay_out(Kind::Led, 40, 10, 0, None, LedColor::Green),
        ]
    } else if n == 6 {
        vec![
            lay_out(Kind::Battery, 4, 14, 2, None, LedColor::Red),
            lay_out(Kind::Clock, 10, 4, 0, Some("2"), LedColor::Red),
            lay_out(Kind::Counter, 22, 4, 0, None, LedColor::Red),
            lay_out(Kind::Display, 36, 4, 0, None, LedColor::Red),
        ]
    } else if n == 7 {
        vec![
            lay_out(Kind::Battery, 4, 14, 2, None, LedColor::Red),
            lay_out(Kind::Resistor, 12, 3, 0, Some("10000"), LedColor::Red),
            lay_out(Kind::Resistor, 12, 7, 0, Some("68000"), LedColor::Red),
            lay_out(Kind::Capacitor, 12, 11, 0, None, LedColor::Red),
            lay_out(Kind::Timer, 24, 6, 0, None, LedColor::Red),
            lay_out(Kind::Resistor, 34, 6, 0, None, LedColor::Red),
            lay_out(Kind::Led, 42, 6, 0, None, LedColor::Red),
        ]
    } else if n == 8 {
        vec![
            lay_out(Kind::Battery, 4, 20, 2, None, LedColor::Red),
            lay_out(Kind::Clock, 8, 4, 0, Some("10"), LedColor::Red),
            lay_out(Kind::Counter, 20, 4, 0, None, LedColor::Red),
            lay_out(Kind::Display, 34, 4, 0, None, LedColor::Red),
            lay_out(Kind::And, 22, 12, 0, None, LedColor::Red),
            lay_out(Kind::Counter, 34, 12, 0, None, LedColor::Red),
            lay_out(Kind::Display, 46, 12, 0, None, LedColor::Red),
        ]
    } else {
        Vec::new()
    };
    proof {
        assert(r@.map_values(|p: Part| part_text(p)) =~= starter_parts(n as int));
    }
    r
}

/// The parts a challenge starts with, laid out and waiting for wires:
/// each placed in turn where its cells are free. The free board, and any
/// number past the last challenge, start empty.
pub fn starter(n: usize) -> (b: Board)
    ensures
        b.wf(),
        b.has_parts(placed_in_turn(starter_parts(n as int), starter_parts(n as int).len()).0),
        b.cells@ == placed_in_turn(starter_parts(n as int), starter_parts(n as int).len()).1,
{
    let list = starter_list(n);
    let ghost ts = starter_parts(n as int);
    let mut b = Board::new();
    let mut i: usize = 0;
    while i < list.len()
        invariant
            ts == starter_parts(n as int),
            list@.map_values(|p: Part| part_text(p)) == ts,
            i <= list@.len(),
            b.wf(),
            b.parts@.len() <= i,
            b.has_parts(placed_in_turn(ts, i as nat).0),
            b.cells@ == placed_in_turn(ts, i as nat).1,
        decreases list@.len() - i,
    {
        let p = list[i].duplicate();
        let ghost st = placed_in_turn(ts, i as nat);
        proof {
            assert(part_text(p) == ts[i as int]);
            starter_on_grid(n as int);
            starter_values_read(n as int);
            assert(p.value@ == ts[i as int].value);
            assert(on_grid(crate::save::shape(ts[i as int])));
            assert(on_grid(p));
            lemma_room_is_free(b, p);
        }
        let ghost b0 = b;
        b.place(p);
        proof {
            let t = part_text(p);
            if crate::save::free_in(st.1, crate::save::shape(t)) {
                assert forall|j: int| 0 <= j < st.0.len() + 1 implies (#[trigger] b.parts@[j]) is Some
                    && part_text(b.parts@[j].unwrap()) == st.0.push(t)[j] by {
                    if j < st.0.len() {
                        assert(b0.parts@[j] is Some);
                    }
                }
            }
        }
        i = i + 1;
    }
    b
}

/// Every part of every challenge lies on the grid.
/// Where the parts of challenge `n` go, in the order they are put down:
/// each part's kind and the cell its body starts at.
pub open spec fn challenge_spots(n: int) -> Seq<(Kind, int, int)> {
    if n == 1 {
        seq![
            (Kind::Battery, 4int, 8int),
            (Kind::Resistor, 14int, 4int),
            (Kind::Led, 26int, 8int),
        ]
    } else if n == 2 {
        seq![
            (Kind::Battery, 4int, 10int),
            (Kind::Switch, 10int, 4int),
            (Kind::Resistor, 20int, 4int),
            (Kind::Resistor, 30int, 4int),
            (Kind::Led, 40int, 4int),
            (Kind::Npn, 24int, 10int),
        ]
    } else if n == 3 {
        seq![
            (Kind::Led, 8int, 3int),
            (Kind::Led, 20int, 3int),
            (Kind::Resistor, 32int, 3int),
            (Kind::Resistor, 44int, 3int),
            (Kind::Resistor, 8int, 8int),
            (Kind::Resistor, 20int, 8int),
            (Kind::Capacitor, 32int, 8int),
            (Kind::Capacitor, 44int, 8int),
            (Kind::Battery, 4int, 14int),
            (Kind::Npn, 18int, 14int),
            (Kind::Npn, 34int, 14int),
        ]
    } else if n == 4 {
        seq![
            (Kind::Battery, 4int, 12int),
            (Kind::Switch, 12int, 4int),
            (Kind::Switch, 12int, 8int),
            (Kind::Resistor, 19int, 11int),
            (Kind::Resistor, 25int, 11int),
            (Kind::And, 32int, 6int),
            (Kind::Resistor, 40int, 6int),
            (Kind::Led, 48int, 6int),
        ]
    } else if n == 5 {
        seq![
            (Kind::Battery, 4int, 14int),
            (Kind::Clock, 10int, 4int),
            (Kind::Counter, 22int, 4int),
            (Kind::Resistor, 32int, 4int),
            (Kind::Led, 40int, 4int),
            (Kind::Resistor, 32int, 6int),
            (Kind::Led, 40int, 6int),
            (Kind::Resistor, 32int, 8int),
            (Kind::Led, 40int, 8int),
            (Kind::Resistor, 32int, 10int),
            (Kind::Led, 40int, 10int),
        ]
    } else if n == 6 {
        seq![
            (Kind::Battery, 4int, 14int),
            (Kind::Clock, 10int, 4int),
            (Kind::Counter, 22int, 4int),
            (Kind::Display, 36int, 4int),
        ]
    } else if n == 7 {
        seq![
            (Kind::Battery, 4int, 14int),
            (Kind::Resistor, 12int, 3int),
            (Kind::Resistor, 12int, 7int),
            (Kind::Capacitor, 12int, 11int),
            (Kind::Timer, 24int, 6int),
            (Kind::Resistor, 34int, 6int),
            (Kind::Led, 42int, 6int),
        ]
    } else if n == 8 {
        seq![
            (Kind::Battery, 4int, 20int),
            (Kind::Clock, 8int, 4int),
            (Kind::Counter, 20int, 4int),
            (Kind::Display, 34int, 4int),
            (Kind::And, 22int, 12int),
            (Kind::Counter, 34int, 12int),
            (Kind::Display, 46int, 12int),
        ]
    } else {
        Seq::empty()
    }
}

/// The value a lesson's text asks of part `i` of challenge `n`, where it
/// is not its kind's starting value: the 10 kΩ base resistor of the
/// transistor switch, the 47 kΩ resistors of the blinker, the 10 kΩ
/// pull-downs of the logic gate, the clocks at 2 Hz and 10 Hz, and the
/// 10 kΩ and 68 kΩ of the 555.
pub open spec fn challenge_value(n: int, i: int) -> Option<Seq<char>> {
    if n == 2 && i == 2 {
        Some("10000"@)
    } else if n == 3 && (i == 4 || i == 5) {
        Some("47000"@)
    } else if n == 4 && (i == 3 || i == 4) {
        Some("10000"@)
    } else if n == 6 && i == 1 {
        Some("2"@)
    } else if n == 7 && i == 1 {
        Some("10000"@)
    } else if n == 7 && i == 2 {
        Some("68000"@)
    } else if n == 8 && i == 1 {
        Some("10"@)
    } else {
        None
    }
}

/// The parts each challenge starts with: the kinds and places of
/// `challenge_spots`, in that order; each part with its kind's starting
/// value unless its lesson asks for another (so challenge 1's resistor is
/// 470 Ω); batteries and the logic challenge's two pull-down resistors
/// standing, all else lying flat; the blinker's second LED and the
/// counting challenge's LEDs green, all else red; every switch open and
/// nothing burnt.
pub proof fn lemma_challenge_boards()
    ensures
        forall|n: int| #[trigger] starter_parts(n).len() == challenge_spots(n).len(),
        forall|n: int, i: int| 0 <= i < starter_parts(n).len() ==> {
            let t = #[trigger] starter_parts(n)[i];
            &&& (t.kind, t.x as int, t.y as int) == challenge_spots(n)[i]
            &&& t.value == match challenge_value(n, i) {
                Some(v) => v,
                None => kind_default_value(t.kind),
            }
            &&& t.orient == if t.kind == Kind::Battery || (n == 4 && (i == 3 || i == 4)) { 2u8 } else { 0u8 }
            &&& t.color == if (n == 3 && i == 1) || (n == 5 && t.kind == Kind::Led) { LedColor::Green } else { LedColor::Red }
            &&& !t.closed
            &&& !t.burnt
        },
        starter_parts(1)[1].kind == Kind::Resistor && starter_parts(1)[1].value == "470"@,
{
    assert forall|n: int| #[trigger] starter_parts(n).len() == challenge_spots(n).len() by {}
    assert forall|n: int, i: int| 0 <= i < starter_parts(n).len() implies {
        let t = #[trigger] starter_parts(n)[i];
        &&& (t.kind, t.x as int, t.y as int) == challenge_spots(n)[i]
        &&& t.value == match challenge_value(n, i) {
            Some(v) => v,
            None => kind_default_value(t.kind),
        }
        &&& t.orient == if t.kind == Kind::Battery || (n == 4 && (i == 3 || i == 4)) { 2u8 } else { 0u8 }
        &&& t.color == if (n == 3 && i == 1) || (n == 5 && t.kind == Kind::Led) { LedColor::Green } else { LedColor::Red }
        &&& !t.closed
        &&& !t.burnt
    } by {
        if n == 1 {
        } else if n == 2 {
        } else if n == 3 {
        } else if n == 4 {
        } else if n == 5 {
        } else if n == 6 {
        } else if n == 7 {
        } else {
        }
    }
}

/// Every starting part's value reads as a number.
proof fn starter_values_read(n: int)
    ensures
        forall|i: int| 0 <= i < starter_parts(n).len() ==> is_float(#[trigger] starter_parts(n)[i].value),
{
    lemma_default_values_read();
    reveal_strlit("10");
    reveal_strlit("2");
    reveal_strlit("10000");
    reveal_strlit("47000");
    reveal_strlit("68000");
    lemma_digits_read("10"@);
    lemma_digits_read("2"@);
    lemma_digits_read("10000"@);
    lemma_digits_read("47000"@);
    lemma_digits_read("68000"@);
}

proof fn starter_on_grid(n: int)
    ensures
        forall|i: int| 0 <= i < starter_parts(n).len() ==> on_grid(crate::save::shape(#[trigger] starter_parts(n)[i])),
{
}

} // verus!
