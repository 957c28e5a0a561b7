//! The kinds of part, LED colours and logic gates.

use vstd::prelude::*;
use crate::chars::{chars_of, spells};

verus! {

/// What a part is.
#[derive(Clone, Copy, PartialEq, Eq, Structural, Debug)]
pub enum Kind {
    Battery,
    Resistor,
    Capacitor,
    Led,
    Switch,
    Npn,
    Button,
    Not,
    And,
    Or,
    Nand,
    Nor,
    Xor,
    Clock,
    Counter,
    Display,
    Timer,
}

/// An LED's colour.
#[derive(Clone, Copy, PartialEq, Eq, Structural, Debug)]
pub enum LedColor {
    Red,
    Green,
    Yellow,
    Blue,
}

/// The rule of a logic gate.
#[derive(Clone, Copy, PartialEq, Eq, Structural, Debug)]
pub enum Gate {
    Not,
    And,
    Or,
    Nand,
    Nor,
    Xor,
}

/// The name a person reads.
pub open spec fn kind_name(k: Kind) -> Seq<char> {
    match k {
        Kind::Battery => "battery"@,
        Kind::Resistor => "resistor"@,
        Kind::Capacitor => "capacitor"@,
        Kind::Led => "LED"@,
        Kind::Switch => "switch"@,
        Kind::Npn => "transistor"@,
        Kind::Button => "button"@,
        Kind::Not => "NOT gate"@,
        Kind::And => "AND gate"@,
        Kind::Or => "OR gate"@,
        Kind::Nand => "NAND gate"@,
        Kind::Nor => "NOR gate"@,
        Kind::Xor => "XOR gate"@,
        Kind::Clock => "clock"@,
        Kind::Counter => "counter"@,
        Kind::Display => "display"@,
        Kind::Timer => "555 timer"@,
    }
}

/// One line about the part for the part picker.
pub open spec fn kind_blurb(k: Kind) -> Seq<char> {
    match k {
        Kind::Battery => "power for everything"@,
        Kind::Resistor => "holds current back"@,
        Kind::Capacitor => "stores charge for a while"@,
        Kind::Led => "lights up with current"@,
        Kind::Switch => "Space flips it"@,
        Kind::Npn => "a small current steers a big one"@,
        Kind::Button => "Space presses it for a moment"@,
        Kind::Not => "flips a signal"@,
        Kind::And => "high when both inputs are"@,
        Kind::Or => "high when either input is"@,
        Kind::Nand => "an AND, flipped"@,
        Kind::Nor => "an OR, flipped"@,
        Kind::Xor => "high when the inputs differ"@,
        Kind::Clock => "ticks by itself"@,
        Kind::Counter => "counts in binary, 0 to 15"@,
        Kind::Display => "shows a digit, 0 to F"@,
        Kind::Timer => "the classic timer chip"@,
    }
}

/// The word a saved board uses for the kind.
pub open spec fn kind_code(k: Kind) -> Seq<char> {
    match k {
        Kind::Battery => "battery"@,
        Kind::Resistor => "resistor"@,
        Kind::Capacitor => "capacitor"@,
        Kind::Led => "led"@,
        Kind::Switch => "switch"@,
        Kind::Npn => "npn"@,
        Kind::Button => "button"@,
        Kind::Not => "not"@,
        Kind::And => "and"@,
        Kind::Or => "or"@,
        Kind::Nand => "nand"@,
        Kind::Nor => "nor"@,
        Kind::Xor => "xor"@,
        Kind::Clock => "clock"@,
        Kind::Counter => "counter"@,
        Kind::Display => "display"@,
        Kind::Timer => "timer"@,
    }
}

/// The value a new part starts with, as the decimal text it is saved as:
/// 9 V, 470 Ω, 10 µF, 1 Hz, and 0 for parts that have no value.
pub open spec fn kind_default_value(k: Kind) -> Seq<char> {
    match k {
        Kind::Battery => "9"@,
        Kind::Resistor => "470"@,
        Kind::Capacitor => "0.00001"@,
        Kind::Clock => "1"@,
        _ => "0"@,
    }
}

/// Which gate each logic-gate kind stands for; none for other kinds.
pub open spec fn kind_gate(k: Kind) -> Option<Gate> {
    match k {
        Kind::Not => Some(Gate::Not),
        Kind::And => Some(Gate::And),
        Kind::Or => Some(Gate::Or),
        Kind::Nand => Some(Gate::Nand),
        Kind::Nor => Some(Gate::Nor),
        Kind::Xor => Some(Gate::Xor),
        _ => None,
    }
}

/// Counters, displays and timers: blocks that do not turn.
pub open spec fn kind_is_chip(k: Kind) -> bool {
    k == Kind::Counter || k == Kind::Display || k == Kind::Timer
}

/// The colour's position in the cycle red, green, yellow, blue.
pub open spec fn color_index(c: LedColor) -> int {
    match c {
        LedColor::Red => 0,
        LedColor::Green => 1,
        LedColor::Yellow => 2,
        LedColor::Blue => 3,
    }
}

/// The colour at a position of the cycle red, green, yellow, blue.
pub open spec fn color_at(i: int) -> LedColor {
    if i == 0 {
        LedColor::Red
    } else if i == 1 {
        LedColor::Green
    } else if i == 2 {
        LedColor::Yellow
    } else {
        LedColor::Blue
    }
}

/// The word a saved board uses for the colour.
pub open spec fn color_word(c: LedColor) -> Seq<char> {
    match c {
        LedColor::Red => "red"@,
        LedColor::Green => "green"@,
        LedColor::Yellow => "yellow"@,
        LedColor::Blue => "blue"@,
    }
}

/// The colour a saved word names; any other word means red.
pub open spec fn color_of_word(s: Seq<char>) -> LedColor {
    if s == "green"@ {
        LedColor::Green
    } else if s == "yellow"@ {
        LedColor::Yellow
    } else if s == "blue"@ {
        LedColor::Blue
    } else {
        LedColor::Red
    }
}

/// What a gate outputs for inputs `a` and `b`; a NOT reads only `a`.
pub open spec fn gate_output(g: Gate, a: bool, b: bool) -> bool {
    match g {
        Gate::Not => !a,
        Gate::And => a && b,
        Gate::Or => a || b,
        Gate::Nand => !(a && b),
        Gate::Nor => !(a || b),
        Gate::Xor => a != b,
    }
}

impl Gate {
    /// The output for inputs `a` and `b`.
    pub fn eval(self, a: bool, b: bool) -> (r: bool)
        ensures
            r == gate_output(self, a, b),
    {
        match self {
            Gate::Not => !a,
            Gate::And => a && b,
            Gate::Or => a || b,
            Gate::Nand => !(a && b),
            Gate::Nor => !(a || b),
            Gate::Xor => a != b,
        }
    }
}

impl Kind {
    /// Every part, in the order the picker lists them. The first six are
    /// also on the number keys.
    pub fn all() -> (r: Vec<Kind>)
        ensures
            r@ == seq![
                Kind::Battery, Kind::Resistor, Kind::Capacitor, Kind::Led, Kind::Switch, Kind::Npn,
                Kind::Button, Kind::Not, Kind::And, Kind::Or, Kind::Nand, Kind::Nor, Kind::Xor,
                Kind::Clock, Kind::Counter, Kind::Display, Kind::Timer,
            ],
            r@ == picker_order(),
    {
        vec![
            Kind::Battery, Kind::Resistor, Kind::Capacitor, Kind::Led, Kind::Switch, Kind::Npn,
            Kind::Button, Kind::Not, Kind::And, Kind::Or, Kind::Nand, Kind::Nor, Kind::Xor,
            Kind::Clock, Kind::Counter, Kind::Display, Kind::Timer,
        ]
    }

    /// The name a person reads.
    pub fn name(self) -> (r: &'static str)
        ensures
            r@ == kind_name(self),
    {
        match self {
            Kind::Battery => "battery",
            Kind::Resistor => "resistor",
            Kind::Capacitor => "capacitor",
            Kind::Led => "LED",
            Kind::Switch => "switch",
            Kind::Npn => "transistor",
            Kind::Button => "button",
            Kind::Not => "NOT gate",
            Kind::And => "AND gate",
            Kind::Or => "OR gate",
            Kind::Nand => "NAND gate",
            Kind::Nor => "NOR gate",
            Kind::Xor => "XOR gate",
            Kind::Clock => "clock",
            Kind::Counter => "counter",
            Kind::Display => "display",
            Kind::Timer => "555 timer",
        }
    }

    /// One line for the part picker.
    pub fn blurb(self) -> (r: &'static str)
        ensures
            r@ == kind_blurb(self),
    {
        match self {
            Kind::Battery => "power for everything",
            Kind::Resistor => "holds current back",
            Kind::Capacitor => "stores charge for a while",
            Kind::Led => "lights up with current",
            Kind::Switch => "Space flips it",
            Kind::Npn => "a small current steers a big one",
            Kind::Button => "Space presses it for a moment",
            Kind::Not => "flips a signal",
            Kind::And => "high when both inputs are",
            Kind::Or => "high when either input is",
            Kind::Nand => "an AND, flipped",
            Kind::Nor => "an OR, flipped",
            Kind::Xor => "high when the inputs differ",
            Kind::Clock => "ticks by itself",
            Kind::Counter => "counts in binary, 0 to 15",
            Kind::Display => "shows a digit, 0 to F",
            Kind::Timer => "the classic timer chip",
        }
    }

    /// The word a saved board uses for the kind.
    pub fn code(self) -> (r: &'static str)
        ensures
            r@ == kind_code(self),
    {
        match self {
            Kind::Battery => "battery",
            Kind::Resistor => "resistor",
            Kind::Capacitor => "capacitor",
            Kind::Led => "led",
            Kind::Switch => "switch",
            Kind::Npn => "npn",
            Kind::Button => "button",
            Kind::Not => "not",
            Kind::And => "and",
            Kind::Or => "or",
            Kind::Nand => "nand",
            Kind::Nor => "nor",
            Kind::Xor => "xor",
            Kind::Clock => "clock",
            Kind::Counter => "counter",
            Kind::Display => "display",
            Kind::Timer => "timer",
        }
    }

    /// The kind a saved word names, if any.
    pub fn from_code(s: &str) -> (r: Option<Kind>)
        ensures
            match r {
                Some(k) => kind_code(k) == s@,
                None => forall|k: Kind| kind_code(k) != s@,
            },
    {
        let t = chars_of(s);
        Kind::from_code_chars(&t)
    }

    /// The kind whose saved word is spelt by `t`, if any.
    pub fn from_code_chars(t: &Vec<char>) -> (r: Option<Kind>)
        ensures
            match r {
                Some(k) => kind_code(k) == t@,
                None => forall|k: Kind| kind_code(k) != t@,
            },
    {
        if spells(t, "battery") { Some(Kind::Battery) }
        else if spells(t, "resistor") { Some(Kind::Resistor) }
        else if spells(t, "capacitor") { Some(Kind::Capacitor) }
        else if spells(t, "led") { Some(Kind::Led) }
        else if spells(t, "switch") { Some(Kind::Switch) }
        else if spells(t, "npn") { Some(Kind::Npn) }
        else if spells(t, "button") { Some(Kind::Button) }
        else if spells(t, "not") { Some(Kind::Not) }
        else if spells(t, "and") { Some(Kind::And) }
        else if spells(t, "or") { Some(Kind::Or) }
        else if spells(t, "nand") { Some(Kind::Nand) }
        else if spells(t, "nor") { Some(Kind::Nor) }
        else if spells(t, "xor") { Some(Kind::Xor) }
        else if spells(t, "clock") { Some(Kind::Clock) }
        else if spells(t, "counter") { Some(Kind::Counter) }
        else if spells(t, "display") { Some(Kind::Display) }
        else if spells(t, "timer") { Some(Kind::Timer) }
        else { None }
    }

    /// The value a new part of this kind starts with, as saved text.
    pub fn default_value(self) -> (r: &'static str)
        ensures
            r@ == kind_default_value(self),
    {
        match self {
            Kind::Battery => "9",
            Kind::Resistor => "470",
            Kind::Capacitor => "0.00001",
            Kind::Clock => "1",
            _ => "0",
        }
    }

    /// Which gate this kind stands for, when it is a logic gate.
    pub fn gate(self) -> (r: Option<Gate>)
        ensures
            r == kind_gate(self),
    {
        match self {
            Kind::Not => Some(Gate::Not),
            Kind::And => Some(Gate::And),
            Kind::Or => Some(Gate::Or),
            Kind::Nand => Some(Gate::Nand),
            Kind::Nor => Some(Gate::Nor),
            Kind::Xor => Some(Gate::Xor),
            _ => None,
        }
    }

    /// Counters, displays and timers are blocks that do not turn.
    pub fn is_chip(self) -> (r: bool)
        ensures
            r == kind_is_chip(self),
    {
        match self {
            Kind::Counter | Kind::Display | Kind::Timer => true,
            _ => false,
        }
    }
}

/// The word a saved board uses for a colour.
pub fn color_code(c: LedColor) -> (r: &'static str)
    ensures
        r@ == color_word(c),
{
    match c {
        LedColor::Red => "red",
        LedColor::Green => "green",
        LedColor::Yellow => "yellow",
        LedColor::Blue => "blue",
    }
}

/// The colour a saved word names; any other word means red.
pub fn color_from(s: &str) -> (r: LedColor)
    ensures
        r == color_of_word(s@),
{
    let t = chars_of(s);
    color_from_chars(&t)
}

/// The colour the characters in `t` name; any other word means red.
pub fn color_from_chars(t: &Vec<char>) -> (r: LedColor)
    ensures
        r == color_of_word(t@),
{
    if spells(t, "green") {
        LedColor::Green
    } else if spells(t, "yellow") {
        LedColor::Yellow
    } else if spells(t, "blue") {
        LedColor::Blue
    } else {
        LedColor::Red
    }
}

/// The next colour in the cycle red, green, yellow, blue, up or down.
pub fn next_color(c: LedColor, up: bool) -> (r: LedColor)
    ensures
        r == color_at((color_index(c) + if up { 1int } else { 3int }) % 4),
{
    let i: usize = match c {
        LedColor::Red => 0,
        LedColor::Green => 1,
        LedColor::Yellow => 2,
        LedColor::Blue => 3,
    };
    let j: usize = (i + if up { 1 } else { 3 }) % 4;
    if j == 0 {
        LedColor::Red
    } else if j == 1 {
        LedColor::Green
    } else if j == 2 {
        LedColor::Yellow
    } else {
        LedColor::Blue
    }
}

/// Stepping a colour up and then down, or down and then up, gives it back.
pub proof fn lemma_next_color_undoes(c: LedColor, up: bool)
    ensures
        color_at((color_index(color_at((color_index(c) + if up { 1int } else { 3int }) % 4)) + if up { 3int } else { 1int }) % 4) == c,
{
}

/// Every colour's word names it again, and no two kinds share a saved word.
pub proof fn lemma_words_name_again(c: LedColor, k1: Kind, k2: Kind)
    ensures
        color_of_word(color_word(c)) == c,
        kind_code(k1) == kind_code(k2) ==> k1 == k2,
{
    reveal_strlit("red");
    reveal_strlit("green");
    reveal_strlit("yellow");
    reveal_strlit("blue");
    reveal_strlit("battery");
    reveal_strlit("resistor");
    reveal_strlit("capacitor");
    reveal_strlit("led");
    reveal_strlit("switch");
    reveal_strlit("npn");
    reveal_strlit("button");
    reveal_strlit("not");
    reveal_strlit("and");
    reveal_strlit("or");
    reveal_strlit("nand");
    reveal_strlit("nor");
    reveal_strlit("xor");
    reveal_strlit("clock");
    reveal_strlit("counter");
    reveal_strlit("display");
    reveal_strlit("timer");
    assert("red"@.len() == 3 && "green"@.len() == 5 && "yellow"@.len() == 6 && "blue"@.len() == 4);
    if kind_code(k1) == kind_code(k2) {
        assert(kind_code(k1).len() == kind_code(k2).len());
        assert(kind_code(k1)[0] == kind_code(k2)[0]);
        if kind_code(k1).len() > 2 {
            assert(kind_code(k1)[1] == kind_code(k2)[1]);
            assert(kind_code(k1)[2] == kind_code(k2)[2]);
        }
    }
}

/// A new part starts at the value the lessons build on: a 9 V battery, a
/// 470 Ω resistor, a 10 µF capacitor and a clock at 1 Hz; other kinds
/// carry no value and start at 0.
pub proof fn lemma_starting_values()
    ensures
        kind_default_value(Kind::Battery) == "9"@,
        kind_default_value(Kind::Resistor) == "470"@,
        kind_default_value(Kind::Capacitor) == "0.00001"@,
        kind_default_value(Kind::Clock) == "1"@,
        forall|k: Kind| k != Kind::Battery && k != Kind::Resistor && k != Kind::Capacitor && k != Kind::Clock
            ==> #[trigger] kind_default_value(k) == "0"@,
{
}

/// Every kind, in the order the part picker lists them.
pub open spec fn picker_order() -> Seq<Kind> {
    seq![
        Kind::Battery, Kind::Resistor, Kind::Capacitor, Kind::Led, Kind::Switch, Kind::Npn,
        Kind::Button, Kind::Not, Kind::And, Kind::Or, Kind::Nand, Kind::Nor, Kind::Xor,
        Kind::Clock, Kind::Counter, Kind::Display, Kind::Timer,
    ]
}

/// Each gate part works by the rule it is named for: NOT inverts a, AND
/// is high when both are, OR when either is, NAND and NOR are their
/// inverses, and XOR is high when a and b differ. Only those six kinds
/// are gates, and no two of them share a rule.
pub proof fn lemma_gates_follow_their_names()
    ensures
        forall|a: bool, b: bool| #[trigger] gate_output(kind_gate(Kind::Not).unwrap(), a, b) == !a,
        forall|a: bool, b: bool| #[trigger] gate_output(kind_gate(Kind::And).unwrap(), a, b) == (a && b),
        forall|a: bool, b: bool| #[trigger] gate_output(kind_gate(Kind::Or).unwrap(), a, b) == (a || b),
        forall|a: bool, b: bool| #[trigger] gate_output(kind_gate(Kind::Nand).unwrap(), a, b) == !(a && b),
        forall|a: bool, b: bool| #[trigger] gate_output(kind_gate(Kind::Nor).unwrap(), a, b) == !(a || b),
        forall|a: bool, b: bool| #[trigger] gate_output(kind_gate(Kind::Xor).unwrap(), a, b) == (a != b),
        forall|k: Kind| #[trigger] kind_gate(k) is Some <==> (k == Kind::Not || k == Kind::And || k == Kind::Or
            || k == Kind::Nand || k == Kind::Nor || k == Kind::Xor),
        forall|k1: Kind, k2: Kind| kind_gate(k1) is Some && #[trigger] kind_gate(k1) == #[trigger] kind_gate(k2) ==> k1 == k2,
{
}

} // verus!
