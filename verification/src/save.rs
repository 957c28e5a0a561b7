//! Boards as text: one line per part, then one per wire and per pin that
//! wires join, in reading order.
//!
//! ```text
//! part resistor 6 1 0 470 red 0 0
//! wire 1 1 2
//! pin 5 1 8
//! ```

use vstd::prelude::*;
use vstd::std_specs::iter::IteratorSpec;
use crate::board::{Board, Cell, swap, mask_of, with_mask, covers, with_part};
use crate::chars::{chars_of, push_chars, string_of, spells};
use crate::kind::{Kind, LedColor, kind_code, color_word, color_of_word, color_code, color_from_chars};
use crate::numbers::{int_text, i32_of, u8_of, is_float, push_int, parse_i32, parse_u8, is_float_word};
use crate::order::{ascending, lemma_keys_ascend, lemma_keys_compare};
use crate::part::{Part, on_grid, pin_cells};
use crate::words::{rows, texts, join_words, join_rows, split_lines, split_words, lines};

verus! {

/// `1` for true, `0` for false.
pub open spec fn bit_text(b: bool) -> Seq<char> {
    if b {
        "1"@
    } else {
        "0"@
    }
}

/// The words of the line a part is saved as.
pub open spec fn part_row(p: Part) -> Seq<Seq<char>> {
    seq![
        "part"@,
        kind_code(p.kind),
        int_text(p.x as int),
        int_text(p.y as int),
        int_text(p.orient as int),
        p.value@,
        color_word(p.color),
        bit_text(p.closed),
        bit_text(p.burnt),
    ]
}

/// The lines the cell keyed `key` (row, then column) is saved as: one for
/// a wire, one for a pin that wires join, none otherwise.
pub open spec fn cell_rows(key: (i32, i32), c: Cell) -> Seq<Seq<Seq<char>>> {
    match c {
        Cell::Wire(m) => seq![seq!["wire"@, int_text(key.1 as int), int_text(key.0 as int), int_text(m as int)]],
        Cell::Pin(_, _, m) => if m != 0 {
            seq![seq!["pin"@, int_text(key.1 as int), int_text(key.0 as int), int_text(m as int)]]
        } else {
            Seq::empty()
        },
        Cell::Body(_) => Seq::empty(),
    }
}

/// The lines of the parts there are, in index order.
pub open spec fn part_rows(ps: Seq<Option<Part>>) -> Seq<Seq<Seq<char>>>
    decreases ps.len(),
{
    if ps.len() == 0 {
        Seq::empty()
    } else {
        part_rows(ps.drop_last()) + match ps.last() {
            Some(p) => seq![part_row(p)],
            None => Seq::empty(),
        }
    }
}

/// The lines of the cells of `m` at `keys`, in that order.
pub open spec fn cells_rows(m: Map<(i32, i32), Cell>, keys: Seq<(i32, i32)>) -> Seq<Seq<Seq<char>>>
    decreases keys.len(),
{
    if keys.len() == 0 {
        Seq::empty()
    } else {
        cells_rows(m, keys.drop_last()) + cell_rows(keys.last(), m[keys.last()])
    }
}

/// `keys` are the keys of `m`, each once, by row and then by column.
pub open spec fn in_key_order(m: Map<(i32, i32), Cell>, keys: Seq<(i32, i32)>) -> bool {
    &&& keys.no_duplicates()
    &&& forall|k: (i32, i32)| #[trigger] keys.contains(k) <==> m.contains_key(k)
    &&& ascending(keys)
}

impl Board {
    /// The lines the board is saved as, its cells taken in the order of
    /// `keys`.
    pub open spec fn saved_rows(&self, keys: Seq<(i32, i32)>) -> Seq<Seq<Seq<char>>> {
        part_rows(self.parts@) + cells_rows(self.cells@, keys)
    }
}

/// Adding a row adds its line.
proof fn lemma_join_rows_push(rs: Seq<Seq<Seq<char>>>, r: Seq<Seq<char>>)
    ensures
        join_rows(rs.push(r)) == join_rows(rs) + join_words(r) + seq!['\n'],
    decreases rs.len(),
{
    if rs.len() == 0 {
        assert(rs.push(r).drop_first() =~= Seq::<Seq<Seq<char>>>::empty());
        assert(join_rows(rs.push(r).drop_first()) == Seq::<char>::empty());
        assert(join_rows(rs.push(r)) =~= join_words(r) + seq!['\n']);
        assert(join_rows(rs) + join_words(r) + seq!['\n'] =~= join_words(r) + seq!['\n']);
    } else {
        lemma_join_rows_push(rs.drop_first(), r);
        assert(rs.push(r).drop_first() =~= rs.drop_first().push(r));
        assert(rs.push(r)[0] == rs[0]);
        assert(join_rows(rs.push(r)) =~= join_rows(rs) + join_words(r) + seq!['\n']);
    }
}

/// Adding a word adds a space and the word.
proof fn lemma_join_words_push(ts: Seq<Seq<char>>, t: Seq<char>)
    ensures
        join_words(ts.push(t)) == if ts.len() == 0 { t } else { join_words(ts) + seq![' '] + t },
    decreases ts.len(),
{
    if ts.len() == 1 {
        assert(ts.push(t).drop_first() =~= seq![t]);
        assert(join_words(seq![t]) == t);
    } else if ts.len() > 1 {
        lemma_join_words_push(ts.drop_first(), t);
        assert(ts.push(t).drop_first() =~= ts.drop_first().push(t));
        assert(join_words(ts.push(t)) =~= join_words(ts) + seq![' '] + t);
    }
}

/// Appends the words of `row` with a space between each two, and a `\n`.
fn push_row(out: &mut Vec<char>, row: &Vec<Vec<char>>)
    ensures
        final(out)@ == old(out)@ + join_words(texts(row@)) + seq!['\n'],
{
    let mut j: usize = 0;
    while j < row.len()
        invariant
            j <= row@.len(),
            out@ == old(out)@ + join_words(texts(row@.take(j as int))),
        decreases row@.len() - j,
    {
        proof {
            lemma_join_words_push(texts(row@.take(j as int)), row@[j as int]@);
            assert(texts(row@.take(j + 1)) =~= texts(row@.take(j as int)).push(row@[j as int]@));
        }
        if j > 0 {
            out.push(' ');
        }
        push_chars(out, &row[j]);
        proof {
            if j > 0 {
                assert(out@ =~= old(out)@ + join_words(texts(row@.take(j + 1))));
            } else {
                assert(texts(row@.take(0)) =~= Seq::<Seq<char>>::empty());
                assert(out@ =~= old(out)@ + join_words(texts(row@.take(j + 1))));
            }
        }
        j = j + 1;
    }
    out.push('\n');
    proof {
        assert(row@.take(row@.len() as int) =~= row@);
    }
}

/// The characters of a whole number in decimal.
fn int_chars(n: i32) -> (r: Vec<char>)
    ensures
        r@ == int_text(n as int),
{
    let mut v: Vec<char> = Vec::new();
    push_int(&mut v, n);
    proof {
        assert(v@ =~= int_text(n as int));
    }
    v
}

/// The characters of `1` or `0`.
fn bit_chars(b: bool) -> (r: Vec<char>)
    ensures
        r@ == bit_text(b),
{
    if b {
        chars_of("1")
    } else {
        chars_of("0")
    }
}

/// The words of the line a part is saved as.
fn part_words(p: &Part) -> (r: Vec<Vec<char>>)
    ensures
        texts(r@) == part_row(*p),
{
    let mut r: Vec<Vec<char>> = Vec::new();
    r.push(chars_of("part"));
    r.push(chars_of(p.kind.code()));
    r.push(int_chars(p.x));
    r.push(int_chars(p.y));
    r.push(int_chars(p.orient as i32));
    r.push(chars_of(p.value.as_str()));
    r.push(chars_of(color_code(p.color)));
    r.push(bit_chars(p.closed));
    r.push(bit_chars(p.burnt));
    proof {
        assert(texts(r@) =~= part_row(*p));
    }
    r
}

/// The words of the line for a wire or pin keyed `key` with mask `m`.
fn cell_words(word: &str, key: (i32, i32), m: u8) -> (r: Vec<Vec<char>>)
    ensures
        texts(r@) == seq![word@, int_text(key.1 as int), int_text(key.0 as int), int_text(m as int)],
{
    let mut r: Vec<Vec<char>> = Vec::new();
    r.push(chars_of(word));
    r.push(int_chars(key.1));
    r.push(int_chars(key.0));
    r.push(int_chars(m as i32));
    proof {
        assert(texts(r@) =~= seq![word@, int_text(key.1 as int), int_text(key.0 as int), int_text(m as int)]);
    }
    r
}

impl Board {
    /// The board as text: a line for each part, in index order, then a line
    /// for each wire and each pin that wires join, by row and then column.
    pub fn to_text(&self) -> (r: String)
        ensures
            exists|keys: Seq<(i32, i32)>| in_key_order(self.cells@, keys) && r@ == join_rows(#[trigger] self.saved_rows(keys)),
    {
        let mut out: Vec<char> = Vec::new();
        let mut i: usize = 0;
        while i < self.parts.len()
            invariant
                i <= self.parts@.len(),
                out@ == join_rows(part_rows(self.parts@.take(i as int))),
            decreases self.parts@.len() - i,
        {
            let ghost rs0 = part_rows(self.parts@.take(i as int));
            proof {
                assert(self.parts@.take(i + 1).drop_last() =~= self.parts@.take(i as int));
                assert(self.parts@.take(i + 1).last() == self.parts@[i as int]);
            }
            match &self.parts[i] {
                Some(p) => {
                    let row = part_words(p);
                    push_row(&mut out, &row);
                    proof {
                        lemma_join_rows_push(rs0, part_row(*p));
                        assert(part_rows(self.parts@.take(i + 1)) =~= rs0.push(part_row(*p)));
                    }
                },
                None => {
                    proof {
                        assert(part_rows(self.parts@.take(i + 1)) =~= rs0);
                    }
                },
            }
            i = i + 1;
        }
        proof {
            assert(self.parts@.take(self.parts@.len() as int) =~= self.parts@);
            lemma_keys_compare();
        }
        let ghost prs = part_rows(self.parts@);
        let ghost all = self.cells.iter().remaining();
        let ghost ks = all.map_values(|kv: (&(i32, i32), &Cell)| *kv.0);
        let order = self.cells.iter();
        proof {
            assert(order.remaining() == all);
            assert(all.no_duplicates());
            lemma_keys_ascend(ks);
        }
        for kv in it: self.cells.iter()
            invariant
                all == self.cells.iter().remaining(),
                it.seq() == all,
                ks == all.map_values(|kv: (&(i32, i32), &Cell)| *kv.0),
                all.no_duplicates(),
                ascending(ks),
                forall|t: int| 0 <= t < all.len() ==> #[trigger] self.cells@.contains_key(*all[t].0) && self.cells@[*all[t].0] == *all[t].1,
                out@ == join_rows(prs + cells_rows(self.cells@, ks.take(it.index() as int))),
        {
            let (k, c) = kv;
            let ghost t = it.index() as int;
            let ghost rs0 = prs + cells_rows(self.cells@, ks.take(t));
            proof {
                assert(ks.take(t + 1).drop_last() =~= ks.take(t));
                assert(ks.take(t + 1).last() == *k);
                assert(self.cells@[*k] == *c);
                assert(cells_rows(self.cells@, ks.take(t + 1)) == cells_rows(self.cells@, ks.take(t)) + cell_rows(*k, *c));
            }
            match c {
                Cell::Wire(m) => {
                    let row = cell_words("wire", *k, *m);
                    push_row(&mut out, &row);
                    proof {
                        let r = seq!["wire"@, int_text(k.1 as int), int_text(k.0 as int), int_text(*m as int)];
                        lemma_join_rows_push(rs0, r);
                        assert(prs + cells_rows(self.cells@, ks.take(t + 1)) =~= rs0.push(r));
                    }
                },
                Cell::Pin(_, _, m) => {
                    if *m != 0 {
                        let row = cell_words("pin", *k, *m);
                        push_row(&mut out, &row);
                        proof {
                            let r = seq!["pin"@, int_text(k.1 as int), int_text(k.0 as int), int_text(*m as int)];
                            lemma_join_rows_push(rs0, r);
                            assert(prs + cells_rows(self.cells@, ks.take(t + 1)) =~= rs0.push(r));
                        }
                    } else {
                        proof {
                            assert(prs + cells_rows(self.cells@, ks.take(t + 1)) =~= rs0);
                        }
                    }
                },
                Cell::Body(_) => {
                    proof {
                        assert(prs + cells_rows(self.cells@, ks.take(t + 1)) =~= rs0);
                    }
                },
            }
        }
        proof {
            assert(ks.take(ks.len() as int) =~= ks);
            assert(ks.no_duplicates()) by {
                assert forall|a: int, b: int| 0 <= a < ks.len() && 0 <= b < ks.len() && a != b implies ks[a] != ks[b] by {
                    if ks[a] == ks[b] {
                        assert(ks[a] == *all[a].0);
                        assert(ks[b] == *all[b].0);
                        assert(self.cells@.contains_key(*all[a].0));
                        assert(self.cells@.contains_key(*all[b].0));
                        assert(*all[a].1 == *all[b].1);
                        assert(all[a] == all[b]);
                    }
                }
            }
            assert forall|key: (i32, i32)| #[trigger] ks.contains(key) <==> self.cells@.contains_key(key) by {
                if self.cells@.contains_key(key) {
                    assert(all.contains((&key, &self.cells@[key])));
                    let t = choose|t: int| 0 <= t < all.len() && all[t] == (&key, &self.cells@[key]);
                    assert(ks[t] == key);
                }
                if ks.contains(key) {
                    let t = choose|t: int| 0 <= t < ks.len() && ks[t] == key;
                    assert(*all[t].0 == key);
                }
            }
            assert(in_key_order(self.cells@, ks));
            assert(out@ == join_rows(self.saved_rows(ks)));
        }
        string_of(&out)
    }
}

/// A part as a saved line gives it, with its value as text.
pub struct PartText {
    pub kind: Kind,
    pub x: i32,
    pub y: i32,
    pub orient: u8,
    pub value: Seq<char>,
    pub color: LedColor,
    pub closed: bool,
    pub burnt: bool,
}

/// The part, with its value as text.
pub open spec fn part_text(p: Part) -> PartText {
    PartText {
        kind: p.kind,
        x: p.x,
        y: p.y,
        orient: p.orient,
        value: p.value@,
        color: p.color,
        closed: p.closed,
        burnt: p.burnt,
    }
}

/// A part of this kind, place and facing, which is all that decides the
/// cells it takes.
pub open spec fn shape(t: PartText) -> Part {
    Part {
        kind: t.kind,
        x: t.x,
        y: t.y,
        orient: t.orient,
        value: vstd::pervasive::arbitrary(),
        color: t.color,
        closed: t.closed,
        burnt: t.burnt,
    }
}

/// The kind a saved word names, if any.
pub open spec fn code_kind(t: Seq<char>) -> Option<Kind> {
    if exists|k: Kind| kind_code(k) == t {
        Some(choose|k: Kind| kind_code(k) == t)
    } else {
        None
    }
}

/// The part a line asks for: a line of nine or more words that starts
/// with `part`, whose kind, place, facing and value read.
pub open spec fn row_part(f: Seq<Seq<char>>) -> Option<PartText> {
    if f.len() >= 9 && f[0] == "part"@ && code_kind(f[1]) is Some && i32_of(f[2]) is Some && i32_of(f[3]) is Some
        && u8_of(f[4]) is Some && is_float(f[5]) {
        Some(PartText {
            kind: code_kind(f[1]).unwrap(),
            x: i32_of(f[2]).unwrap(),
            y: i32_of(f[3]).unwrap(),
            orient: u8_of(f[4]).unwrap(),
            value: f[5],
            color: color_of_word(f[6]),
            closed: f[7] == "1"@,
            burnt: f[8] == "1"@,
        })
    } else {
        None
    }
}

/// No cell of `p` is in use in `m`.
pub open spec fn free_in(m: Map<(i32, i32), Cell>, p: Part) -> bool {
    forall|at: (i32, i32)| #[trigger] covers(p, at) ==> !m.contains_key(swap(at))
}

/// The parts placed and the cells in use after the first `n` lines, each
/// part placed when its cells are free.
pub open spec fn placed_after(rs: Seq<Seq<Seq<char>>>, n: nat) -> (Seq<PartText>, Map<(i32, i32), Cell>)
    decreases n,
{
    if n == 0 {
        (Seq::empty(), Map::empty())
    } else {
        let (ps, m) = placed_after(rs, (n - 1) as nat);
        match row_part(rs[n - 1]) {
            Some(t) => if free_in(m, shape(t)) {
                (ps.push(t), with_part(m, ps.len() as usize, shape(t)))
            } else {
                (ps, m)
            },
            None => (ps, m),
        }
    }
}

/// The parts placed and the cells in use after the parts `ts[..n]` are
/// placed in turn on an empty board, each when its cells are free.
pub open spec fn placed_in_turn(ts: Seq<PartText>, n: nat) -> (Seq<PartText>, Map<(i32, i32), Cell>)
    decreases n,
{
    if n == 0 {
        (Seq::empty(), Map::empty())
    } else {
        let (ps, m) = placed_in_turn(ts, (n - 1) as nat);
        let t = ts[n - 1];
        if free_in(m, shape(t)) {
            (ps.push(t), with_part(m, ps.len() as usize, shape(t)))
        } else {
            (ps, m)
        }
    }
}

/// There is room on a board for a part exactly when its cells are free,
/// and a part takes the cells that any part of its shape takes.
pub proof fn lemma_room_is_free(b: Board, p: Part)
    ensures
        b.room_for(p, None) == free_in(b.cells@, shape(part_text(p))),
        forall|m: Map<(i32, i32), Cell>, i: usize| #[trigger] with_part(m, i, shape(part_text(p))) == with_part(m, i, p),
{
    let q = shape(part_text(p));
    assert(pin_cells(p) == pin_cells(q));
    assert forall|at: (i32, i32)| covers(p, at) == #[trigger] covers(q, at) by {}
    if b.room_for(p, None) {
        assert forall|at: (i32, i32)| #[trigger] covers(q, at) implies !b.cells@.contains_key(swap(at)) by {
            assert(covers(p, at));
            if b.holds(at) {
                assert(b.cell_at(at) is Wire || b.cell_at(at) is Body || b.cell_at(at) is Pin);
            }
        }
    }
    if free_in(b.cells@, q) {
        assert forall|at: (i32, i32)| #[trigger] covers(p, at) && b.holds(at) implies match b.cell_at(at) {
            Cell::Wire(_) => false,
            Cell::Body(i) => None::<usize> == Some(i),
            Cell::Pin(i, _, _) => None::<usize> == Some(i),
        } by {
            assert(covers(q, at));
        }
    }
    assert forall|m: Map<(i32, i32), Cell>, i: usize| #[trigger] with_part(m, i, q) == with_part(m, i, p) by {
        assert(with_part(m, i, q) =~= with_part(m, i, p));
    }
}

/// The cells after a line `wire X Y MASK` or `pin X Y MASK`: a wire is put
/// on a free cell, a pin (or wire) there gets the mask.
pub open spec fn cell_row_applied(f: Seq<Seq<char>>, m: Map<(i32, i32), Cell>) -> Map<(i32, i32), Cell> {
    if f.len() == 4 && i32_of(f[1]) is Some && i32_of(f[2]) is Some && u8_of(f[3]) is Some {
        let key = (i32_of(f[2]).unwrap(), i32_of(f[1]).unwrap());
        let mask = u8_of(f[3]).unwrap();
        if f[0] == "wire"@ && !m.contains_key(key) {
            m.insert(key, Cell::Wire(mask))
        } else if f[0] == "pin"@ && m.contains_key(key) && mask_of(m[key]) is Some {
            m.insert(key, with_mask(m[key], mask))
        } else {
            m
        }
    } else {
        m
    }
}

/// The cells after the wire and pin lines among the first `n` lines are
/// applied to `m0`.
pub open spec fn wired_after(rs: Seq<Seq<Seq<char>>>, n: nat, m0: Map<(i32, i32), Cell>) -> Map<(i32, i32), Cell>
    decreases n,
{
    if n == 0 {
        m0
    } else {
        cell_row_applied(rs[n - 1], wired_after(rs, (n - 1) as nat, m0))
    }
}

/// The parts a saved board loads as, in order.
pub open spec fn loaded_parts(text: Seq<char>) -> Seq<PartText> {
    placed_after(rows(text), rows(text).len()).0
}

/// The cells a saved board loads as.
pub open spec fn loaded_cells(text: Seq<char>) -> Map<(i32, i32), Cell> {
    wired_after(rows(text), rows(text).len(), placed_after(rows(text), rows(text).len()).1)
}

/// Every part a line of `text` asks for lies on the grid.
pub open spec fn parts_on_grid(text: Seq<char>) -> bool {
    forall|i: int| 0 <= i < rows(text).len() && (#[trigger] row_part(rows(text)[i])) is Some ==> on_grid(shape(row_part(rows(text)[i]).unwrap()))
}

impl Board {
    /// The board has exactly the parts `ps`, in order, none of them taken off.
    pub open spec fn has_parts(&self, ps: Seq<PartText>) -> bool {
        &&& self.parts@.len() == ps.len()
        &&& forall|i: int| 0 <= i < ps.len() ==> (#[trigger] self.parts@[i]) is Some && part_text(self.parts@[i].unwrap()) == ps[i]
    }
}

/// The lines of a text, each as its words.
pub open spec fn table(v: Seq<Vec<Vec<char>>>) -> Seq<Seq<Seq<char>>> {
    v.map_values(|r: Vec<Vec<char>>| texts(r@))
}

/// The words of each line of `text`.
fn split_rows(text: &str) -> (r: Vec<Vec<Vec<char>>>)
    ensures
        table(r@) == rows(text@),
{
    let cs = chars_of(text);
    let ls = split_lines(&cs);
    let mut r: Vec<Vec<Vec<char>>> = Vec::new();
    let mut i: usize = 0;
    while i < ls.len()
        invariant
            i <= ls@.len(),
            texts(ls@) == lines(text@),
            table(r@) == rows(text@).take(i as int),
        decreases ls@.len() - i,
    {
        let w = split_words(&ls[i]);
        let ghost r0 = r@;
        r.push(w);
        proof {
            assert(texts(ls@).len() == ls@.len());
            assert(rows(text@).len() == lines(text@).len());
            assert(table(r@) =~= table(r0).push(texts(w@)));
            assert(texts(ls@)[i as int] == ls@[i as int]@);
            assert(rows(text@)[i as int] == crate::words::words(lines(text@)[i as int]));
            assert(table(r@) =~= rows(text@).take(i + 1));
        }
        i = i + 1;
    }
    proof {
        assert(rows(text@).take(ls@.len() as int) =~= rows(text@));
    }
    r
}

/// The part a line asks for, if any.
fn read_part(f: &Vec<Vec<char>>) -> (r: Option<Part>)
    ensures
        match r {
            Some(p) => row_part(texts(f@)) == Some(part_text(p)),
            None => row_part(texts(f@)) is None,
        },
{
    let ghost t = texts(f@);
    if f.len() < 9 || !spells(&f[0], "part") {
        return None;
    }
    let kind = match Kind::from_code_chars(&f[1]) {
        Some(k) => k,
        None => {
            return None;
        },
    };
    proof {
        assert(code_kind(t[1]) is Some);
        let c = choose|k: Kind| kind_code(k) == t[1];
        crate::kind::lemma_words_name_again(LedColor::Red, c, kind);
        assert(code_kind(t[1]) == Some(kind));
    }
    let x = match parse_i32(&f[2]) {
        Some(v) => v,
        None => {
            return None;
        },
    };
    let y = match parse_i32(&f[3]) {
        Some(v) => v,
        None => {
            return None;
        },
    };
    let orient = match parse_u8(&f[4]) {
        Some(v) => v,
        None => {
            return None;
        },
    };
    if !is_float_word(&f[5]) {
        return None;
    }
    let value = string_of(&f[5]);
    let color = color_from_chars(&f[6]);
    let closed = spells(&f[7], "1");
    let burnt = spells(&f[8], "1");
    let p = Part { kind, x, y, orient, value, color, closed, burnt };
    proof {
        assert(row_part(t) == Some(part_text(p)));
    }
    Some(p)
}

/// Whether every part a line of `text` asks for lies on the grid.
pub fn text_fits_grid(text: &str) -> (r: bool)
    ensures
        r == parts_on_grid(text@),
{
    let rws = split_rows(text);
    let ghost rs = rows(text@);
    let mut i: usize = 0;
    while i < rws.len()
        invariant
            table(rws@) == rs,
            rs == rows(text@),
            i <= rs.len(),
            forall|j: int| 0 <= j < i && (#[trigger] row_part(rs[j])) is Some ==> on_grid(shape(row_part(rs[j]).unwrap())),
        decreases rs.len() - i,
    {
        proof {
            assert(texts(rws@[i as int]@) == rs[i as int]);
        }
        match read_part(&rws[i]) {
            Some(p) => {
                if !p.fits_grid() {
                    proof {
                        assert(on_grid(p) == on_grid(shape(part_text(p))));
                    }
                    return false;
                }
                proof {
                    assert(on_grid(p) == on_grid(shape(part_text(p))));
                }
            },
            None => {},
        }
        i = i + 1;
    }
    true
}

/// Apply a `wire` or `pin` line to the board.
fn apply_cell_row(b: &mut Board, f: &Vec<Vec<char>>)
    requires
        old(b).wf(),
    ensures
        final(b).wf(),
        final(b).parts@ == old(b).parts@,
        final(b).cells@ == cell_row_applied(texts(f@), old(b).cells@),
{
    let ghost t = texts(f@);
    let ghost cells0 = b.cells@;
    if f.len() != 4 {
        return;
    }
    proof {
        assert(t[0] == f@[0]@ && t[1] == f@[1]@ && t[2] == f@[2]@ && t[3] == f@[3]@);
        reveal_strlit("wire");
        reveal_strlit("pin");
        assert("wire"@.len() == 4 && "pin"@.len() == 3);
    }
    let x = match parse_i32(&f[1]) {
        Some(v) => v,
        None => {
            return;
        },
    };
    let y = match parse_i32(&f[2]) {
        Some(v) => v,
        None => {
            return;
        },
    };
    let m = match parse_u8(&f[3]) {
        Some(v) => v,
        None => {
            return;
        },
    };
    proof {
        assert(swap((x, y)) == (y, x));
    }
    if spells(&f[0], "wire") {
        if b.cell((x, y)).is_none() {
            b.add_wire((x, y), m);
        }
    } else if spells(&f[0], "pin") {
        b.change_mask((x, y), m);
    }
}

impl Board {
    /// The board a saved text describes. Lines of parts come first, whatever
    /// their place in the text: each part whose cells are free is placed.
    /// Then each `wire` line puts a wire on a free cell, and each `pin`
    /// line gives the wire or pin there its sides. Lines that do not read
    /// are passed over.
    pub fn from_text(text: &str) -> (b: Board)
        requires
            text@.len() + 2 < usize::MAX,
            parts_on_grid(text@),
        ensures
            b.wf(),
            b.has_parts(loaded_parts(text@)),
            b.cells@ == loaded_cells(text@),
    {
        let rws = split_rows(text);
        let ghost rs = rows(text@);
        proof {
            assert(rs.len() == lines(text@).len());
            crate::words::lemma_lines_count(text@);
        }
        let mut b = Board::new();
        let mut i: usize = 0;
        while i < rws.len()
            invariant
                table(rws@) == rs,
                rs == rows(text@),
                rs.len() <= text@.len() + 1,
                text@.len() + 2 < usize::MAX,
                parts_on_grid(text@),
                i <= rs.len(),
                b.wf(),
                b.parts@.len() <= i,
                b.has_parts(placed_after(rs, i as nat).0),
                b.cells@ == placed_after(rs, i as nat).1,
            decreases rs.len() - i,
        {
            let ghost st = placed_after(rs, i as nat);
            proof {
                assert(texts(rws@[i as int]@) == rs[i as int]);
            }
            match read_part(&rws[i]) {
                Some(p) => {
                    proof {
                        assert(row_part(rs[i as int]) is Some);
                        assert(on_grid(shape(row_part(rs[i as int]).unwrap())));
                        lemma_room_is_free(b, p);
                    }
                    let ghost b0 = b;
                    b.place(p);
                    proof {
                        let t = part_text(p);
                        assert(with_part(st.1, st.0.len() as usize, shape(t)) == with_part(st.1, st.0.len() as usize, p));
                        if free_in(st.1, shape(t)) {
                            assert forall|j: int| 0 <= j < st.0.len() + 1 implies (#[trigger] b.parts@[j]) is Some
                                && part_text(b.parts@[j].unwrap()) == st.0.push(t)[j] by {
                                if j < st.0.len() {
                                    assert(b0.parts@[j] is Some);
                                }
                            }
                        }
                    }
                },
                None => {},
            }
            i = i + 1;
        }
        let ghost m0 = placed_after(rs, rs.len()).1;
        proof {
            assert(b.cells@ == wired_after(rs, 0, m0));
        }
        let mut j: usize = 0;
        while j < rws.len()
            invariant
                table(rws@) == rs,
                rs == rows(text@),
                j <= rs.len(),
                b.wf(),
                b.has_parts(placed_after(rs, rs.len()).0),
                b.cells@ == wired_after(rs, j as nat, m0),
            decreases rs.len() - j,
        {
            let f = &rws[j];
            proof {
                assert(texts(f@) == rs[j as int]);
            }
            apply_cell_row(&mut b, f);
            j = j + 1;
        }
        b
    }
}

} // verus!
