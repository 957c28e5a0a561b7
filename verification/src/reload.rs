//! A saved board loads back as the board it was saved from.

use vstd::prelude::*;
use crate::board::{Board, Cell, swap, mask_of, with_mask, covers, with_part, pin_of, owner_of};
use crate::kind::{Kind, LedColor, kind_code, color_word, lemma_words_name_again};
use crate::numbers::{int_text, i32_of, u8_of, is_float, is_digit, lemma_int_text, is_number, is_mantissa,
    is_exponent, all_digits, same_word, lower, is_e};
use crate::part::{Part, on_grid, pin_cells, in_body, lemma_pins_shape};
use crate::save::{part_row, cell_rows, part_rows, cells_rows, in_key_order, bit_text, row_part, part_text, shape,
    code_kind, placed_after, cell_row_applied, wired_after, loaded_parts, loaded_cells, parts_on_grid, PartText};
use crate::words::{is_space, plain, rows, join_rows, lemma_rows_join};
use crate::net::Point;
use crate::geom::{step, spec_opposite};

verus! {

/// The parts there are, in index order, leaving out those taken off.
pub open spec fn present(ps: Seq<Option<Part>>) -> Seq<Part>
    decreases ps.len(),
{
    if ps.len() == 0 {
        Seq::empty()
    } else {
        present(ps.drop_last()) + match ps.last() {
            Some(p) => seq![p],
            None => Seq::empty(),
        }
    }
}

/// The number part `i` gets once the parts taken off are closed up: how
/// many parts there are before it.
pub open spec fn renumber(ps: Seq<Option<Part>>, i: int) -> int {
    present(ps.take(i)).len() as int
}

/// The cell with its part numbered as once the parts taken off are
/// closed up.
pub open spec fn renumbered(ps: Seq<Option<Part>>, c: Cell) -> Cell {
    match c {
        Cell::Wire(m) => Cell::Wire(m),
        Cell::Body(i) => Cell::Body(renumber(ps, i as int) as usize),
        Cell::Pin(i, k, m) => Cell::Pin(renumber(ps, i as int) as usize, k, m),
    }
}

/// Some part there is gets number `l` once the parts taken off are closed up.
pub open spec fn has_number(ps: Seq<Option<Part>>, l: int) -> bool {
    exists|i: int| 0 <= i < ps.len() && (#[trigger] ps[i]) is Some && renumber(ps, i) == l
}

/// The index on the board of the part numbered `l` once the gaps are
/// closed up.
pub open spec fn origin(ps: Seq<Option<Part>>, l: int) -> int {
    choose|i: int| 0 <= i < ps.len() && (#[trigger] ps[i]) is Some && renumber(ps, i) == l
}

/// Closing up keeps the parts in order, and every part there is gets a
/// number of its own.
proof fn lemma_present(ps: Seq<Option<Part>>)
    ensures
        present(ps).len() <= ps.len(),
        forall|i: int| 0 <= i < ps.len() && (#[trigger] ps[i]) is Some ==>
            renumber(ps, i) < present(ps).len() && present(ps)[renumber(ps, i)] == ps[i].unwrap(),
        forall|i: int, j: int| 0 <= i < j < ps.len() && (#[trigger] ps[i]) is Some && (#[trigger] ps[j]) is Some ==>
            renumber(ps, i) < renumber(ps, j),
        forall|l: int| 0 <= l < present(ps).len() ==> #[trigger] has_number(ps, l),
    decreases ps.len(),
{
    if ps.len() > 0 {
        let qs = ps.drop_last();
        lemma_present(qs);
        assert(ps.take(qs.len() as int) =~= qs);
        assert forall|i: int| 0 <= i < qs.len() implies #[trigger] renumber(ps, i) == renumber(qs, i) by {
            assert(ps.take(i) =~= qs.take(i));
        }
        assert forall|i: int| 0 <= i < ps.len() && (#[trigger] ps[i]) is Some implies
            renumber(ps, i) < present(ps).len() && present(ps)[renumber(ps, i)] == ps[i].unwrap() by {
            if i < qs.len() {
                assert(qs[i] == ps[i]);
                assert(renumber(ps, i) == renumber(qs, i));
            }
        }
        assert forall|i: int, j: int| 0 <= i < j < ps.len() && (#[trigger] ps[i]) is Some && (#[trigger] ps[j]) is Some implies
            renumber(ps, i) < renumber(ps, j) by {
            assert(qs[i] == ps[i]);
            assert(renumber(ps, i) == renumber(qs, i));
            if j < qs.len() {
                assert(qs[j] == ps[j]);
                assert(renumber(ps, j) == renumber(qs, j));
            }
        }
        assert forall|l: int| 0 <= l < present(ps).len() implies #[trigger] has_number(ps, l) by {
            if l < present(qs).len() {
                assert(has_number(qs, l));
                let i = choose|i: int| 0 <= i < qs.len() && (#[trigger] qs[i]) is Some && renumber(qs, i) == l;
                assert(ps[i] == qs[i]);
                assert(renumber(ps, i) == renumber(qs, i));
            } else {
                let i = qs.len() as int;
                assert(ps[i] is Some);
                assert(renumber(ps, i) == l);
            }
        }
    } else {
        assert forall|l: int| 0 <= l < present(ps).len() implies #[trigger] has_number(ps, l) by {}
    }
}

/// The part lines are the lines of the parts there are, in order.
proof fn lemma_part_rows(ps: Seq<Option<Part>>)
    ensures
        part_rows(ps) == present(ps).map_values(|p: Part| part_row(p)),
    decreases ps.len(),
{
    if ps.len() > 0 {
        lemma_part_rows(ps.drop_last());
        assert(part_rows(ps) =~= present(ps).map_values(|p: Part| part_row(p)));
    } else {
        assert(part_rows(ps) =~= present(ps).map_values(|p: Part| part_row(p)));
    }
}

/// A number's text is a plain word.
proof fn lemma_int_plain(n: int)
    ensures
        plain(int_text(n)),
{
    lemma_int_text(n);
    assert forall|i: int| 0 <= i < int_text(n).len() implies !is_space(#[trigger] int_text(n)[i]) by {
        assert(is_digit(int_text(n)[i]) || int_text(n)[i] == '-');
    }
}

/// A float's text is a plain word.
proof fn lemma_float_plain(t: Seq<char>)
    requires
        is_float(t),
    ensures
        plain(t),
{
    let signed = t.len() > 0 && (t[0] == '+' || t[0] == '-');
    let u = if signed { t.drop_first() } else { t };
    reveal_strlit("inf");
    reveal_strlit("infinity");
    reveal_strlit("nan");
    assert(u.len() > 0 && forall|i: int| 0 <= i < u.len() ==> !is_space(#[trigger] u[i])) by {
        if same_word(u, "inf"@) || same_word(u, "infinity"@) || same_word(u, "nan"@) {
            let w = if same_word(u, "inf"@) { "inf"@ } else if same_word(u, "infinity"@) { "infinity"@ } else { "nan"@ };
            assert(same_word(u, w));
            assert forall|i: int| 0 <= i < u.len() implies !is_space(#[trigger] u[i]) by {
                assert(lower(u[i]) == w[i]);
                assert(97 <= (w[i] as u32) <= 122);
            }
        } else {
            assert(is_number(u));
            lemma_number_plain(u);
        }
    }
    assert forall|i: int| 0 <= i < t.len() implies !is_space(#[trigger] t[i]) by {
        if signed && i > 0 {
            assert(t[i] == u[i - 1]);
        } else if !signed {
            assert(t[i] == u[i]);
        }
    }
}

/// Digits and a point are no white space.
proof fn lemma_mantissa_plain(m: Seq<char>)
    requires
        is_mantissa(m),
    ensures
        m.len() > 0,
        forall|i: int| 0 <= i < m.len() ==> !is_space(#[trigger] m[i]),
{
    if all_digits(m) && m.len() >= 1 {
        assert forall|i: int| 0 <= i < m.len() implies !is_space(#[trigger] m[i]) by {
            assert(is_digit(m[i]));
        }
    } else {
        let k = choose|k: int| 0 <= k < m.len() && #[trigger] m[k] == '.' && all_digits(m.take(k)) && all_digits(m.skip(k + 1)) && m.len() >= 2;
        assert forall|i: int| 0 <= i < m.len() implies !is_space(#[trigger] m[i]) by {
            if i < k {
                assert(is_digit(m.take(k)[i]));
            } else if i > k {
                assert(is_digit(m.skip(k + 1)[i - k - 1]));
            }
        }
    }
}

/// A number is no white space.
proof fn lemma_number_plain(u: Seq<char>)
    requires
        is_number(u),
    ensures
        u.len() > 0,
        forall|i: int| 0 <= i < u.len() ==> !is_space(#[trigger] u[i]),
{
    if is_mantissa(u) {
        lemma_mantissa_plain(u);
    } else {
        let k = choose|k: int| 0 <= k < u.len() && is_e(#[trigger] u[k]) && is_mantissa(u.take(k)) && is_exponent(u.skip(k + 1));
        lemma_mantissa_plain(u.take(k));
        let x = u.skip(k + 1);
        assert forall|i: int| 0 <= i < u.len() implies !is_space(#[trigger] u[i]) by {
            if i < k {
                assert(u[i] == u.take(k)[i]);
            } else if i > k {
                let j = i - k - 1;
                assert(u[i] == x[j]);
                if x.len() > 0 && (x[0] == '+' || x[0] == '-') {
                    if j > 0 {
                        assert(is_digit(x.drop_first()[j - 1]));
                    }
                } else {
                    assert(is_digit(x[j]));
                }
            }
        }
    }
}

/// The fixed words of saved lines are plain words.
proof fn lemma_words_plain()
    ensures
        plain("part"@),
        plain("wire"@),
        plain("pin"@),
        plain("0"@),
        plain("1"@),
        "0"@ != "1"@,
        "part"@ != "wire"@,
        "part"@ != "pin"@,
        "wire"@ != "pin"@,
        forall|k: Kind| plain(#[trigger] kind_code(k)),
        forall|c: LedColor| plain(#[trigger] color_word(c)),
{
    reveal_strlit("part");
    reveal_strlit("wire");
    reveal_strlit("pin");
    reveal_strlit("0");
    reveal_strlit("1");
    reveal_strlit("red");
    reveal_strlit("green");
    reveal_strlit("yellow");
    reveal_strlit("blue");
    reveal_strlit("battery");
    reveal_strlit("resistor");
    reveal_strlit("capacitor");
    reveal_strlit("led");
    reveal_strlit("switch");
    reveal_strlit("npn");
    reveal_strlit("button");
    reveal_strlit("not");
    reveal_strlit("and");
    reveal_strlit("or");
    reveal_strlit("nand");
    reveal_strlit("nor");
    reveal_strlit("xor");
    reveal_strlit("clock");
    reveal_strlit("counter");
    reveal_strlit("display");
    reveal_strlit("timer");
    assert("0"@[0] != "1"@[0]);
    assert("part"@.len() != "pin"@.len());
    assert("wire"@.len() != "pin"@.len());
    assert("part"@[0] != "wire"@[0]);
    assert forall|k: Kind| plain(#[trigger] kind_code(k)) by {
        let w = kind_code(k);
        assert forall|i: int| 0 <= i < w.len() implies !is_space(#[trigger] w[i]) by {
            assert(97 <= (w[i] as u32) <= 122);
        }
    }
    assert forall|c: LedColor| plain(#[trigger] color_word(c)) by {
        let w = color_word(c);
        assert forall|i: int| 0 <= i < w.len() implies !is_space(#[trigger] w[i]) by {
            assert(97 <= (w[i] as u32) <= 122);
        }
    }
    assert forall|i: int| 0 <= i < "part"@.len() implies !is_space(#[trigger] "part"@[i]) by {
        assert(97 <= ("part"@[i] as u32) <= 122);
    }
    assert forall|i: int| 0 <= i < "wire"@.len() implies !is_space(#[trigger] "wire"@[i]) by {
        assert(97 <= ("wire"@[i] as u32) <= 122);
    }
    assert forall|i: int| 0 <= i < "pin"@.len() implies !is_space(#[trigger] "pin"@[i]) by {
        assert(97 <= ("pin"@[i] as u32) <= 122);
    }
}

/// A part's line reads back as the part.
proof fn lemma_part_row_reads(p: Part)
    requires
        is_float(p.value@),
    ensures
        row_part(part_row(p)) == Some(part_text(p)),
        forall|i: int| 0 <= i < part_row(p).len() ==> plain(#[trigger] part_row(p)[i]),
        part_row(p).len() == 9,
{
    let f = part_row(p);
    lemma_words_plain();
    lemma_int_text(p.x as int);
    lemma_int_text(p.y as int);
    lemma_int_text(p.orient as int);
    lemma_int_plain(p.x as int);
    lemma_int_plain(p.y as int);
    lemma_int_plain(p.orient as int);
    lemma_float_plain(p.value@);
    assert(code_kind(kind_code(p.kind)) == Some(p.kind)) by {
        let c = choose|k: Kind| #[trigger] kind_code(k) == kind_code(p.kind);
        lemma_words_name_again(p.color, c, p.kind);
    }
    lemma_words_name_again(p.color, p.kind, p.kind);
    assert(i32_of(f[2]) == Some(p.x));
    assert(i32_of(f[3]) == Some(p.y));
    assert(u8_of(f[4]) == Some(p.orient));
    assert(row_part(f) == Some(part_text(p)));
    assert forall|i: int| 0 <= i < f.len() implies plain(#[trigger] f[i]) by {
        if i == 7 || i == 8 {
            assert(f[i] == bit_text(p.closed) || f[i] == bit_text(p.burnt));
        }
    }
}

/// The cells after the parts `ps[..j]` are put down in turn, each numbered
/// by its place in `ps`.
pub open spec fn laid(ps: Seq<Part>, j: nat) -> Map<(i32, i32), Cell>
    decreases j,
{
    if j == 0 {
        Map::empty()
    } else {
        with_part(laid(ps, (j - 1) as nat), (j - 1) as usize, ps[j - 1])
    }
}

/// The cell that part `p`, put down as number `l`, has at `at`.
pub open spec fn laid_cell(p: Part, l: int, at: (i32, i32)) -> Cell {
    if in_body(p, at) {
        Cell::Body(l as usize)
    } else {
        Cell::Pin(l as usize, pin_cells(p).index_of(at) as usize, 0)
    }
}

/// Some part among `ps[..j]` covers `at`.
pub open spec fn covered(ps: Seq<Part>, j: int, at: (i32, i32)) -> bool {
    exists|l: int| 0 <= l < j && #[trigger] covers(ps[l], at)
}

/// No two of the parts share a cell.
pub open spec fn apart(ps: Seq<Part>) -> bool {
    forall|l1: int, l2: int, at: (i32, i32)| 0 <= l1 < l2 < ps.len() && #[trigger] covers(ps[l1], at) ==> !#[trigger] covers(ps[l2], at)
}

/// Parts that share no cell, put down in turn, each keep their own cells.
proof fn lemma_laid(ps: Seq<Part>, j: nat)
    requires
        j <= ps.len(),
        apart(ps),
    ensures
        forall|l: int, at: (i32, i32)| 0 <= l < j && #[trigger] covers(ps[l], at) ==>
            laid(ps, j).contains_key(swap(at)) && laid(ps, j)[swap(at)] == laid_cell(ps[l], l, at),
        forall|key: (i32, i32)| #[trigger] laid(ps, j).contains_key(key) ==> covered(ps, j as int, swap(key)),
    decreases j,
{
    if j > 0 {
        let jj = (j - 1) as nat;
        lemma_laid(ps, jj);
        let m = laid(ps, jj);
        let p = ps[jj as int];
        assert forall|l: int, at: (i32, i32)| 0 <= l < j && #[trigger] covers(ps[l], at) implies
            laid(ps, j).contains_key(swap(at)) && laid(ps, j)[swap(at)] == laid_cell(ps[l], l, at) by {
            assert(swap(swap(at)) == at);
            if l < jj {
                assert(!covers(ps[jj as int], at));
            }
        }
        assert forall|key: (i32, i32)| #[trigger] laid(ps, j).contains_key(key) implies covered(ps, j as int, swap(key)) by {
            if m.contains_key(key) {
                assert(covered(ps, jj as int, swap(key)));
                let l = choose|l: int| 0 <= l < jj && #[trigger] covers(ps[l], swap(key));
                assert(covers(ps[l], swap(key)));
            } else {
                assert(covers(ps[jj as int], swap(key)));
            }
        }
    }
}

/// The lines `rs` applied to the cells `m` in turn.
pub open spec fn wired_rows(rs: Seq<Seq<Seq<char>>>, m: Map<(i32, i32), Cell>) -> Map<(i32, i32), Cell>
    decreases rs.len(),
{
    if rs.len() == 0 {
        m
    } else {
        cell_row_applied(rs.last(), wired_rows(rs.drop_last(), m))
    }
}

proof fn lemma_wired_after(rs: Seq<Seq<Seq<char>>>, n: nat, m: Map<(i32, i32), Cell>)
    requires
        n <= rs.len(),
    ensures
        wired_after(rs, n, m) == wired_rows(rs.take(n as int), m),
    decreases n,
{
    if n > 0 {
        lemma_wired_after(rs, (n - 1) as nat, m);
        assert(rs.take(n as int).drop_last() =~= rs.take(n - 1));
    }
}

proof fn lemma_wired_concat(a: Seq<Seq<Seq<char>>>, b: Seq<Seq<Seq<char>>>, m: Map<(i32, i32), Cell>)
    ensures
        wired_rows(a + b, m) == wired_rows(b, wired_rows(a, m)),
    decreases b.len(),
{
    if b.len() == 0 {
        assert(a + b =~= a);
    } else {
        lemma_wired_concat(a, b.drop_last(), m);
        assert((a + b).drop_last() =~= a + b.drop_last());
        assert((a + b).last() == b.last());
    }
}

/// Lines that are not four words long change no cell.
proof fn lemma_wired_skip(rs: Seq<Seq<Seq<char>>>, m: Map<(i32, i32), Cell>)
    requires
        forall|i: int| 0 <= i < rs.len() ==> (#[trigger] rs[i]).len() != 4,
    ensures
        wired_rows(rs, m) == m,
    decreases rs.len(),
{
    if rs.len() > 0 {
        lemma_wired_skip(rs.drop_last(), m);
        assert(rs.last() == rs[rs.len() - 1]);
    }
}

/// The cells of `m0` with those at `ks` taken from `f`.
pub open spec fn overlay(m0: Map<(i32, i32), Cell>, f: Map<(i32, i32), Cell>, ks: Seq<(i32, i32)>) -> Map<(i32, i32), Cell> {
    Map::new(
        |key: (i32, i32)| m0.contains_key(key) || ks.contains(key),
        |key: (i32, i32)| if ks.contains(key) { f[key] } else { m0[key] },
    )
}

/// A pin with no wires joined; any other cell as it is.
pub open spec fn unjoined(c: Cell) -> Cell {
    match c {
        Cell::Pin(i, k, _) => Cell::Pin(i, k, 0),
        _ => c,
    }
}

/// The wire and pin lines of the cells at `ks`, applied to the cells the
/// parts were put down on, give those cells as they were saved.
proof fn lemma_wired_cells(cells: Map<(i32, i32), Cell>, f: Map<(i32, i32), Cell>, m0: Map<(i32, i32), Cell>, ks: Seq<(i32, i32)>)
    requires
        ks.no_duplicates(),
        forall|i: int| 0 <= i < ks.len() ==> cells.contains_key(#[trigger] ks[i]),
        f.dom() == cells.dom(),
        forall|key: (i32, i32)| #[trigger] cells.contains_key(key) ==> match cells[key] {
            Cell::Wire(m) => f[key] == Cell::Wire(m) && !m0.contains_key(key),
            Cell::Body(_) => f[key] is Body && m0.contains_key(key) && m0[key] == f[key],
            Cell::Pin(_, _, m) => pin_of(f[key]) is Some && mask_of(f[key]) == Some(m) && m0.contains_key(key) && m0[key] == unjoined(f[key]),
        },
    ensures
        wired_rows(cells_rows(cells, ks), m0) == overlay(m0, f, ks),
    decreases ks.len(),
{
    if ks.len() == 0 {
        assert(overlay(m0, f, ks) =~= m0);
    } else {
        let k = ks.last();
        let ks0 = ks.drop_last();
        assert forall|i: int| 0 <= i < ks0.len() implies cells.contains_key(#[trigger] ks0[i]) by {
            assert(ks0[i] == ks[i]);
        }
        assert(ks0.no_duplicates()) by {
            assert forall|a: int, b: int| 0 <= a < ks0.len() && 0 <= b < ks0.len() && a != b implies ks0[a] != ks0[b] by {
                assert(ks0[a] == ks[a] && ks0[b] == ks[b]);
            }
        }
        lemma_wired_cells(cells, f, m0, ks0);
        let before = overlay(m0, f, ks0);
        assert(!ks0.contains(k)) by {
            if ks0.contains(k) {
                let a = choose|a: int| 0 <= a < ks0.len() && ks0[a] == k;
                assert(ks[a] == ks[ks.len() - 1]);
            }
        }
        assert(cells.contains_key(k)) by {
            assert(ks[ks.len() - 1] == k);
        }
        lemma_wired_concat(cells_rows(cells, ks0), cell_rows(k, cells[k]), m0);
        assert(cells_rows(cells, ks) == cells_rows(cells, ks0) + cell_rows(k, cells[k]));
        assert forall|key: (i32, i32)| #[trigger] ks.contains(key) <==> ks0.contains(key) || key == k by {
            if ks.contains(key) && key != k {
                let a = choose|a: int| 0 <= a < ks.len() && ks[a] == key;
                assert(ks0[a] == key);
            }
            if ks0.contains(key) {
                let a = choose|a: int| 0 <= a < ks0.len() && ks0[a] == key;
                assert(ks[a] == key);
            }
            if key == k {
                assert(ks[ks.len() - 1] == key);
            }
        }
        lemma_words_plain();
        match cells[k] {
            Cell::Wire(m) => {
                let row = seq!["wire"@, int_text(k.1 as int), int_text(k.0 as int), int_text(m as int)];
                lemma_int_text(k.1 as int);
                lemma_int_text(k.0 as int);
                lemma_int_text(m as int);
                assert(cell_rows(k, cells[k]) == seq![row]);
                assert(seq![row].drop_last() =~= Seq::<Seq<Seq<char>>>::empty());
                    assert(wired_rows(Seq::<Seq<Seq<char>>>::empty(), before) == before);
                    assert(seq![row].last() == row);
                assert(wired_rows(seq![row], before) == cell_row_applied(row, before));
                assert(!before.contains_key(k));
                assert(cell_row_applied(row, before) =~= overlay(m0, f, ks));
            },
            Cell::Pin(_, _, m) => {
                if m != 0 {
                    let row = seq!["pin"@, int_text(k.1 as int), int_text(k.0 as int), int_text(m as int)];
                    lemma_int_text(k.1 as int);
                    lemma_int_text(k.0 as int);
                    lemma_int_text(m as int);
                    assert(cell_rows(k, cells[k]) == seq![row]);
                    assert(seq![row].drop_last() =~= Seq::<Seq<Seq<char>>>::empty());
                    assert(wired_rows(Seq::<Seq<Seq<char>>>::empty(), before) == before);
                    assert(seq![row].last() == row);
                    assert(wired_rows(seq![row], before) == cell_row_applied(row, before));
                    assert(before.contains_key(k));
                    assert(before[k] == unjoined(f[k]));
                    assert(with_mask(unjoined(f[k]), m) == f[k]);
                    assert(cell_row_applied(row, before) =~= overlay(m0, f, ks));
                } else {
                    assert(cell_rows(k, cells[k]) =~= Seq::<Seq<Seq<char>>>::empty());
                    assert(unjoined(f[k]) == f[k]);
                    assert(before =~= overlay(m0, f, ks));
                }
            },
            Cell::Body(_) => {
                assert(cell_rows(k, cells[k]) =~= Seq::<Seq<Seq<char>>>::empty());
                assert(before =~= overlay(m0, f, ks));
            },
        }
    }
}

/// Every line of the cells is four plain words, the first `wire` or `pin`.
proof fn lemma_cells_rows_shape(m: Map<(i32, i32), Cell>, ks: Seq<(i32, i32)>)
    ensures
        forall|r: int| 0 <= r < cells_rows(m, ks).len() ==> (#[trigger] cells_rows(m, ks)[r]).len() == 4
            && (cells_rows(m, ks)[r][0] == "wire"@ || cells_rows(m, ks)[r][0] == "pin"@)
            && forall|i: int| 0 <= i < 4 ==> plain(#[trigger] cells_rows(m, ks)[r][i]),
    decreases ks.len(),
{
    if ks.len() > 0 {
        lemma_cells_rows_shape(m, ks.drop_last());
        let k = ks.last();
        lemma_words_plain();
        lemma_int_plain(k.0 as int);
        lemma_int_plain(k.1 as int);
        match m[k] {
            Cell::Wire(x) => {
                lemma_int_plain(x as int);
            },
            Cell::Pin(_, _, x) => {
                lemma_int_plain(x as int);
            },
            _ => {},
        }
        let a = cells_rows(m, ks.drop_last());
        let c = cell_rows(k, m[k]);
        assert(cells_rows(m, ks) == a + c);
        assert forall|r: int| 0 <= r < (a + c).len() implies (#[trigger] (a + c)[r]).len() == 4
            && ((a + c)[r][0] == "wire"@ || (a + c)[r][0] == "pin"@)
            && forall|i: int| 0 <= i < 4 ==> plain(#[trigger] (a + c)[r][i]) by {
            if r < a.len() {
                assert((a + c)[r] == a[r]);
            } else {
                assert((a + c)[r] == c[r - a.len()]);
            }
        }
    }
}

/// A cell that a part on a consistent board covers is that part's.
proof fn lemma_owner(b: Board, i: int, at: (i32, i32))
    requires
        b.wf(),
        b.is_part(i),
        covers(b.part_ref(i), at),
    ensures
        b.holds(at),
        owner_of(b.cell_at(at)) == Some(i as usize),
{
    assert(b.placed(i));
    let p = b.part_ref(i);
    if !in_body(p, at) {
        let k = choose|k: int| 0 <= k < pin_cells(p).len() && pin_cells(p)[k] == at;
        assert(b.holds(pin_cells(p)[k]));
    }
}

/// The element of `s` at `k`, when `s` holds each element once, is found
/// at `k`.
proof fn lemma_index_of<A>(s: Seq<A>, k: int)
    requires
        s.no_duplicates(),
        0 <= k < s.len(),
    ensures
        s.index_of(s[k]) == k,
{
    assert(s.contains(s[k]));
    let j = s.index_of(s[k]);
    assert(s[j] == s[k]);
}

/// A saved board loads back as the board it was saved from: the same parts
/// in the same order, with the gaps that parts taken off left closed up,
/// and every cell as it was, its part numbered afresh.
pub proof fn lemma_saved_board_loads_back(b: Board, keys: Seq<(i32, i32)>)
    requires
        b.wf(),
        b.parts@.len() <= usize::MAX,
        in_key_order(b.cells@, keys),
    ensures
        parts_on_grid(join_rows(b.saved_rows(keys))),
        loaded_parts(join_rows(b.saved_rows(keys))) == present(b.parts@).map_values(|p: Part| part_text(p)),
        loaded_cells(join_rows(b.saved_rows(keys))) == b.cells@.map_values(|c: Cell| renumbered(b.parts@, c)),
{
    let ps = b.parts@;
    let q = present(ps);
    let n = q.len();
    lemma_present(ps);
    lemma_part_rows(ps);
    let pr = part_rows(ps);
    let cr = cells_rows(b.cells@, keys);
    let r = b.saved_rows(keys);
    let text = join_rows(r);
    lemma_cells_rows_shape(b.cells@, keys);
    assert(r == pr + cr);
    assert(pr.len() == n);
    // Each part there is, with the index it has on the board.
    assert forall|l: int| 0 <= l < n implies b.is_part(#[trigger] origin(ps, l)) && q[l] == b.part_ref(origin(ps, l))
        && renumber(ps, origin(ps, l)) == l by {
        assert(has_number(ps, l));
        let i = origin(ps, l);
        assert(ps[i] is Some);
    }
    assert forall|l: int| 0 <= l < n implies on_grid(#[trigger] q[l]) && is_float(q[l].value@) by {
        let i = origin(ps, l);
        assert(b.is_part(i));
        assert(b.placed(i));
    }
    // The lines are plain words, so the text splits back into them.
    assert forall|x: int, i: int| 0 <= x < r.len() && 0 <= i < r[x].len() implies plain(#[trigger] r[x][i]) by {
        if x < n {
            assert(r[x] == pr[x]);
            assert(pr[x] == part_row(q[x]));
            lemma_part_row_reads(q[x]);
        } else {
            assert(r[x] == cr[x - n]);
        }
    }
    lemma_rows_join(r);
    let rt = r.push(Seq::empty());
    assert(rows(text) == rt);
    // Which lines ask for parts.
    assert forall|x: int| 0 <= x < rt.len() implies #[trigger] row_part(rt[x]) == if x < n { Some(part_text(q[x])) } else { None::<PartText> } by {
        if x < n {
            assert(rt[x] == pr[x]);
            assert(pr[x] == part_row(q[x]));
            lemma_part_row_reads(q[x]);
        } else if x < r.len() {
            assert(rt[x] == cr[x - n]);
            assert(cr[x - n].len() == 4);
        } else {
            assert(rt[x].len() == 0);
        }
    }
    assert(parts_on_grid(text)) by {
        assert forall|x: int| 0 <= x < rows(text).len() && (#[trigger] row_part(rows(text)[x])) is Some implies on_grid(shape(row_part(rows(text)[x]).unwrap())) by {
            assert(row_part(rt[x]) is Some);
            assert(x < n);
            assert(on_grid(q[x]));
        }
    }
    // No two parts share a cell.
    assert(apart(q)) by {
        assert forall|l1: int, l2: int, at: (i32, i32)| 0 <= l1 < l2 < q.len() && #[trigger] covers(q[l1], at) implies !#[trigger] covers(q[l2], at) by {
            let i1 = origin(ps, l1);
            let i2 = origin(ps, l2);
            assert(b.is_part(i1) && q[l1] == b.part_ref(i1));
            assert(b.is_part(i2) && q[l2] == b.part_ref(i2));
            assert(renumber(ps, i1) == l1);
            assert(renumber(ps, i2) == l2);
            if covers(q[l2], at) {
                lemma_owner(b, i1, at);
                lemma_owner(b, i2, at);
                assert(i1 as usize == i2 as usize);
                assert(i1 == i2);
            }
        }
    }
    // The part lines put the parts down in turn.
    lemma_placed_parts(rt, q, n);
    lemma_placed_rest(rt, n, rt.len());
    assert(loaded_parts(text) =~= q.map_values(|p: Part| part_text(p))) by {
        assert(q.take(n as int) =~= q);
    }
    // The wire and pin lines then give every cell as it was saved.
    let m0 = laid(q, n);
    lemma_laid(q, n);
    let f = b.cells@.map_values(|c: Cell| renumbered(ps, c));
    assert forall|key: (i32, i32)| #[trigger] b.cells@.contains_key(key) implies match b.cells@[key] {
        Cell::Wire(m) => f[key] == Cell::Wire(m) && !m0.contains_key(key),
        Cell::Body(_) => f[key] is Body && m0.contains_key(key) && m0[key] == f[key],
        Cell::Pin(_, _, m) => pin_of(f[key]) is Some && mask_of(f[key]) == Some(m) && m0.contains_key(key) && m0[key] == unjoined(f[key]),
    } by {
        let at = swap(key);
        assert(swap(at) == key);
        assert(b.holds(at));
        assert(b.cell_ok(at));
        match b.cells@[key] {
            Cell::Wire(m) => {
                if m0.contains_key(key) {
                    assert(covered(q, n as int, at));
                    let l = choose|l: int| 0 <= l < n && #[trigger] covers(q[l], at);
                    let i = origin(ps, l);
                    assert(b.is_part(i) && q[l] == b.part_ref(i));
                    lemma_owner(b, i, at);
                }
            },
            Cell::Body(i) => {
                let l = renumber(ps, i as int);
                assert(ps[i as int] is Some);
                assert(q[l] == b.part_ref(i as int));
                assert(covers(q[l], at));
            },
            Cell::Pin(i, k, m) => {
                let l = renumber(ps, i as int);
                assert(ps[i as int] is Some);
                let p = b.part_ref(i as int);
                assert(q[l] == p);
                assert(pin_cells(p)[k as int] == at);
                assert(covers(q[l], at));
                lemma_pins_shape(p);
                assert(!in_body(p, at));
                lemma_index_of(pin_cells(p), k as int);
            },
        }
    }
    assert forall|i: int| 0 <= i < keys.len() implies b.cells@.contains_key(#[trigger] keys[i]) by {
        assert(keys.contains(keys[i]));
    }
    assert(f.dom() =~= b.cells@.dom());
    lemma_wired_cells(b.cells@, f, m0, keys);
    lemma_wired_after(rt, rt.len(), m0);
    assert(rt.take(rt.len() as int) =~= rt);
    assert(rt =~= pr + cr + seq![Seq::<Seq<char>>::empty()]);
    lemma_wired_concat(pr + cr, seq![Seq::<Seq<char>>::empty()], m0);
    lemma_wired_concat(pr, cr, m0);
    assert forall|x: int| 0 <= x < pr.len() implies (#[trigger] pr[x]).len() != 4 by {
        lemma_part_row_reads(q[x]);
    }
    lemma_wired_skip(pr, m0);
    assert forall|x: int| 0 <= x < 1 implies (#[trigger] seq![Seq::<Seq<char>>::empty()][x]).len() != 4 by {}
    lemma_wired_skip(seq![Seq::<Seq<char>>::empty()], overlay(m0, f, keys));
    assert(overlay(m0, f, keys) =~= f) by {
        assert forall|key: (i32, i32)| #[trigger] m0.contains_key(key) implies b.cells@.contains_key(key) by {
            let at = swap(key);
            assert(swap(at) == key);
            assert(covered(q, n as int, at));
            let l = choose|l: int| 0 <= l < n && #[trigger] covers(q[l], at);
            let i = origin(ps, l);
            assert(b.is_part(i) && q[l] == b.part_ref(i));
            lemma_owner(b, i, at);
        }
    }
}

/// The part lines put the parts down in turn.
proof fn lemma_placed_parts(rt: Seq<Seq<Seq<char>>>, q: Seq<Part>, j: nat)
    requires
        j <= q.len() <= rt.len(),
        apart(q),
        forall|x: int| 0 <= x < rt.len() ==> #[trigger] row_part(rt[x]) == if x < q.len() { Some(part_text(q[x])) } else { None::<PartText> },
    ensures
        placed_after(rt, j) == (q.take(j as int).map_values(|p: Part| part_text(p)), laid(q, j)),
    decreases j,
{
    if j > 0 {
        let jj = (j - 1) as nat;
        lemma_placed_parts(rt, q, jj);
        lemma_laid(q, jj);
        let p = q[jj as int];
        let t = part_text(p);
        assert(row_part(rt[jj as int]) == Some(t));
        let m = laid(q, jj);
        assert forall|at: (i32, i32)| #[trigger] covers(shape(t), at) implies !m.contains_key(swap(at)) by {
            assert(pin_cells(shape(t)) == pin_cells(p));
            assert(covers(p, at));
            assert(swap(swap(at)) == at);
            if m.contains_key(swap(at)) {
                assert(covered(q, jj as int, at));
                let l = choose|l: int| 0 <= l < jj && #[trigger] covers(q[l], at);
            }
        }
        assert(with_part(m, jj as usize, shape(t)) =~= with_part(m, jj as usize, p)) by {
            assert(pin_cells(shape(t)) == pin_cells(p));
        }
        assert(q.take(jj as int).map_values(|p: Part| part_text(p)).push(t) =~= q.take(j as int).map_values(|p: Part| part_text(p)));
    } else {
        assert(q.take(0).map_values(|p: Part| part_text(p)) =~= Seq::<PartText>::empty());
    }
}

/// Lines that ask for no part place none.
proof fn lemma_placed_rest(rt: Seq<Seq<Seq<char>>>, n: nat, j: nat)
    requires
        n <= j <= rt.len(),
        forall|x: int| n <= x < rt.len() ==> (#[trigger] row_part(rt[x])) is None,
    ensures
        placed_after(rt, j) == placed_after(rt, n),
    decreases j,
{
    if j > n {
        lemma_placed_rest(rt, n, (j - 1) as nat);
        assert(row_part(rt[j - 1]) is None);
    }
}

/// Saving a board and loading it back keeps its circuit: every wire and
/// pin is where it was with the same sides, so the same cells are linked
/// and the same points are joined through wires.
pub proof fn lemma_save_keeps_the_circuit(b: Board, back: Board, keys: Seq<(i32, i32)>)
    requires
        b.wf(),
        b.parts@.len() <= usize::MAX,
        in_key_order(b.cells@, keys),
        back.cells@ == loaded_cells(join_rows(b.saved_rows(keys))),
    ensures
        forall|at: (i32, i32)| #[trigger] back.wire_like(at) == b.wire_like(at),
        forall|at: (i32, i32)| #[trigger] back.mask_at(at) == b.mask_at(at),
        forall|at: (i32, i32), d: u8| #[trigger] back.link(at, d) == b.link(at, d),
        forall|p: Point| #[trigger] back.is_point(p) == b.is_point(p),
        forall|p: Point, q: Point| #[trigger] back.connected(p, q) == b.connected(p, q),
{
    lemma_saved_board_loads_back(b, keys);
    let f = b.cells@.map_values(|c: Cell| renumbered(b.parts@, c));
    assert(back.cells@ == f);
    assert forall|at: (i32, i32)| #[trigger] back.wire_like(at) == b.wire_like(at) && back.mask_at(at) == b.mask_at(at) by {
        if b.holds(at) {
            assert(f[swap(at)] == renumbered(b.parts@, b.cells@[swap(at)]));
        }
    }
    assert forall|at: (i32, i32)| #[trigger] back.mask_at(at) == b.mask_at(at) by {
        assert(back.wire_like(at) == b.wire_like(at) && back.mask_at(at) == b.mask_at(at));
    }
    assert forall|at: (i32, i32), d: u8| #[trigger] back.link(at, d) == b.link(at, d) by {
        assert(back.wire_like(at) == b.wire_like(at) && back.mask_at(at) == b.mask_at(at));
        assert(back.wire_like(step(at, d)) == b.wire_like(step(at, d)) && back.mask_at(step(at, d)) == b.mask_at(step(at, d)));
    }
    assert forall|p: Point| #[trigger] back.is_point(p) == b.is_point(p) by {
        assert(back.wire_like(p.0) == b.wire_like(p.0) && back.mask_at(p.0) == b.mask_at(p.0));
    }
    assert forall|at: (i32, i32), d: u8| #[trigger] back.side_point(at, d) == b.side_point(at, d) by {
        assert(back.mask_at(at) == b.mask_at(at));
    }
    assert forall|lab: spec_fn(Point) -> int| #[trigger] back.respects(lab) == b.respects(lab) by {
        assert forall|at: (i32, i32), d: u8| #[trigger] back.link(at, d) implies
            (lab(back.side_point(at, d)) == lab(back.side_point(step(at, d), spec_opposite(d))))
            == (lab(b.side_point(at, d)) == lab(b.side_point(step(at, d), spec_opposite(d)))) by {
            assert(back.side_point(at, d) == b.side_point(at, d));
            assert(back.side_point(step(at, d), spec_opposite(d)) == b.side_point(step(at, d), spec_opposite(d)));
        }
        if back.respects(lab) {
            assert forall|at: (i32, i32), d: u8| #[trigger] b.link(at, d) implies lab(b.side_point(at, d)) == lab(b.side_point(step(at, d), spec_opposite(d))) by {
                assert(back.link(at, d));
            }
        }
        if b.respects(lab) {
            assert forall|at: (i32, i32), d: u8| #[trigger] back.link(at, d) implies lab(back.side_point(at, d)) == lab(back.side_point(step(at, d), spec_opposite(d))) by {
                assert(b.link(at, d));
            }
        }
    }
    assert forall|p: Point, q: Point| #[trigger] back.connected(p, q) == b.connected(p, q) by {
        if back.connected(p, q) {
            assert forall|lab: spec_fn(Point) -> int| #[trigger] b.respects(lab) implies lab(p) == lab(q) by {
                assert(back.respects(lab));
            }
        }
        if b.connected(p, q) {
            assert forall|lab: spec_fn(Point) -> int| #[trigger] back.respects(lab) implies lab(p) == lab(q) by {
                assert(b.respects(lab));
            }
        }
    }
}

} // verus!
