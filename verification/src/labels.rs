//! Short texts for the screen: a count as powers of two, a capitalised
//! word, text wrapped to a width, and the file each board is kept in.

use vstd::prelude::*;
use crate::chars::{chars_of, push_str, push_chars, string_of};
use crate::numbers::{nat_text, push_nat};
use crate::words::{words, pending, split_words, texts};

verus! {

/// The powers of two among 8, 4, 2 and 1 that make up `v`, largest first,
/// in decimal.
pub open spec fn binary_terms(v: u8) -> Seq<Seq<char>> {
    (if v & 8 != 0 { seq![seq!['8']] } else { Seq::empty() })
        + (if v & 4 != 0 { seq![seq!['4']] } else { Seq::empty() })
        + (if v & 2 != 0 { seq![seq!['2']] } else { Seq::empty() })
        + (if v & 1 != 0 { seq![seq!['1']] } else { Seq::empty() })
}

/// The terms written out with ` + ` between each two.
pub open spec fn join_plus(ts: Seq<Seq<char>>) -> Seq<char>
    decreases ts.len(),
{
    if ts.len() == 0 {
        Seq::empty()
    } else if ts.len() == 1 {
        ts[0]
    } else {
        ts[0] + seq![' ', '+', ' '] + join_plus(ts.drop_first())
    }
}

/// A count as the powers of two it is made of: 13 is `8 + 4 + 1`, and 0
/// is `0`.
pub open spec fn binary_sum_text(v: u8) -> Seq<char> {
    if binary_terms(v).len() == 0 {
        seq!['0']
    } else {
        join_plus(binary_terms(v))
    }
}

/// Adding a term adds ` + ` and the term.
proof fn lemma_join_plus_push(ts: Seq<Seq<char>>, t: Seq<char>)
    ensures
        join_plus(ts.push(t)) == if ts.len() == 0 { t } else { join_plus(ts) + seq![' ', '+', ' '] + t },
    decreases ts.len(),
{
    if ts.len() == 1 {
        assert(ts.push(t).drop_first() =~= seq![t]);
        assert(join_plus(seq![t]) == t);
    } else if ts.len() > 1 {
        lemma_join_plus_push(ts.drop_first(), t);
        assert(ts.push(t).drop_first() =~= ts.drop_first().push(t));
        assert(join_plus(ts.push(t)) =~= join_plus(ts) + seq![' ', '+', ' '] + t);
    }
}

/// A count as the powers of two it is made of: 13 is "8 + 4 + 1".
pub fn binary_sum(v: u8) -> (r: String)
    ensures
        r@ == binary_sum_text(v),
{
    let bits: [u8; 4] = [8, 4, 2, 1];
    let digits: [char; 4] = ['8', '4', '2', '1'];
    let mut out: Vec<char> = Vec::new();
    let mut n: usize = 0;
    let ghost mut ts: Seq<Seq<char>> = Seq::empty();
    let mut k: usize = 0;
    while k < 4
        invariant
            k <= 4,
            bits@ == seq![8u8, 4u8, 2u8, 1u8],
            digits@ == seq!['8', '4', '2', '1'],
            n == ts.len(),
            out@ == join_plus(ts),
            ts == (if k > 0 && v & 8 != 0 { seq![seq!['8']] } else { Seq::empty() })
                + (if k > 1 && v & 4 != 0 { seq![seq!['4']] } else { Seq::empty() })
                + (if k > 2 && v & 2 != 0 { seq![seq!['2']] } else { Seq::empty() })
                + (if k > 3 && v & 1 != 0 { seq![seq!['1']] } else { Seq::empty() }),
        decreases 4 - k,
    {
        let b = bits[k];
        if v & b != 0 {
            if n > 0 {
                out.push(' ');
                out.push('+');
                out.push(' ');
            }
            out.push(digits[k]);
            proof {
                lemma_join_plus_push(ts, seq![digits@[k as int]]);
                ts = ts.push(seq![digits@[k as int]]);
            }
            n = n + 1;
        }
        proof {
            assert(out@ =~= join_plus(ts));
        }
        k = k + 1;
        proof {
            let want = (if k > 0 && v & 8 != 0 { seq![seq!['8']] } else { Seq::<Seq<char>>::empty() })
                + (if k > 1 && v & 4 != 0 { seq![seq!['4']] } else { Seq::<Seq<char>>::empty() })
                + (if k > 2 && v & 2 != 0 { seq![seq!['2']] } else { Seq::<Seq<char>>::empty() })
                + (if k > 3 && v & 1 != 0 { seq![seq!['1']] } else { Seq::<Seq<char>>::empty() });
            assert(ts =~= want);
        }
    }
    if n == 0 {
        out.push('0');
        proof {
            assert(out@ =~= seq!['0']);
        }
    }
    string_of(&out)
}

/// What `char::to_uppercase` turns a character into; for a few characters
/// it is more than one.
pub uninterp spec fn upper_of(c: char) -> Seq<char>;

/// `char::to_uppercase`, collected into a string: the upper case of `c`,
/// which for a few characters is more than one.
#[verifier::external_body]
fn upper(c: char) -> (r: String)
    ensures
        r@ == upper_of(c),
{
    c.to_uppercase().collect::<String>()
}

/// `s` with its first character put in upper case.
pub open spec fn capitalized(s: Seq<char>) -> Seq<char> {
    if s.len() == 0 {
        Seq::empty()
    } else {
        upper_of(s[0]) + s.drop_first()
    }
}

/// The characters of `head` followed by those of `s` after its first one.
pub fn with_head(head: &str, s: &str) -> (r: String)
    requires
        s@.len() > 0,
    ensures
        r@ == head@ + s@.drop_first(),
{
    let cs = chars_of(s);
    let mut out = chars_of(head);
    let mut i: usize = 1;
    proof {
        assert(s@.subrange(1, 1) =~= Seq::<char>::empty());
        assert(out@ =~= head@ + s@.subrange(1, 1));
    }
    while i < cs.len()
        invariant
            1 <= i <= cs@.len(),
            cs@ == s@,
            out@ == head@ + s@.subrange(1, i as int),
        decreases cs@.len() - i,
    {
        out.push(cs[i]);
        proof {
            assert(s@.subrange(1, i + 1) =~= s@.subrange(1, i as int).push(cs@[i as int]));
        }
        i = i + 1;
    }
    proof {
        assert(s@.subrange(1, cs@.len() as int) =~= s@.drop_first());
    }
    string_of(&out)
}

/// `s` with its first character put in upper case.
pub fn cap(s: &str) -> (r: String)
    ensures
        r@ == capitalized(s@),
{
    let cs = chars_of(s);
    if cs.len() == 0 {
        return String::new();
    }
    let head = upper(cs[0]);
    with_head(head.as_str(), s)
}

/// The lines that the words `ws` fill at most `width` characters wide,
/// when the line begun so far holds `line`: a word goes on the line, after
/// a space, while it fits, and otherwise starts the next line.
pub open spec fn wrapped(ws: Seq<Seq<char>>, width: nat, line: Seq<char>) -> Seq<Seq<char>>
    decreases ws.len(),
{
    if ws.len() == 0 {
        pending(line)
    } else if line.len() > 0 && line.len() + 1 + ws[0].len() > width {
        seq![line] + wrapped(ws.drop_first(), width, ws[0])
    } else if line.len() > 0 {
        wrapped(ws.drop_first(), width, line + seq![' '] + ws[0])
    } else {
        wrapped(ws.drop_first(), width, ws[0])
    }
}

/// A word cut into pieces of `width` characters, the last one shorter;
/// at width 0 nothing fits and the word stays whole.
pub open spec fn chunks(w: Seq<char>, width: nat) -> Seq<Seq<char>>
    decreases w.len(),
{
    if width == 0 || w.len() <= width {
        seq![w]
    } else {
        seq![w.take(width as int)] + chunks(w.skip(width as int), width)
    }
}

/// The words, each longer than `width` cut into pieces that fit.
pub open spec fn pieces(ws: Seq<Seq<char>>, width: nat) -> Seq<Seq<char>>
    decreases ws.len(),
{
    if ws.len() == 0 {
        Seq::empty()
    } else {
        pieces(ws.drop_last(), width) + chunks(ws.last(), width)
    }
}

/// Every piece of a word fits in a width above 0.
proof fn lemma_chunks_fit(w: Seq<char>, width: nat)
    requires
        width > 0,
    ensures
        forall|k: int| 0 <= k < chunks(w, width).len() ==> #[trigger] chunks(w, width)[k].len() <= width,
    decreases w.len(),
{
    if w.len() > width {
        lemma_chunks_fit(w.skip(width as int), width);
        let c = chunks(w, width);
        assert forall|k: int| 0 <= k < c.len() implies #[trigger] c[k].len() <= width by {
            if k > 0 {
                assert(c[k] == chunks(w.skip(width as int), width)[k - 1]);
            }
        }
    }
}

/// Every piece of the words fits in a width above 0.
proof fn lemma_pieces_fit(ws: Seq<Seq<char>>, width: nat)
    requires
        width > 0,
    ensures
        forall|k: int| 0 <= k < pieces(ws, width).len() ==> #[trigger] pieces(ws, width)[k].len() <= width,
    decreases ws.len(),
{
    if ws.len() > 0 {
        lemma_pieces_fit(ws.drop_last(), width);
        lemma_chunks_fit(ws.last(), width);
        let a = pieces(ws.drop_last(), width);
        let ps = pieces(ws, width);
        assert forall|k: int| 0 <= k < ps.len() implies #[trigger] ps[k].len() <= width by {
            if k >= a.len() {
                assert(ps[k] == chunks(ws.last(), width)[k - a.len()]);
            } else {
                assert(ps[k] == a[k]);
            }
        }
    }
}

/// Words that each fit give lines that each fit.
proof fn lemma_wrapped_fits(ws: Seq<Seq<char>>, width: nat, line: Seq<char>)
    requires
        line.len() <= width,
        forall|k: int| 0 <= k < ws.len() ==> #[trigger] ws[k].len() <= width,
    ensures
        forall|k: int| 0 <= k < wrapped(ws, width, line).len() ==> #[trigger] wrapped(ws, width, line)[k].len() <= width,
    decreases ws.len(),
{
    if ws.len() == 0 {
        let w = wrapped(ws, width, line);
        assert(w == pending(line));
        assert forall|k: int| 0 <= k < w.len() implies #[trigger] w[k].len() <= width by {
            assert(w[k] == line);
        }
    } else {
        assert(ws[0].len() <= width);
        let rest = ws.drop_first();
        assert forall|k: int| 0 <= k < rest.len() implies #[trigger] rest[k].len() <= width by {
            assert(rest[k] == ws[k + 1]);
        }
        if line.len() > 0 && line.len() + 1 + ws[0].len() > width {
            lemma_wrapped_fits(rest, width, ws[0]);
            let w = wrapped(ws, width, line);
            let t = wrapped(rest, width, ws[0]);
            assert forall|k: int| 0 <= k < w.len() implies #[trigger] w[k].len() <= width by {
                if k > 0 {
                    assert(w[k] == t[k - 1]);
                }
            }
        } else if line.len() > 0 {
            assert((line + seq![' '] + ws[0]).len() == line.len() + 1 + ws[0].len());
            lemma_wrapped_fits(rest, width, line + seq![' '] + ws[0]);
            assert(wrapped(ws, width, line) == wrapped(rest, width, line + seq![' '] + ws[0]));
        } else {
            lemma_wrapped_fits(rest, width, ws[0]);
            assert(wrapped(ws, width, line) == wrapped(rest, width, ws[0]));
        }
    }
}

/// A copy of `w[a..b]`.
fn slice_of(w: &Vec<char>, a: usize, b: usize) -> (r: Vec<char>)
    requires
        a <= b <= w@.len(),
    ensures
        r@ == w@.subrange(a as int, b as int),
{
    let mut r: Vec<char> = Vec::new();
    let mut k = a;
    while k < b
        invariant
            a <= k <= b <= w@.len(),
            r@ == w@.subrange(a as int, k as int),
        decreases b - k,
    {
        r.push(w[k]);
        proof {
            assert(r@ =~= w@.subrange(a as int, k + 1));
        }
        k = k + 1;
    }
    r
}

/// Add the pieces of word `w` to `out`.
fn push_chunks(out: &mut Vec<Vec<char>>, w: &Vec<char>, width: usize)
    ensures
        texts(final(out)@) == texts(old(out)@) + chunks(w@, width as nat),
{
    let ghost o0 = texts(out@);
    let mut s: usize = 0;
    proof {
        assert(w@.skip(0) =~= w@);
        assert(o0 + chunks(w@, width as nat) =~= texts(out@) + chunks(w@.skip(0), width as nat));
    }
    while width > 0 && w.len() - s > width
        invariant
            s <= w@.len(),
            texts(out@) + chunks(w@.skip(s as int), width as nat) == o0 + chunks(w@, width as nat),
        decreases w@.len() - s,
    {
        let piece = slice_of(w, s, s + width);
        let ghost t0 = texts(out@);
        let ghost rest = w@.skip(s as int);
        out.push(piece);
        proof {
            assert(texts(out@) =~= t0.push(piece@));
            assert(piece@ =~= rest.take(width as int));
            assert(rest.skip(width as int) =~= w@.skip(s + width));
            assert(t0 + chunks(rest, width as nat) =~= t0.push(piece@) + chunks(w@.skip(s + width), width as nat));
        }
        s = s + width;
    }
    let last = slice_of(w, s, w.len());
    let ghost t0 = texts(out@);
    out.push(last);
    proof {
        assert(last@ =~= w@.skip(s as int));
        assert(texts(out@) =~= t0.push(last@));
        assert(t0 + chunks(w@.skip(s as int), width as nat) =~= t0.push(last@));
    }
}

/// Break plain text into lines of at most `width` characters: between
/// words where it can, and through a word longer than the width. At
/// width 0 nothing fits and each word has a line of its own.
pub fn wrap(text: &str, width: usize) -> (r: Vec<String>)
    ensures
        r@.map_values(|l: String| l@) == wrapped(pieces(words(text@), width as nat), width as nat, Seq::empty()),
        width > 0 ==> forall|k: int| 0 <= k < r@.len() ==> #[trigger] r@[k]@.len() <= width,
{
    let cs = chars_of(text);
    let whole = split_words(&cs);
    let ghost all = pieces(words(text@), width as nat);
    let mut ws: Vec<Vec<char>> = Vec::new();
    let mut i: usize = 0;
    proof {
        assert(texts(whole@).take(0) =~= Seq::<Seq<char>>::empty());
        assert(texts(ws@) =~= Seq::<Seq<char>>::empty());
    }
    while i < whole.len()
        invariant
            texts(whole@) == words(text@),
            i <= whole@.len(),
            texts(ws@) == pieces(texts(whole@).take(i as int), width as nat),
        decreases whole@.len() - i,
    {
        push_chunks(&mut ws, &whole[i], width);
        proof {
            let t = texts(whole@).take(i + 1);
            assert(t.drop_last() =~= texts(whole@).take(i as int));
            assert(t.last() == whole@[i as int]@);
        }
        i = i + 1;
    }
    proof {
        assert(texts(whole@).take(i as int) =~= texts(whole@));
    }
    let mut out: Vec<String> = Vec::new();
    let mut line: Vec<char> = Vec::new();
    let mut i: usize = 0;
    proof {
        assert(texts(ws@).skip(0) =~= texts(ws@));
        assert(out@.map_values(|l: String| l@) + wrapped(all, width as nat, Seq::empty()) =~= wrapped(all, width as nat, Seq::empty()));
    }
    while i < ws.len()
        invariant
            texts(ws@) == all,
            i <= ws@.len(),
            out@.map_values(|l: String| l@) + wrapped(all.skip(i as int), width as nat, line@)
                == wrapped(all, width as nat, Seq::empty()),
        decreases ws@.len() - i,
    {
        let w = &ws[i];
        let ghost o0 = out@.map_values(|l: String| l@);
        let ghost rest = all.skip(i as int);
        proof {
            assert(rest[0] == w@);
            assert(rest.drop_first() =~= all.skip(i + 1));
        }
        let fits = line.len() < width && w.len() <= width - line.len() - 1;
        let ghost l0 = line@;
        proof {
            assert(fits == (l0.len() + 1 + w@.len() <= width));
        }
        if line.len() > 0 && !fits {
            let l = string_of(&line);
            out.push(l);
            line = Vec::new();
            push_chars(&mut line, w);
            proof {
                assert(out@.map_values(|l: String| l@) =~= o0.push(l@));
                assert(o0 + (seq![l@] + wrapped(all.skip(i + 1), width as nat, w@)) =~= o0.push(l@) + wrapped(all.skip(i + 1), width as nat, w@));
                assert(line@ =~= w@);
            }
        } else if line.len() > 0 {
            line.push(' ');
            push_chars(&mut line, w);
            proof {
                assert(line@ =~= l0 + seq![' '] + w@);
            }
        } else {
            push_chars(&mut line, w);
            proof {
                assert(line@ =~= w@);
            }
        }
        i = i + 1;
    }
    let ghost o0 = out@.map_values(|l: String| l@);
    proof {
        assert(all.skip(i as int) =~= Seq::<Seq<char>>::empty());
    }
    if line.len() > 0 {
        let l = string_of(&line);
        out.push(l);
        proof {
            assert(out@.map_values(|l: String| l@) =~= o0 + pending(line@));
        }
    } else {
        proof {
            assert(o0 + pending(line@) =~= o0);
        }
    }
    proof {
        if width > 0 {
            lemma_pieces_fit(words(text@), width as nat);
            lemma_wrapped_fits(all, width as nat, Seq::empty());
            let lines = out@.map_values(|l: String| l@);
            assert forall|k: int| 0 <= k < out@.len() implies #[trigger] out@[k]@.len() <= width by {
                assert(lines[k] == out@[k]@);
            }
        }
    }
    out
}

/// The file a board is kept in, inside the folder of boards: the free
/// board's, or challenge `mode`'s.
pub open spec fn board_file(mode: usize) -> Seq<char> {
    if mode == 0 {
        "free.txt"@
    } else {
        "challenge"@ + nat_text(mode as nat) + ".txt"@
    }
}

/// The file a board is kept in, inside the folder of boards.
pub fn board_path(mode: usize) -> (r: String)
    ensures
        r@ == board_file(mode),
{
    if mode == 0 {
        return String::from_str("free.txt");
    }
    let mut v: Vec<char> = Vec::new();
    push_str(&mut v, "challenge");
    push_nat(&mut v, mode as u64);
    push_str(&mut v, ".txt");
    proof {
        assert(v@ =~= "challenge"@ + nat_text(mode as nat) + ".txt"@);
    }
    string_of(&v)
}

} // verus!
