//! Text taken apart into lines and words, and put back together.

use vstd::prelude::*;

verus! {

/// Unicode white space, as `char::is_whitespace` has it.
pub open spec fn is_space(c: char) -> bool {
    let u = c as u32;
    ||| 9 <= u <= 13
    ||| u == 32
    ||| u == 0x85
    ||| u == 0xA0
    ||| u == 0x1680
    ||| 0x2000 <= u <= 0x200A
    ||| u == 0x2028
    ||| u == 0x2029
    ||| u == 0x202F
    ||| u == 0x205F
    ||| u == 0x3000
}

/// The word begun so far, as a list of no words or one.
pub open spec fn pending(cur: Seq<char>) -> Seq<Seq<char>> {
    if cur.len() == 0 {
        Seq::empty()
    } else {
        seq![cur]
    }
}

/// The words of `s`, when the characters `cur` came just before it: the
/// runs of characters between white space, in order.
pub open spec fn words_after(s: Seq<char>, cur: Seq<char>) -> Seq<Seq<char>>
    decreases s.len(),
{
    if s.len() == 0 {
        pending(cur)
    } else if is_space(s[0]) {
        pending(cur) + words_after(s.drop_first(), Seq::empty())
    } else {
        words_after(s.drop_first(), cur.push(s[0]))
    }
}

/// The words of `s`, as `str::split_whitespace` gives them.
pub open spec fn words(s: Seq<char>) -> Seq<Seq<char>> {
    words_after(s, Seq::empty())
}

/// The lines of `s`, when the characters `cur` came just before it: the
/// pieces between `\n` characters.
pub open spec fn lines_after(s: Seq<char>, cur: Seq<char>) -> Seq<Seq<char>>
    decreases s.len(),
{
    if s.len() == 0 {
        seq![cur]
    } else if s[0] == '\n' {
        seq![cur] + lines_after(s.drop_first(), Seq::empty())
    } else {
        lines_after(s.drop_first(), cur.push(s[0]))
    }
}

/// The lines of `s`: the pieces between `\n` characters, the last one
/// after the last `\n`.
pub open spec fn lines(s: Seq<char>) -> Seq<Seq<char>> {
    lines_after(s, Seq::empty())
}

/// The words of each line of `text`.
pub open spec fn rows(text: Seq<char>) -> Seq<Seq<Seq<char>>> {
    lines(text).map_values(|l: Seq<char>| words(l))
}

/// The texts held by a list of character vectors.
pub open spec fn texts(v: Seq<Vec<char>>) -> Seq<Seq<char>> {
    v.map_values(|w: Vec<char>| w@)
}

/// The words written out with one space between each two.
pub open spec fn join_words(ts: Seq<Seq<char>>) -> Seq<char>
    decreases ts.len(),
{
    if ts.len() == 0 {
        Seq::empty()
    } else if ts.len() == 1 {
        ts[0]
    } else {
        ts[0] + seq![' '] + join_words(ts.drop_first())
    }
}

/// Each row written out as a line, with a `\n` at its end.
pub open spec fn join_rows(rs: Seq<Seq<Seq<char>>>) -> Seq<char>
    decreases rs.len(),
{
    if rs.len() == 0 {
        Seq::empty()
    } else {
        join_words(rs[0]) + seq!['\n'] + join_rows(rs.drop_first())
    }
}

/// A word that splits no further: one or more characters, none of them
/// white space.
pub open spec fn plain(t: Seq<char>) -> bool {
    t.len() > 0 && forall|i: int| 0 <= i < t.len() ==> !is_space(#[trigger] t[i])
}

/// Whether `c` is white space.
pub fn space(c: char) -> (r: bool)
    ensures
        r == is_space(c),
{
    let u = c as u32;
    (9 <= u && u <= 13) || u == 32 || u == 0x85 || u == 0xA0 || u == 0x1680 || (0x2000 <= u && u <= 0x200A)
        || u == 0x2028 || u == 0x2029 || u == 0x202F || u == 0x205F || u == 0x3000
}

/// The lines of `s`.
pub fn split_lines(s: &Vec<char>) -> (r: Vec<Vec<char>>)
    ensures
        texts(r@) == lines(s@),
{
    let mut out: Vec<Vec<char>> = Vec::new();
    let mut cur: Vec<char> = Vec::new();
    let mut i: usize = 0;
    proof {
        assert(s@.skip(0) =~= s@);
        assert(texts(out@) =~= Seq::<Seq<char>>::empty());
        assert(texts(out@) + lines(s@) =~= lines(s@));
    }
    while i < s.len()
        invariant
            i <= s@.len(),
            lines(s@) == texts(out@) + lines_after(s@.skip(i as int), cur@),
        decreases s@.len() - i,
    {
        let c = s[i];
        proof {
            assert(s@.skip(i as int).drop_first() =~= s@.skip(i + 1));
            assert(s@.skip(i as int)[0] == c);
        }
        if c == '\n' {
            let ghost o0 = texts(out@);
            let ghost c0 = cur@;
            out.push(cur);
            cur = Vec::new();
            proof {
                assert(texts(out@) =~= o0 + seq![c0]);
                assert(lines(s@) == o0 + (seq![c0] + lines_after(s@.skip(i + 1), Seq::empty())));
                assert(o0 + (seq![c0] + lines_after(s@.skip(i + 1), Seq::empty())) =~= o0 + seq![c0] + lines_after(s@.skip(i + 1), Seq::empty()));
                assert(cur@ =~= Seq::<char>::empty());
            }
        } else {
            cur.push(c);
        }
        i = i + 1;
    }
    let ghost o0 = texts(out@);
    let ghost c0 = cur@;
    out.push(cur);
    proof {
        assert(s@.skip(i as int) =~= Seq::<char>::empty());
        assert(texts(out@) =~= o0 + seq![c0]);
    }
    out
}

/// The words of `s`.
pub fn split_words(s: &Vec<char>) -> (r: Vec<Vec<char>>)
    ensures
        texts(r@) == words(s@),
{
    let mut out: Vec<Vec<char>> = Vec::new();
    let mut cur: Vec<char> = Vec::new();
    let mut i: usize = 0;
    proof {
        assert(s@.skip(0) =~= s@);
        assert(texts(out@) =~= Seq::<Seq<char>>::empty());
        assert(texts(out@) + words(s@) =~= words(s@));
    }
    while i < s.len()
        invariant
            i <= s@.len(),
            words(s@) == texts(out@) + words_after(s@.skip(i as int), cur@),
        decreases s@.len() - i,
    {
        let c = s[i];
        proof {
            assert(s@.skip(i as int).drop_first() =~= s@.skip(i + 1));
            assert(s@.skip(i as int)[0] == c);
        }
        if space(c) {
            let ghost o0 = texts(out@);
            let ghost c0 = cur@;
            if cur.len() > 0 {
                out.push(cur);
                cur = Vec::new();
                proof {
                    assert(texts(out@) =~= o0 + pending(c0));
                }
            } else {
                proof {
                    assert(texts(out@) =~= o0 + pending(c0));
                }
            }
            proof {
                assert(o0 + (pending(c0) + words_after(s@.skip(i + 1), Seq::empty())) =~= o0 + pending(c0) + words_after(s@.skip(i + 1), Seq::empty()));
                assert(cur@ =~= Seq::<char>::empty());
            }
        } else {
            cur.push(c);
        }
        i = i + 1;
    }
    let ghost o0 = texts(out@);
    let ghost c0 = cur@;
    if cur.len() > 0 {
        out.push(cur);
    }
    proof {
        assert(s@.skip(i as int) =~= Seq::<char>::empty());
        assert(texts(out@) =~= o0 + pending(c0));
    }
    out
}

/// A plain word followed by `rest` adds its characters to the word begun.
proof fn lemma_words_plain(t: Seq<char>, rest: Seq<char>, cur: Seq<char>)
    requires
        forall|i: int| 0 <= i < t.len() ==> !is_space(#[trigger] t[i]),
    ensures
        words_after(t + rest, cur) == words_after(rest, cur + t),
    decreases t.len(),
{
    if t.len() > 0 {
        assert((t + rest).drop_first() =~= t.drop_first() + rest);
        assert((t + rest)[0] == t[0]);
        lemma_words_plain(t.drop_first(), rest, cur.push(t[0]));
        assert(cur.push(t[0]) + t.drop_first() =~= cur + t);
    } else {
        assert(t + rest =~= rest);
        assert(cur + t =~= cur);
    }
}

/// Plain words joined by spaces split back into those words.
pub proof fn lemma_words_join(ts: Seq<Seq<char>>)
    requires
        forall|i: int| 0 <= i < ts.len() ==> plain(#[trigger] ts[i]),
    ensures
        words(join_words(ts)) == ts,
    decreases ts.len(),
{
    if ts.len() == 0 {
    } else if ts.len() == 1 {
        assert(plain(ts[0]));
        lemma_words_plain(ts[0], Seq::empty(), Seq::empty());
        assert(ts[0] + Seq::<char>::empty() =~= ts[0]);
        assert(Seq::<char>::empty() + ts[0] =~= ts[0]);
        assert(words_after(Seq::<char>::empty(), ts[0]) == pending(ts[0]));
        assert(pending(ts[0]) =~= ts);
    } else {
        let rest = ts.drop_first();
        assert forall|i: int| 0 <= i < rest.len() implies plain(#[trigger] rest[i]) by {
            assert(rest[i] == ts[i + 1]);
        }
        lemma_words_join(rest);
        assert(plain(ts[0]));
        let tail = seq![' '] + join_words(rest);
        assert(join_words(ts) =~= ts[0] + tail);
        lemma_words_plain(ts[0], tail, Seq::empty());
        assert(Seq::<char>::empty() + ts[0] =~= ts[0]);
        assert(tail.drop_first() =~= join_words(rest));
        assert(tail[0] == ' ');
        assert(is_space(' '));
        assert(words_after(tail, ts[0]) == pending(ts[0]) + words_after(join_words(rest), Seq::empty()));
        assert(pending(ts[0]) + rest =~= ts);
    }
}

/// Characters with no `\n` followed by `rest` add to the line begun.
proof fn lemma_lines_plain(t: Seq<char>, rest: Seq<char>, cur: Seq<char>)
    requires
        forall|i: int| 0 <= i < t.len() ==> #[trigger] t[i] != '\n',
    ensures
        lines_after(t + rest, cur) == lines_after(rest, cur + t),
    decreases t.len(),
{
    if t.len() > 0 {
        assert((t + rest).drop_first() =~= t.drop_first() + rest);
        assert((t + rest)[0] == t[0]);
        lemma_lines_plain(t.drop_first(), rest, cur.push(t[0]));
        assert(cur.push(t[0]) + t.drop_first() =~= cur + t);
    } else {
        assert(t + rest =~= rest);
        assert(cur + t =~= cur);
    }
}

/// Rows of plain words, written out one line each, read back as those rows
/// and an empty last line.
pub proof fn lemma_rows_join(rs: Seq<Seq<Seq<char>>>)
    requires
        forall|r: int, i: int| 0 <= r < rs.len() && 0 <= i < rs[r].len() ==> plain(#[trigger] rs[r][i]),
    ensures
        rows(join_rows(rs)) == rs.push(Seq::empty()),
    decreases rs.len(),
{
    lemma_lines_join(rs);
    let ls = rs.map_values(|r: Seq<Seq<char>>| join_words(r)).push(Seq::<char>::empty());
    assert(lines(join_rows(rs)) == ls);
    assert forall|r: int| 0 <= r < rs.len() implies #[trigger] words(join_words(rs[r])) == rs[r] by {
        assert forall|i: int| 0 <= i < rs[r].len() implies plain(#[trigger] rs[r][i]) by {}
        lemma_words_join(rs[r]);
    }
    assert(words(Seq::<char>::empty()) == Seq::<Seq<char>>::empty());
    assert(rows(join_rows(rs)) =~= rs.push(Seq::empty()));
}

/// Rows of plain words, written out one line each, split into their lines
/// and an empty last line.
proof fn lemma_lines_join(rs: Seq<Seq<Seq<char>>>)
    requires
        forall|r: int, i: int| 0 <= r < rs.len() && 0 <= i < rs[r].len() ==> plain(#[trigger] rs[r][i]),
    ensures
        lines(join_rows(rs)) == rs.map_values(|r: Seq<Seq<char>>| join_words(r)).push(Seq::<char>::empty()),
    decreases rs.len(),
{
    if rs.len() == 0 {
        assert(lines(Seq::<char>::empty()) =~= seq![Seq::<char>::empty()]);
        assert(rs.map_values(|r: Seq<Seq<char>>| join_words(r)).push(Seq::<char>::empty()) =~= seq![Seq::<char>::empty()]);
    } else {
        let rest = rs.drop_first();
        assert forall|r: int, i: int| 0 <= r < rest.len() && 0 <= i < rest[r].len() implies plain(#[trigger] rest[r][i]) by {
            assert(rest[r] == rs[r + 1]);
            assert(plain(rs[r + 1][i]));
        }
        lemma_lines_join(rest);
        let l0 = join_words(rs[0]);
        assert forall|i: int| 0 <= i < rs[0].len() implies plain(#[trigger] rs[0][i]) by {}
        lemma_join_has_no_newline(rs[0]);
        let tail = seq!['\n'] + join_rows(rest);
        assert(join_rows(rs) =~= l0 + tail);
        lemma_lines_plain(l0, tail, Seq::empty());
        assert(Seq::<char>::empty() + l0 =~= l0);
        assert(tail.drop_first() =~= join_rows(rest));
        assert(tail[0] == '\n');
        assert(lines_after(tail, l0) == seq![l0] + lines(join_rows(rest)));
        assert(rs.map_values(|r: Seq<Seq<char>>| join_words(r)).push(Seq::<char>::empty()) =~= seq![l0]
            + rest.map_values(|r: Seq<Seq<char>>| join_words(r)).push(Seq::<char>::empty()));
    }
}

/// Plain words joined by spaces hold no `\n`.
proof fn lemma_join_has_no_newline(ts: Seq<Seq<char>>)
    requires
        forall|i: int| 0 <= i < ts.len() ==> plain(#[trigger] ts[i]),
    ensures
        forall|i: int| 0 <= i < join_words(ts).len() ==> #[trigger] join_words(ts)[i] != '\n',
    decreases ts.len(),
{
    assert(is_space('\n'));
    if ts.len() == 1 {
        assert(plain(ts[0]));
    } else if ts.len() > 1 {
        let rest = ts.drop_first();
        assert forall|i: int| 0 <= i < rest.len() implies plain(#[trigger] rest[i]) by {
            assert(rest[i] == ts[i + 1]);
        }
        lemma_join_has_no_newline(rest);
        assert(plain(ts[0]));
        let j = join_words(ts);
        assert(j =~= ts[0] + seq![' '] + join_words(rest));
        assert forall|i: int| 0 <= i < j.len() implies #[trigger] j[i] != '\n' by {
            if i < ts[0].len() {
                assert(j[i] == ts[0][i]);
            } else if i > ts[0].len() {
                assert(j[i] == join_words(rest)[i - ts[0].len() - 1]);
            }
        }
    }
}

/// Text has at most one more line than it has characters.
pub proof fn lemma_lines_count(s: Seq<char>)
    ensures
        lines(s).len() <= s.len() + 1,
        rows(s).len() == lines(s).len(),
{
    lemma_lines_after_count(s, Seq::empty());
}

proof fn lemma_lines_after_count(s: Seq<char>, cur: Seq<char>)
    ensures
        lines_after(s, cur).len() <= s.len() + 1,
    decreases s.len(),
{
    if s.len() > 0 {
        lemma_lines_after_count(s.drop_first(), if s[0] == '\n' { Seq::empty() } else { cur.push(s[0]) });
    }
}

} // verus!
