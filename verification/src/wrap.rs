//! Greedy word wrapping for the plain-text survey: words are the runs of
//! non-white-space characters, joined by single spaces, and a line is closed
//! before a word that would take it past the width in bytes.
use vstd::prelude::*;
use crate::text::{chars_of, copy_range, is_space, is_space_char, join_with, lemma_join_push, push_all, string_of};

verus! {

/// Bytes a character takes in UTF-8.
pub open spec fn utf8_width(c: char) -> nat {
    let u = c as u32;
    if u < 0x80 {
        1
    } else if u < 0x800 {
        2
    } else if u < 0x1_0000 {
        3
    } else {
        4
    }
}

/// Bytes `s` takes in UTF-8: what `str::len` counts.
pub open spec fn byte_len(s: Seq<char>) -> nat
    decreases s.len(),
{
    if s.len() == 0 {
        0
    } else {
        byte_len(s.drop_last()) + utf8_width(s.last())
    }
}

proof fn lemma_byte_len_concat(a: Seq<char>, b: Seq<char>)
    ensures
        byte_len(a + b) == byte_len(a) + byte_len(b),
    decreases b.len(),
{
    if b.len() > 0 {
        lemma_byte_len_concat(a, b.drop_last());
        assert((a + b).drop_last() =~= a + b.drop_last());
    }
}

fn utf8_width_of(c: char) -> (n: usize)
    ensures
        n == utf8_width(c),
{
    let u = c as u32;
    if u < 0x80 {
        1
    } else if u < 0x800 {
        2
    } else if u < 0x1_0000 {
        3
    } else {
        4
    }
}

/// A count held in a `usize`, stopping at its largest value.
pub open spec fn capped(n: nat) -> nat {
    if n > usize::MAX {
        usize::MAX as nat
    } else {
        n
    }
}

/// Where the run of non-white-space characters that starts at `i` ends.
pub open spec fn run_end(s: Seq<char>, i: int) -> int
    decreases s.len() - i,
{
    if i < 0 || i >= s.len() || is_space(s[i]) {
        i
    } else {
        run_end(s, i + 1)
    }
}

proof fn lemma_run_end(s: Seq<char>, i: int)
    requires
        0 <= i <= s.len(),
    ensures
        i <= run_end(s, i) <= s.len(),
        forall|j: int| i <= j < run_end(s, i) ==> !is_space(#[trigger] s[j]),
        run_end(s, i) < s.len() ==> is_space(s[run_end(s, i)]),
    decreases s.len() - i,
{
    if i < s.len() && !is_space(s[i]) {
        lemma_run_end(s, i + 1);
    }
}

/// `e` is where the run from `i` ends, when every character before it is
/// part of the run and the next one is not.
proof fn lemma_run_end_at(s: Seq<char>, i: int, e: int)
    requires
        0 <= i <= e <= s.len(),
        forall|j: int| i <= j < e ==> !is_space(#[trigger] s[j]),
        e < s.len() ==> is_space(s[e]),
    ensures
        run_end(s, i) == e,
    decreases e - i,
{
    if i < e {
        lemma_run_end_at(s, i + 1, e);
    }
}

/// The words of `s` from position `i` on, as `str::split_whitespace` yields
/// them: the maximal runs of non-white-space characters.
pub open spec fn words_from(s: Seq<char>, i: int) -> Seq<Seq<char>>
    decreases s.len() - i,
{
    if i < 0 || i >= s.len() {
        Seq::empty()
    } else if is_space(s[i]) {
        words_from(s, i + 1)
    } else {
        let e = run_end(s, i);
        if e <= i || e > s.len() {
            Seq::empty()
        } else {
            seq![s.subrange(i, e)] + words_from(s, e)
        }
    }
}

/// One word placed: the finished lines and the open line, after `w` joins
/// the open line or, when it would take that line past `width` bytes,
/// starts the next one.
pub open spec fn wrap_step(st: (Seq<Seq<char>>, Seq<char>), w: Seq<char>, width: nat) -> (
    Seq<Seq<char>>,
    Seq<char>,
) {
    let out = st.0;
    let line = st.1;
    if line.len() > 0 && byte_len(line) + 1 + byte_len(w) > width {
        (out.push(line), w)
    } else if line.len() > 0 {
        (out, line + seq![' '] + w)
    } else {
        (out, w)
    }
}

pub open spec fn wrap_fold(st: (Seq<Seq<char>>, Seq<char>), ws: Seq<Seq<char>>, width: nat) -> (
    Seq<Seq<char>>,
    Seq<char>,
)
    decreases ws.len(),
{
    if ws.len() == 0 {
        st
    } else {
        wrap_fold(wrap_step(st, ws[0], width), ws.skip(1), width)
    }
}

/// The lines `s` wraps into at `width` bytes: every word placed in turn, and
/// the open line closed at the end unless nothing is on it.
pub open spec fn wrapped(s: Seq<char>, width: nat) -> Seq<Seq<char>> {
    let st = wrap_fold((Seq::empty(), Seq::empty()), words_from(s, 0), width);
    if st.1.len() > 0 {
        st.0.push(st.1)
    } else {
        st.0
    }
}

/// Splits `s` into lines of at most `width` bytes, breaking only between
/// words; a word longer than the width stands on a line of its own.
pub fn textwrap(s: &str, width: usize) -> (lines: Vec<String>)
    ensures
        lines@.len() == wrapped(s@, width as nat).len(),
        forall|k: int| 0 <= k < lines@.len() ==> #[trigger] lines@[k]@ == wrapped(s@, width as nat)[k],
{
    let cs = chars_of(s);
    let n = cs.len();
    let ghost all = wrap_fold((Seq::empty(), Seq::empty()), words_from(cs@, 0), width as nat);
    let mut out: Vec<String> = Vec::new();
    let ghost mut done: Seq<Seq<char>> = Seq::empty();
    let mut line: Vec<char> = Vec::new();
    let mut line_bytes: usize = 0;
    let mut i: usize = 0;
    while i < n
        invariant
            n == cs@.len(),
            i <= n,
            out@.len() == done.len(),
            forall|k: int| 0 <= k < done.len() ==> #[trigger] out@[k]@ == done[k],
            line_bytes == capped(byte_len(line@)),
            wrap_fold((done, line@), words_from(cs@, i as int), width as nat) == all,
        decreases n - i,
    {
        if is_space_char(cs[i]) {
            i = i + 1;
        } else {
            let start = i;
            let mut wb: usize = 0;
            while i < n && !is_space_char(cs[i])
                invariant
                    n == cs@.len(),
                    start <= i <= n,
                    forall|j: int| start <= j < i ==> !is_space(#[trigger] cs@[j]),
                    wb == capped(byte_len(cs@.subrange(start as int, i as int))),
                decreases n - i,
            {
                proof {
                    assert(cs@.subrange(start as int, i + 1).drop_last() =~= cs@.subrange(start as int, i as int));
                }
                wb = wb.saturating_add(utf8_width_of(cs[i]));
                i = i + 1;
            }
            let word = copy_range(cs.as_slice(), start, i);
            let ghost w = word@;
            let ghost st = (done, line@);
            proof {
                lemma_run_end_at(cs@, start as int, i as int);
                let ws = words_from(cs@, start as int);
                assert(ws == seq![w] + words_from(cs@, i as int));
                assert(ws[0] == w);
                assert(ws.skip(1) =~= words_from(cs@, i as int));
            }
            let flush = line.len() > 0 && (line_bytes >= width || wb >= width - line_bytes);
            if flush {
                let closed = string_of(line.as_slice());
                out.push(closed);
                proof {
                    done = done.push(line@);
                }
                line = word;
                line_bytes = wb;
            } else if line.len() > 0 {
                proof {
                    lemma_byte_len_concat(line@, seq![' ']);
                    lemma_byte_len_concat(line@ + seq![' '], w);
                    assert(byte_len(seq![' ']) == 1) by {
                        assert(seq![' '].drop_last() =~= Seq::<char>::empty());
                        assert(byte_len(Seq::<char>::empty()) == 0);
                        assert(utf8_width(' ') == 1);
                    }
                }
                line.push(' ');
                push_all(&mut line, word.as_slice());
                line_bytes = line_bytes.saturating_add(1).saturating_add(wb);
            } else {
                line = word;
                line_bytes = wb;
            }
            proof {
                assert((done, line@) == wrap_step(st, w, width as nat));
            }
        }
    }
    if line.len() > 0 {
        let last = string_of(line.as_slice());
        out.push(last);
        proof {
            done = done.push(line@);
        }
    }
    out
}

/// A line fits: it takes at most `width` bytes, or it is one word alone.
pub open spec fn line_fits(line: Seq<char>, width: nat) -> bool {
    byte_len(line) <= width || forall|j: int| 0 <= j < line.len() ==> !is_space(#[trigger] line[j])
}

proof fn lemma_words_are_runs(s: Seq<char>, i: int)
    requires
        0 <= i,
    ensures
        forall|k: int, j: int|
            0 <= k < words_from(s, i).len() && 0 <= j < words_from(s, i)[k].len() ==> !is_space(
                #[trigger] words_from(s, i)[k][j],
            ),
        forall|k: int| 0 <= k < words_from(s, i).len() ==> #[trigger] words_from(s, i)[k].len() > 0,
    decreases s.len() - i,
{
    if i < s.len() {
        if is_space(s[i]) {
            lemma_words_are_runs(s, i + 1);
            assert(words_from(s, i) == words_from(s, i + 1));
        } else {
            lemma_run_end(s, i);
            let e = run_end(s, i);
            if i < e {
                lemma_words_are_runs(s, e);
                let ws = words_from(s, i);
                assert(ws == seq![s.subrange(i, e)] + words_from(s, e));
                assert forall|k: int, j: int| 0 <= k < ws.len() && 0 <= j < ws[k].len() implies !is_space(#[trigger] ws[k][j]) by {
                    if k == 0 {
                        assert(ws[k][j] == s[i + j]);
                    } else {
                        assert(ws[k] == words_from(s, e)[k - 1]);
                    }
                }
                assert forall|k: int| 0 <= k < ws.len() implies #[trigger] ws[k].len() > 0 by {
                    if k > 0 {
                        assert(ws[k] == words_from(s, e)[k - 1]);
                    }
                }
            }
        }
    }
}

proof fn lemma_fold_fits(st: (Seq<Seq<char>>, Seq<char>), ws: Seq<Seq<char>>, width: nat)
    requires
        forall|k: int| 0 <= k < st.0.len() ==> line_fits(#[trigger] st.0[k], width),
        line_fits(st.1, width),
        forall|k: int, j: int| 0 <= k < ws.len() && 0 <= j < ws[k].len() ==> !is_space(#[trigger] ws[k][j]),
    ensures
        forall|k: int| 0 <= k < wrap_fold(st, ws, width).0.len() ==> line_fits(#[trigger] wrap_fold(st, ws, width).0[k], width),
        line_fits(wrap_fold(st, ws, width).1, width),
    decreases ws.len(),
{
    if ws.len() > 0 {
        let w = ws[0];
        let next = wrap_step(st, w, width);
        assert forall|j: int| 0 <= j < w.len() implies !is_space(#[trigger] w[j]) by {
            assert(!is_space(ws[0][j]));
        }
        assert forall|k: int| 0 <= k < next.0.len() implies line_fits(#[trigger] next.0[k], width) by {
            if k < st.0.len() {
                assert(next.0[k] == st.0[k]);
            }
        }
        let rest = ws.skip(1);
        assert forall|k: int, j: int| 0 <= k < rest.len() && 0 <= j < rest[k].len() implies !is_space(#[trigger] rest[k][j]) by {
            assert(rest[k] == ws[k + 1]);
        }
        if st.1.len() > 0 && !(byte_len(st.1) + 1 + byte_len(w) > width) {
            lemma_byte_len_concat(st.1, seq![' ']);
            lemma_byte_len_concat(st.1 + seq![' '], w);
            assert(seq![' '].drop_last() =~= Seq::<char>::empty());
            assert(byte_len(Seq::<char>::empty()) == 0);
            assert(utf8_width(' ') == 1);
        }
        lemma_fold_fits(next, rest, width);
    }
}

/// Wrapping keeps every line within the width, except a line that holds one
/// word longer than the width by itself.
pub proof fn lemma_wrapped_lines_fit(s: Seq<char>, width: nat)
    ensures
        forall|k: int| 0 <= k < wrapped(s, width).len() ==> line_fits(#[trigger] wrapped(s, width)[k], width),
{
    lemma_words_are_runs(s, 0);
    let st0 = (Seq::<Seq<char>>::empty(), Seq::<char>::empty());
    assert(byte_len(Seq::<char>::empty()) == 0);
    lemma_fold_fits(st0, words_from(s, 0), width);
    let st = wrap_fold(st0, words_from(s, 0), width);
    if st.1.len() > 0 {
        assert forall|k: int| 0 <= k < wrapped(s, width).len() implies line_fits(#[trigger] wrapped(s, width)[k], width) by {
            if k < st.0.len() {
                assert(wrapped(s, width)[k] == st.0[k]);
            }
        }
    }
}

/// The finished lines and the open one, when anything is on it.
pub open spec fn closed(st: (Seq<Seq<char>>, Seq<char>)) -> Seq<Seq<char>> {
    if st.1.len() > 0 {
        st.0.push(st.1)
    } else {
        st.0
    }
}

proof fn lemma_join_concat(a: Seq<Seq<char>>, r: Seq<Seq<char>>, c: char)
    requires
        a.len() >= 1,
        r.len() >= 1,
    ensures
        join_with(a + r, c) == join_with(a, c) + seq![c] + join_with(r, c),
    decreases a.len(),
{
    let ar = a + r;
    if a.len() == 1 {
        assert(ar[0] == a[0]);
        assert(ar.drop_first() =~= r);
        assert(join_with(ar, c) =~= join_with(a, c) + seq![c] + join_with(r, c));
    } else {
        lemma_join_concat(a.drop_first(), r, c);
        assert(ar.drop_first() =~= a.drop_first() + r);
        assert(ar[0] == a[0]);
        assert(join_with(ar, c) =~= join_with(a, c) + seq![c] + join_with(r, c));
    }
}

/// Joining `out` with one more line equals joining it with the line's two
/// parts, when those parts are the line split at a space.
proof fn lemma_join_split_last(out: Seq<Seq<char>>, line: Seq<char>, w: Seq<char>)
    ensures
        join_with(out.push(line + seq![' '] + w), ' ') == join_with(out.push(line).push(w), ' '),
{
    if out.len() == 0 {
        assert(out.push(line + seq![' '] + w) =~= seq![line + seq![' '] + w]);
        assert(out.push(line) =~= seq![line]);
        lemma_join_push(seq![line], w, ' ');
        assert(join_with(seq![line], ' ') == line);
    } else {
        lemma_join_push(out, line + seq![' '] + w, ' ');
        lemma_join_push(out, line, ' ');
        lemma_join_push(out.push(line), w, ' ');
        assert(join_with(out.push(line + seq![' '] + w), ' ') =~= join_with(out.push(line).push(w), ' '));
    }
}

proof fn lemma_fold_keeps_words(st: (Seq<Seq<char>>, Seq<char>), ws: Seq<Seq<char>>, width: nat)
    requires
        forall|k: int| 0 <= k < ws.len() ==> #[trigger] ws[k].len() > 0,
    ensures
        join_with(closed(wrap_fold(st, ws, width)), ' ') == join_with(closed(st) + ws, ' '),
    decreases ws.len(),
{
    if ws.len() == 0 {
        assert(closed(st) + ws =~= closed(st));
    } else {
        let w = ws[0];
        let rest = ws.skip(1);
        let next = wrap_step(st, w, width);
        assert(w.len() > 0);
        assert forall|k: int| 0 <= k < rest.len() implies #[trigger] rest[k].len() > 0 by {
            assert(rest[k] == ws[k + 1]);
        }
        lemma_fold_keeps_words(next, rest, width);
        assert(closed(st) + ws =~= closed(st).push(w) + rest);
        if st.1.len() > 0 && !(byte_len(st.1) + 1 + byte_len(w) > width) {
            // The word joined the open line: the lines differ, their text does not.
            lemma_join_split_last(st.0, st.1, w);
            assert(closed(next) == st.0.push(st.1 + seq![' '] + w));
            assert(closed(st).push(w) == st.0.push(st.1).push(w));
            if rest.len() > 0 {
                lemma_join_concat(closed(next), rest, ' ');
                lemma_join_concat(closed(st).push(w), rest, ' ');
            } else {
                assert(closed(next) + rest =~= closed(next));
                assert(closed(st).push(w) + rest =~= closed(st).push(w));
            }
        } else {
            assert(closed(next) =~= closed(st).push(w));
        }
    }
}

/// Wrapping loses no word and adds none: the lines joined with single spaces
/// read the same as the words joined with single spaces.
pub proof fn lemma_wrapped_keeps_words(s: Seq<char>, width: nat)
    ensures
        join_with(wrapped(s, width), ' ') == join_with(words_from(s, 0), ' '),
{
    let st0 = (Seq::<Seq<char>>::empty(), Seq::<char>::empty());
    lemma_words_are_runs(s, 0);
    lemma_fold_keeps_words(st0, words_from(s, 0), width);
    assert(closed(st0) + words_from(s, 0) =~= words_from(s, 0));
}

} // verus!
