//! Character-level text handling shared by the file formats: reading a string
//! as its characters, building one back, whitespace trimming, and decimal
//! numbers. Every function is stated over the string's view, its sequence of
//! characters.
use vstd::prelude::*;
use vstd::std_specs::iter::IteratorSpec;

verus! {

broadcast use vstd::string::group_string_axioms;

/// `String::push` appends one character.
pub assume_specification[ String::push ](s: &mut String, ch: char)
    ensures
        final(s)@ == old(s)@.push(ch),
;

/// The characters of `s`, in order.
pub fn chars_of(s: &str) -> (v: Vec<char>)
    ensures
        v@ == s@,
{
    let mut out: Vec<char> = Vec::new();
    let mut it = s.chars();
    let ghost all = s@;
    loop
        invariant
            it.obeys_prophetic_iter_laws(),
            all == s@,
            out@ + it.remaining() == all,
            it.decrease() is Some,
        ensures
            out@ == all,
        decreases it.decrease()->0,
    {
        let ghost before = it;
        match it.next() {
            Some(c) => {
                proof {
                    assert(before.remaining().drop_first() == it.remaining());
                    assert(out@.push(c) + it.remaining() =~= out@ + before.remaining());
                }
                out.push(c);
            },
            None => {
                proof {
                    assert(out@ + Seq::<char>::empty() =~= out@);
                }
                break ;
            },
        }
    }
    out
}

/// A `String` holding exactly the characters of `cs`.
pub fn string_of(cs: &[char]) -> (s: String)
    ensures
        s@ == cs@,
{
    let mut s = String::new();
    let mut i: usize = 0;
    while i < cs.len()
        invariant
            i <= cs@.len(),
            s@ == cs@.take(i as int),
        decreases cs@.len() - i,
    {
        s.push(cs[i]);
        proof {
            assert(cs@.take(i + 1) =~= cs@.take(i as int).push(cs@[i as int]));
        }
        i = i + 1;
    }
    proof {
        assert(cs@.take(i as int) =~= cs@);
    }
    s
}

/// `a` and `b` hold the same characters.
pub fn str_eq(a: &str, b: &str) -> (r: bool)
    ensures
        r == (a@ == b@),
{
    let x = chars_of(a);
    let y = chars_of(b);
    chars_eq(x.as_slice(), y.as_slice())
}

/// `a` and `b` are the same sequence of characters.
pub fn chars_eq(a: &[char], b: &[char]) -> (r: bool)
    ensures
        r == (a@ == b@),
{
    if a.len() != b.len() {
        return false;
    }
    let mut i: usize = 0;
    while i < a.len()
        invariant
            a@.len() == b@.len(),
            i <= a@.len(),
            forall|j: int| 0 <= j < i ==> a@[j] == b@[j],
        decreases a@.len() - i,
    {
        if a[i] != b[i] {
            return false;
        }
        i = i + 1;
    }
    proof {
        assert(a@ =~= b@);
    }
    true
}

/// The characters Unicode gives the White_Space property, which is what
/// `char::is_whitespace` and `str::trim` go by.
pub open spec fn is_space(c: char) -> bool {
    let u = c as u32;
    ||| 0x09 <= u <= 0x0D
    ||| u == 0x20
    ||| u == 0x85
    ||| u == 0xA0
    ||| u == 0x1680
    ||| 0x2000 <= u <= 0x200A
    ||| u == 0x2028
    ||| u == 0x2029
    ||| u == 0x202F
    ||| u == 0x205F
    ||| u == 0x3000
}

pub fn is_space_char(c: char) -> (r: bool)
    ensures
        r == is_space(c),
{
    let u = c as u32;
    (0x09 <= u && u <= 0x0D) || u == 0x20 || u == 0x85 || u == 0xA0 || u == 0x1680 || (0x2000
        <= u && u <= 0x200A) || u == 0x2028 || u == 0x2029 || u == 0x202F || u == 0x205F || u
        == 0x3000
}

/// Number of leading white-space characters.
pub open spec fn lead_len(s: Seq<char>) -> nat
    decreases s.len(),
{
    if s.len() > 0 && is_space(s[0]) {
        1 + lead_len(s.drop_first())
    } else {
        0
    }
}

/// Number of trailing white-space characters.
pub open spec fn trail_len(s: Seq<char>) -> nat
    decreases s.len(),
{
    if s.len() > 0 && is_space(s.last()) {
        1 + trail_len(s.drop_last())
    } else {
        0
    }
}

/// `s` without white space at either end.
pub open spec fn trimmed(s: Seq<char>) -> Seq<char> {
    let front = s.skip(lead_len(s) as int);
    front.take(front.len() - trail_len(front))
}

proof fn lemma_lead_len(s: Seq<char>, k: int)
    requires
        0 <= k <= s.len(),
        forall|j: int| 0 <= j < k ==> is_space(#[trigger] s[j]),
        k == s.len() || !is_space(s[k]),
    ensures
        lead_len(s) == k,
    decreases k,
{
    if k > 0 {
        let t = s.drop_first();
        assert forall|j: int| 0 <= j < k - 1 implies is_space(#[trigger] t[j]) by {
            assert(t[j] == s[j + 1]);
        }
        if k - 1 < t.len() {
            assert(t[k - 1] == s[k]);
        }
        lemma_lead_len(t, k - 1);
    }
}

proof fn lemma_trail_len(s: Seq<char>, k: int)
    requires
        0 <= k <= s.len(),
        forall|j: int| s.len() - k <= j < s.len() ==> is_space(#[trigger] s[j]),
        k == s.len() || !is_space(s[s.len() - 1 - k]),
    ensures
        trail_len(s) == k,
    decreases k,
{
    if k > 0 {
        let t = s.drop_last();
        assert forall|j: int| t.len() - (k - 1) <= j < t.len() implies is_space(#[trigger] t[j]) by {
            assert(t[j] == s[j]);
        }
        if k - 1 < t.len() {
            assert(t[t.len() - 1 - (k - 1)] == s[s.len() - 1 - k]);
        }
        lemma_trail_len(t, k - 1);
    }
}

/// `cs[from..to]` with white space at either end removed.
pub fn trim_range(cs: &[char], from: usize, to: usize) -> (r: Vec<char>)
    requires
        from <= to <= cs@.len(),
    ensures
        r@ == trimmed(cs@.subrange(from as int, to as int)),
{
    let ghost s = cs@.subrange(from as int, to as int);
    let mut a = from;
    while a < to && is_space_char(cs[a])
        invariant
            from <= a <= to <= cs@.len(),
            forall|j: int| from <= j < a ==> is_space(#[trigger] cs@[j]),
        decreases to - a,
    {
        a = a + 1;
    }
    proof {
        assert forall|j: int| 0 <= j < a - from implies is_space(#[trigger] s[j]) by {
            assert(s[j] == cs@[from + j]);
        }
        if a < to {
            assert(s[a - from] == cs@[a as int]);
        }
        lemma_lead_len(s, a - from);
    }
    let ghost front = s.skip(a - from);
    let mut b = to;
    while b > a && is_space_char(cs[b - 1])
        invariant
            from <= a <= b <= to <= cs@.len(),
            forall|j: int| b <= j < to ==> is_space(#[trigger] cs@[j]),
        decreases b - a,
    {
        b = b - 1;
    }
    proof {
        assert(front.len() == to - a);
        assert forall|j: int| front.len() - (to - b) <= j < front.len() implies is_space(
            #[trigger] front[j],
        ) by {
            assert(front[j] == cs@[a + j]);
        }
        if b > a {
            assert(front[front.len() - 1 - (to - b)] == cs@[b - 1]);
        }
        lemma_trail_len(front, to - b);
    }
    let mut out: Vec<char> = Vec::new();
    let mut i = a;
    while i < b
        invariant
            a <= i <= b <= cs@.len(),
            out@ == cs@.subrange(a as int, i as int),
        decreases b - i,
    {
        out.push(cs[i]);
        proof {
            assert(cs@.subrange(a as int, i + 1) =~= cs@.subrange(a as int, i as int).push(
                cs@[i as int],
            ));
        }
        i = i + 1;
    }
    proof {
        assert(out@ =~= front.take(front.len() - (to - b)));
    }
    out
}

/// The decimal digits of `n`, most significant first, with no leading zeros
/// (and "0" for zero).
pub open spec fn decimal(n: nat) -> Seq<char>
    decreases n,
{
    if n < 10 {
        seq![digit_char(n)]
    } else {
        decimal(n / 10).push(digit_char(n % 10))
    }
}

pub open spec fn digit_char(d: nat) -> char {
    ((d + 48) as u32) as char
}

/// Writes `n` in decimal.
pub fn decimal_string(n: u64) -> (s: String)
    ensures
        s@ == decimal(n as nat),
{
    let d = decimal_chars(n);
    string_of(d.as_slice())
}

fn char_of_digit(d: u32) -> (c: char)
    requires
        d < 10,
    ensures
        c == digit_char(d as nat),
{
    if d == 0 { '0' }
    else if d == 1 { '1' }
    else if d == 2 { '2' }
    else if d == 3 { '3' }
    else if d == 4 { '4' }
    else if d == 5 { '5' }
    else if d == 6 { '6' }
    else if d == 7 { '7' }
    else if d == 8 { '8' }
    else { '9' }
}

/// A string with nothing to trim is its own trimmed form.
pub proof fn lemma_trimmed_unchanged(s: Seq<char>)
    requires
        s.len() == 0 || (!is_space(s[0]) && !is_space(s.last())),
    ensures
        trimmed(s) == s,
{
    if s.len() > 0 {
        assert(lead_len(s) == 0);
        assert(s.skip(0) =~= s);
        assert(trail_len(s) == 0);
        assert(s.take(s.len() as int) =~= s);
    } else {
        assert(s.skip(0) =~= s);
        assert(s.take(0) =~= s);
    }
}

/// First index at or after `i` holding `c`, or the length when there is none.
pub open spec fn find_from(s: Seq<char>, c: char, i: int) -> int
    decreases s.len() - i,
{
    if i < 0 || i >= s.len() {
        s.len() as int
    } else if s[i] == c {
        i
    } else {
        find_from(s, c, i + 1)
    }
}

/// The index `find_from` names, found by scanning.
pub fn find_char(cs: &[char], c: char, from: usize) -> (r: usize)
    requires
        from <= cs@.len(),
    ensures
        r as int == find_from(cs@, c, from as int),
        from <= r <= cs@.len(),
{
    let mut i = from;
    while i < cs.len()
        invariant
            from <= i <= cs@.len(),
            find_from(cs@, c, i as int) == find_from(cs@, c, from as int),
        decreases cs@.len() - i,
    {
        if cs[i] == c {
            return i;
        }
        i = i + 1;
    }
    i
}

/// `find_from` lands on the first `c` at or after `i`.
pub proof fn lemma_find_from(s: Seq<char>, c: char, i: int, j: int)
    requires
        0 <= i <= j <= s.len(),
        forall|m: int| i <= m < j ==> s[m] != c,
        j == s.len() || s[j] == c,
    ensures
        find_from(s, c, i) == j,
    decreases j - i,
{
    if i < j {
        lemma_find_from(s, c, i + 1, j);
    }
}

/// `find_from` stays inside the sequence and never before where it starts.
pub proof fn lemma_find_from_bounds(s: Seq<char>, c: char, i: int)
    requires
        0 <= i,
    ensures
        i <= find_from(s, c, i) || find_from(s, c, i) == s.len(),
        find_from(s, c, i) <= s.len(),
        find_from(s, c, i) < s.len() ==> s[find_from(s, c, i)] == c && i <= find_from(s, c, i),
        forall|m: int| i <= m < find_from(s, c, i) ==> s[m] != c,
    decreases s.len() - i,
{
    if i < s.len() && s[i] != c {
        lemma_find_from_bounds(s, c, i + 1);
    }
}

/// The pieces of `s` between occurrences of `c`: always at least one piece,
/// and one more than there are occurrences of `c`.
pub open spec fn split_on(s: Seq<char>, c: char) -> Seq<Seq<char>>
    decreases s.len(),
{
    let i = find_from(s, c, 0);
    if i >= s.len() {
        seq![s]
    } else {
        proof {
            lemma_find_from_bounds(s, c, 0);
        }
        seq![s.take(i)] + split_on(s.skip(i + 1), c)
    }
}

/// The pieces `fs` written one after another with `c` between them.
pub open spec fn join_with(fs: Seq<Seq<char>>, c: char) -> Seq<char>
    decreases fs.len(),
{
    if fs.len() <= 1 {
        if fs.len() == 1 {
            fs[0]
        } else {
            Seq::empty()
        }
    } else {
        fs[0] + seq![c] + join_with(fs.drop_first(), c)
    }
}

/// Joining one more piece adds the separator and the piece at the end.
pub proof fn lemma_join_push(fs: Seq<Seq<char>>, x: Seq<char>, c: char)
    requires
        fs.len() >= 1,
    ensures
        join_with(fs.push(x), c) == join_with(fs, c) + seq![c] + x,
    decreases fs.len(),
{
    let g = fs.push(x);
    if fs.len() == 1 {
        assert(g.drop_first() =~= seq![x]);
        assert(join_with(g.drop_first(), c) == x);
        assert(join_with(g, c) =~= join_with(fs, c) + seq![c] + x);
    } else {
        lemma_join_push(fs.drop_first(), x, c);
        assert(g.drop_first() =~= fs.drop_first().push(x));
        assert(join_with(g, c) =~= join_with(fs, c) + seq![c] + x);
    }
}

/// `c` does not occur in `s`.
pub open spec fn free_of(s: Seq<char>, c: char) -> bool {
    forall|i: int| 0 <= i < s.len() ==> #[trigger] s[i] != c
}

/// Splitting pieces that hold no separator after joining them gives the
/// pieces back.
pub proof fn lemma_split_join(fs: Seq<Seq<char>>, c: char)
    requires
        fs.len() >= 1,
        forall|k: int| 0 <= k < fs.len() ==> free_of(#[trigger] fs[k], c),
    ensures
        split_on(join_with(fs, c), c) == fs,
    decreases fs.len(),
{
    let s = join_with(fs, c);
    if fs.len() == 1 {
        assert(free_of(fs[0], c));
        lemma_find_from(s, c, 0, s.len() as int);
        assert(seq![s] =~= fs);
    } else {
        let rest = fs.drop_first();
        assert forall|k: int| 0 <= k < rest.len() implies free_of(#[trigger] rest[k], c) by {
            assert(rest[k] == fs[k + 1]);
        }
        lemma_split_join(rest, c);
        let f0 = fs[0];
        assert(free_of(f0, c));
        let p = f0.len() as int;
        assert(s =~= f0 + seq![c] + join_with(rest, c));
        assert forall|m: int| 0 <= m < p implies s[m] != c by {
            assert(s[m] == f0[m]);
        }
        lemma_find_from(s, c, 0, p);
        assert(s.take(p) =~= f0);
        assert(s.skip(p + 1) =~= join_with(rest, c));
        assert(seq![f0] + rest =~= fs);
    }
}

/// The lines of `text` as `str::lines` splits them: at each `\n`, with no
/// empty line after a final `\n` and none at all for empty text.
pub open spec fn raw_lines(text: Seq<char>) -> Seq<Seq<char>>
    decreases text.len(),
{
    if text.len() == 0 {
        Seq::empty()
    } else {
        let i = find_from(text, '\n', 0);
        if i >= text.len() {
            seq![text]
        } else {
            proof {
                lemma_find_from_bounds(text, '\n', 0);
            }
            seq![text.take(i)] + raw_lines(text.skip(i + 1))
        }
    }
}

/// Number of carriage returns at the end of `s`.
pub open spec fn trailing_cr(s: Seq<char>) -> nat
    decreases s.len(),
{
    if s.len() > 0 && s.last() == '\r' {
        1 + trailing_cr(s.drop_last())
    } else {
        0
    }
}

/// `s` without the carriage returns at its end.
pub open spec fn strip_cr(s: Seq<char>) -> Seq<char> {
    s.take(s.len() - trailing_cr(s))
}

/// The lines of `text`, each without its trailing carriage returns.
pub open spec fn text_lines(text: Seq<char>) -> Seq<Seq<char>> {
    raw_lines(text).map_values(|l: Seq<char>| strip_cr(l))
}

/// The lines `ls`, each followed by `\n`.
pub open spec fn joined_lines(ls: Seq<Seq<char>>) -> Seq<char>
    decreases ls.len(),
{
    if ls.len() == 0 {
        Seq::empty()
    } else {
        ls[0] + seq!['\n'] + joined_lines(ls.drop_first())
    }
}

/// Appending one line to the lines appends it, and its `\n`, to the text.
pub proof fn lemma_joined_push(ls: Seq<Seq<char>>, l: Seq<char>)
    ensures
        joined_lines(ls.push(l)) == joined_lines(ls) + l + seq!['\n'],
    decreases ls.len(),
{
    if ls.len() == 0 {
        let one = ls.push(l);
        assert(one.drop_first() =~= Seq::<Seq<char>>::empty());
        assert(joined_lines(one.drop_first()) == Seq::<char>::empty());
        assert(one[0] == l);
        assert(joined_lines(one) =~= l + seq!['\n']);
        assert(joined_lines(ls) == Seq::<char>::empty());
        assert(joined_lines(ls) + l + seq!['\n'] =~= l + seq!['\n']);
    } else {
        lemma_joined_push(ls.drop_first(), l);
        assert(ls.push(l).drop_first() =~= ls.drop_first().push(l));
        assert(joined_lines(ls.push(l)) =~= joined_lines(ls) + l + seq!['\n']);
    }
}

/// Lines without line feeds written out and split again are the same lines.
pub proof fn lemma_raw_lines_joined(ls: Seq<Seq<char>>)
    requires
        forall|k: int| 0 <= k < ls.len() ==> free_of(#[trigger] ls[k], '\n'),
    ensures
        raw_lines(joined_lines(ls)) == ls,
    decreases ls.len(),
{
    if ls.len() > 0 {
        let rest = ls.drop_first();
        assert forall|k: int| 0 <= k < rest.len() implies free_of(#[trigger] rest[k], '\n') by {
            assert(rest[k] == ls[k + 1]);
        }
        lemma_raw_lines_joined(rest);
        let l0 = ls[0];
        assert(free_of(l0, '\n'));
        let s = joined_lines(ls);
        let p = l0.len() as int;
        assert(s =~= l0 + seq!['\n'] + joined_lines(rest));
        assert forall|m: int| 0 <= m < p implies s[m] != '\n' by {
            assert(s[m] == l0[m]);
        }
        lemma_find_from(s, '\n', 0, p);
        assert(s.take(p) =~= l0);
        assert(s.skip(p + 1) =~= joined_lines(rest));
        assert(seq![l0] + rest =~= ls);
    }
}

/// A line that does not end in a carriage return is left as it is.
pub proof fn lemma_strip_cr_unchanged(s: Seq<char>)
    requires
        s.len() == 0 || s.last() != '\r',
    ensures
        strip_cr(s) == s,
{
    assert(trailing_cr(s) == 0);
    assert(s.take(s.len() as int) =~= s);
}

/// Splits `cs` at every `c`, as [`split_on`] describes.
pub fn split_chars(cs: &[char], c: char) -> (r: Vec<Vec<char>>)
    ensures
        r@.map_values(|f: Vec<char>| f@) == split_on(cs@, c),
{
    let mut out: Vec<Vec<char>> = Vec::new();
    let mut pos: usize = 0;
    proof {
        assert(cs@.skip(0) =~= cs@);
        assert(out@.map_values(|f: Vec<char>| f@) + split_on(cs@, c) =~= split_on(cs@, c));
    }
    loop
        invariant
            pos <= cs@.len(),
            out@.map_values(|f: Vec<char>| f@) + split_on(cs@.skip(pos as int), c) == split_on(cs@, c),
        decreases cs@.len() - pos,
    {
        let ghost rest = cs@.skip(pos as int);
        let ghost before = out@.map_values(|f: Vec<char>| f@);
        let e = find_char(cs, c, pos);
        let piece = copy_range(cs, pos, e);
        proof {
            lemma_find_from_bounds(cs@, c, pos as int);
            if e < cs@.len() {
                lemma_find_from(rest, c, 0, e - pos);
            } else {
                lemma_find_from(rest, c, 0, rest.len() as int);
            }
        }
        out.push(piece);
        proof {
            assert(out@.map_values(|f: Vec<char>| f@) =~= before.push(piece@));
        }
        if e >= cs.len() {
            proof {
                assert(split_on(rest, c) == seq![rest]);
                assert(piece@ =~= rest);
                assert(before.push(piece@) =~= before + split_on(rest, c));
            }
            return out;
        }
        proof {
            assert(piece@ =~= rest.take(e - pos));
            assert(rest.skip(e - pos + 1) =~= cs@.skip(e + 1));
            assert(split_on(rest, c) == seq![rest.take(e - pos)] + split_on(cs@.skip(e + 1), c));
            assert(before.push(piece@) + split_on(cs@.skip(e + 1), c) =~= before + split_on(rest, c));
        }
        pos = e + 1;
    }
}

/// The characters `cs[from..to]`.
pub fn copy_range(cs: &[char], from: usize, to: usize) -> (r: Vec<char>)
    requires
        from <= to <= cs@.len(),
    ensures
        r@ == cs@.subrange(from as int, to as int),
{
    let mut out: Vec<char> = Vec::new();
    let mut i = from;
    while i < to
        invariant
            from <= i <= to <= cs@.len(),
            out@ == cs@.subrange(from as int, i as int),
        decreases to - i,
    {
        out.push(cs[i]);
        proof {
            assert(cs@.subrange(from as int, i + 1) =~= cs@.subrange(from as int, i as int).push(
                cs@[i as int],
            ));
        }
        i = i + 1;
    }
    out
}

/// Appends the characters of `s`.
pub fn push_all(out: &mut Vec<char>, s: &[char])
    ensures
        final(out)@ == old(out)@ + s@,
{
    let ghost base = old(out)@;
    let mut i: usize = 0;
    while i < s.len()
        invariant
            i <= s@.len(),
            out@ == base + s@.take(i as int),
        decreases s@.len() - i,
    {
        out.push(s[i]);
        proof {
            assert(s@.take(i + 1) =~= s@.take(i as int).push(s@[i as int]));
        }
        i = i + 1;
    }
    proof {
        assert(s@.take(i as int) =~= s@);
    }
}

/// Appends the characters of `s`.
pub fn push_str_chars(out: &mut Vec<char>, s: &str)
    ensures
        final(out)@ == old(out)@ + s@,
{
    let cs = chars_of(s);
    push_all(out, cs.as_slice());
}

/// `s` begins with `p`.
pub open spec fn starts_with(s: Seq<char>, p: Seq<char>) -> bool {
    p.len() <= s.len() && s.take(p.len() as int) == p
}

pub fn chars_start_with(cs: &[char], p: &[char]) -> (r: bool)
    ensures
        r == starts_with(cs@, p@),
{
    if p.len() > cs.len() {
        return false;
    }
    let mut i: usize = 0;
    while i < p.len()
        invariant
            p@.len() <= cs@.len(),
            i <= p@.len(),
            forall|j: int| 0 <= j < i ==> cs@[j] == p@[j],
        decreases p@.len() - i,
    {
        if cs[i] != p[i] {
            proof {
                assert(cs@.take(p@.len() as int)[i as int] != p@[i as int]);
            }
            return false;
        }
        i = i + 1;
    }
    proof {
        assert(cs@.take(p@.len() as int) =~= p@);
    }
    true
}

pub open spec fn is_digit(c: char) -> bool {
    '0' <= c && c <= '9'
}

/// Non-empty and made of decimal digits only.
pub open spec fn all_digits(s: Seq<char>) -> bool {
    s.len() > 0 && forall|i: int| 0 <= i < s.len() ==> is_digit(#[trigger] s[i])
}

/// The number a run of decimal digits spells.
pub open spec fn digits_value(s: Seq<char>) -> nat
    decreases s.len(),
{
    if s.len() == 0 {
        0
    } else {
        digits_value(s.drop_last()) * 10 + ((s.last() as u32) - 48) as nat
    }
}

/// What `str::parse` gives for an unsigned integer type whose largest value
/// is `max`: an optional `+`, then at least one digit, and nothing else.
pub open spec fn parse_unsigned(s: Seq<char>, max: nat) -> Option<nat> {
    let d = if s.len() > 0 && s[0] == '+' {
        s.drop_first()
    } else {
        s
    };
    if all_digits(d) && digits_value(d) <= max {
        Some(digits_value(d))
    } else {
        None
    }
}

/// What `str::parse` gives for a signed integer type whose values run from
/// `-neg_max` to `max`: as for unsigned, or a `-` then at least one digit.
pub open spec fn parse_signed(s: Seq<char>, neg_max: nat, max: nat) -> Option<int> {
    if s.len() > 0 && s[0] == '-' {
        let d = s.drop_first();
        if all_digits(d) && digits_value(d) <= neg_max {
            Some(-(digits_value(d) as int))
        } else {
            None
        }
    } else {
        match parse_unsigned(s, max) {
            Some(v) => Some(v as int),
            None => None,
        }
    }
}

/// `v` in decimal, with a leading `-` when it is negative.
pub open spec fn signed_decimal(v: int) -> Seq<char> {
    if v < 0 {
        seq!['-'] + decimal((-v) as nat)
    } else {
        decimal(v as nat)
    }
}

/// Written digits read back as the number they were written from.
pub proof fn lemma_decimal_digits(n: nat)
    ensures
        all_digits(decimal(n)),
        digits_value(decimal(n)) == n,
    decreases n,
{
    if n < 10 {
        let s = decimal(n);
        assert(s.drop_last() =~= Seq::<char>::empty());
        assert(s.last() == digit_char(n));
        assert((digit_char(n) as u32) == n + 48);
        assert(digits_value(s) == digits_value(s.drop_last()) * 10 + n);
        assert(digits_value(s.drop_last()) == 0);
    } else {
        lemma_decimal_digits(n / 10);
        let s = decimal(n);
        assert((digit_char(n % 10) as u32) == n % 10 + 48);
        assert(s.last() == digit_char(n % 10));
        assert(s.drop_last() =~= decimal(n / 10));
        assert(digits_value(s) == digits_value(decimal(n / 10)) * 10 + n % 10);
        assert(n == (n / 10) * 10 + n % 10);
        assert(s.drop_last() =~= decimal(n / 10));
        assert forall|i: int| 0 <= i < s.len() implies is_digit(#[trigger] s[i]) by {
            if i < s.len() - 1 {
                assert(s[i] == decimal(n / 10)[i]);
            }
        }
    }
}

/// A number written in decimal parses back to itself.
pub proof fn lemma_parse_unsigned_decimal(n: nat, max: nat)
    requires
        n <= max,
    ensures
        parse_unsigned(decimal(n), max) == Some(n),
{
    lemma_decimal_digits(n);
    assert(is_digit(decimal(n)[0]));
}

/// A signed number written in decimal parses back to itself.
pub proof fn lemma_parse_signed_decimal(v: int, neg_max: nat, max: nat)
    requires
        -neg_max <= v <= max,
    ensures
        parse_signed(signed_decimal(v), neg_max, max) == Some(v),
{
    if v < 0 {
        let s = signed_decimal(v);
        lemma_decimal_digits((-v) as nat);
        assert(s.drop_first() =~= decimal((-v) as nat));
    } else {
        lemma_parse_unsigned_decimal(v as nat, max);
        lemma_decimal_digits(v as nat);
        assert(is_digit(decimal(v as nat)[0]));
    }
}

/// Reads the digits `cs[from..to]`, giving the value when it is at most
/// `max` and nothing when a character is not a digit, there are none, or the
/// value is too large.
fn digits_at_most(cs: &[char], from: usize, to: usize, max: u64) -> (r: Option<u64>)
    requires
        from <= to <= cs@.len(),
    ensures
        ({
            let d = cs@.subrange(from as int, to as int);
            r == (if all_digits(d) && digits_value(d) <= max {
                Some(digits_value(d) as u64)
            } else {
                None
            })
        }),
{
    if from == to {
        return None;
    }
    let cap: u128 = max as u128 + 1;
    let mut acc: u128 = 0;
    let mut i = from;
    while i < to
        invariant
            from <= i <= to <= cs@.len(),
            cap == max + 1,
            all_digits(cs@.subrange(from as int, i as int)) || i == from,
            acc == (if digits_value(cs@.subrange(from as int, i as int)) < cap {
                digits_value(cs@.subrange(from as int, i as int))
            } else {
                cap as nat
            }),
        decreases to - i,
    {
        let c = cs[i];
        let ghost pre = cs@.subrange(from as int, i as int);
        let ghost now = cs@.subrange(from as int, i + 1);
        proof {
            assert(now.drop_last() =~= pre);
            assert(now.last() == c);
        }
        if !('0' <= c && c <= '9') {
            proof {
                let d = cs@.subrange(from as int, to as int);
                assert(d[i - from] == c);
            }
            return None;
        }
        let dv: u128 = ((c as u32) - 48) as u128;
        let next: u128 = acc * 10 + dv;
        acc = if next < cap { next } else { cap };
        proof {
            assert(digits_value(now) == digits_value(pre) * 10 + dv);
            if digits_value(pre) >= cap {
                assert(digits_value(pre) * 10 + dv >= cap) by (nonlinear_arith)
                    requires digits_value(pre) >= cap, dv >= 0;
            }
            assert forall|j: int| 0 <= j < now.len() implies is_digit(#[trigger] now[j]) by {
                if j < pre.len() {
                    assert(now[j] == pre[j]);
                }
            }
        }
        i = i + 1;
    }
    if acc <= max as u128 {
        Some(acc as u64)
    } else {
        None
    }
}

/// `cs[from..to]` parsed as an unsigned integer no larger than `max`, the
/// way `str::parse` reads one.
pub fn parse_unsigned_at(cs: &[char], from: usize, to: usize, max: u64) -> (r: Option<u64>)
    requires
        from <= to <= cs@.len(),
    ensures
        r == (match parse_unsigned(cs@.subrange(from as int, to as int), max as nat) {
            Some(v) => Some(v as u64),
            None => None,
        }),
{
    let ghost s = cs@.subrange(from as int, to as int);
    if from < to && cs[from] == '+' {
        proof {
            assert(s.drop_first() =~= cs@.subrange(from + 1, to as int));
        }
        digits_at_most(cs, from + 1, to, max)
    } else {
        digits_at_most(cs, from, to, max)
    }
}

/// `cs[from..to]` parsed as a signed integer from `-neg_max` to `max`, the
/// way `str::parse` reads one.
pub fn parse_signed_at(cs: &[char], from: usize, to: usize, neg_max: u64, max: u64) -> (r: Option<(bool, u64)>)
    requires
        from <= to <= cs@.len(),
    ensures
        match r {
            Some((neg, m)) => parse_signed(cs@.subrange(from as int, to as int), neg_max as nat, max as nat)
                == Some(if neg { -(m as int) } else { m as int }),
            None => parse_signed(cs@.subrange(from as int, to as int), neg_max as nat, max as nat) is None,
        },
{
    let ghost s = cs@.subrange(from as int, to as int);
    if from < to && cs[from] == '-' {
        proof {
            assert(s.drop_first() =~= cs@.subrange(from + 1, to as int));
        }
        match digits_at_most(cs, from + 1, to, neg_max) {
            Some(m) => Some((true, m)),
            None => None,
        }
    } else {
        match parse_unsigned_at(cs, from, to, max) {
            Some(m) => Some((false, m)),
            None => None,
        }
    }
}

/// The decimal digits of `n` as characters.
pub fn decimal_chars(n: u64) -> (v: Vec<char>)
    ensures
        v@ == decimal(n as nat),
{
    let mut digits: Vec<char> = Vec::new();
    let mut m = n;
    while m >= 10
        invariant
            decimal(n as nat) == decimal(m as nat) + digits@.reverse(),
        decreases m,
    {
        let d = (m % 10) as u32;
        let c = char_of_digit(d);
        proof {
            assert(decimal(m as nat) == decimal((m / 10) as nat).push(digit_char((m % 10) as nat)));
            assert(digits@.push(c).reverse() =~= seq![c] + digits@.reverse());
            assert(decimal((m / 10) as nat).push(c) + digits@.reverse() =~= decimal(
                (m / 10) as nat,
            ) + (seq![c] + digits@.reverse()));
        }
        digits.push(c);
        m = m / 10;
    }
    let c = char_of_digit(m as u32);
    digits.push(c);
    proof {
        assert(decimal(m as nat) == seq![c]);
        assert(digits@.reverse() =~= seq![c] + digits@.drop_last().reverse());
    }
    let mut out: Vec<char> = Vec::new();
    let mut i = digits.len();
    while i > 0
        invariant
            i <= digits@.len(),
            out@ == digits@.subrange(i as int, digits@.len() as int).reverse(),
        decreases i,
    {
        i = i - 1;
        out.push(digits[i]);
        proof {
            assert(digits@.subrange(i as int, digits@.len() as int).reverse() =~= digits@.subrange(
                (i + 1) as int,
                digits@.len() as int,
            ).reverse().push(digits@[i as int]));
        }
    }
    proof {
        assert(digits@.subrange(0, digits@.len() as int) =~= digits@);
        assert(decimal(n as nat) =~= out@);
    }
    out
}

/// Appends `n` in decimal.
pub fn push_decimal(out: &mut Vec<char>, n: u64)
    ensures
        final(out)@ == old(out)@ + decimal(n as nat),
{
    let d = decimal_chars(n);
    push_all(out, d.as_slice());
}

/// Appends `v` in decimal, with a `-` when it is negative.
pub fn push_signed(out: &mut Vec<char>, v: i32)
    ensures
        final(out)@ == old(out)@ + signed_decimal(v as int),
{
    if v < 0 {
        let ghost base = out@;
        out.push('-');
        let m: u64 = (0i64 - (v as i64)) as u64;
        push_decimal(out, m);
        proof {
            assert(base.push('-') + decimal(m as nat) =~= base + (seq!['-'] + decimal(m as nat)));
        }
    } else {
        push_decimal(out, v as u64);
    }
}

} // verus!
