//! Building blocks of the plain-text session summary: headed sections,
//! aligned key and value lines, and values with their units.
use vstd::prelude::*;
use crate::text::{chars_of, push_all, string_of, trim_range, trimmed};

verus! {

broadcast use vstd::string::group_string_axioms;

/// `n` copies of `c`.
pub open spec fn repeated(c: char, n: nat) -> Seq<char> {
    Seq::new(n, |i: int| c)
}

/// The width a key is padded to.
pub const KEY_WIDTH: usize = 24;

fn push_repeated(out: &mut Vec<char>, c: char, n: usize)
    ensures
        final(out)@ == old(out)@ + repeated(c, n as nat),
{
    let ghost base = old(out)@;
    let mut i: usize = 0;
    while i < n
        invariant
            i <= n,
            out@ == base + repeated(c, i as nat),
        decreases n - i,
    {
        out.push(c);
        proof {
            assert(repeated(c, (i + 1) as nat) =~= repeated(c, i as nat).push(c));
        }
        i = i + 1;
    }
}

fn push_string(s: &mut String, cs: &Vec<char>)
    ensures
        final(s)@ == old(s)@ + cs@,
{
    let ghost base = old(s)@;
    let mut i: usize = 0;
    while i < cs.len()
        invariant
            i <= cs@.len(),
            s@ == base + cs@.take(i as int),
        decreases cs@.len() - i,
    {
        s.push(cs[i]);
        proof {
            assert(cs@.take(i + 1) =~= cs@.take(i as int).push(cs@[i as int]));
        }
        i = i + 1;
    }
    proof {
        assert(cs@.take(i as int) =~= cs@);
    }
}

/// A heading: the title, then a rule of dashes as long as the title's bytes.
pub fn section(s: &mut String, title: &str)
    ensures
        final(s)@ == old(s)@ + title@ + seq!['\n'] + repeated('-', title.len() as nat)
            + seq!['\n'],
{
    let mut out: Vec<char> = Vec::new();
    push_all(&mut out, chars_of(title).as_slice());
    out.push('\n');
    push_repeated(&mut out, '-', title.len());
    out.push('\n');
    push_string(s, &out);
    proof {
        assert(out@ =~= title@ + seq!['\n'] + repeated('-', title.len() as nat) + seq!['\n']);
    }
}

/// One aligned line: the key indented by two spaces and padded to
/// [`KEY_WIDTH`] characters, two spaces, then the value.
pub open spec fn kv_text(k: Seq<char>, v: Seq<char>) -> Seq<char> {
    let pad = if k.len() < KEY_WIDTH { (KEY_WIDTH - k.len()) as nat } else { 0nat };
    "  "@ + k + repeated(' ', pad) + "  "@ + v + seq!['\n']
}

pub fn kv(s: &mut String, k: &str, v: &str)
    ensures
        final(s)@ == old(s)@ + kv_text(k@, v@),
{
    let kc = chars_of(k);
    let mut out: Vec<char> = Vec::new();
    out.push(' ');
    out.push(' ');
    push_all(&mut out, kc.as_slice());
    let pad = if kc.len() < KEY_WIDTH { KEY_WIDTH - kc.len() } else { 0 };
    push_repeated(&mut out, ' ', pad);
    out.push(' ');
    out.push(' ');
    push_all(&mut out, chars_of(v).as_slice());
    out.push('\n');
    push_string(s, &out);
    proof {
        reveal_strlit("  ");
        assert(out@ =~= kv_text(k@, v@));
    }
}

/// A stated value with its unit, or "not stated" when nothing was given.
pub open spec fn plain_text(v: Seq<char>, unit: Seq<char>) -> Seq<char> {
    if trimmed(v).len() == 0 {
        "not stated"@
    } else {
        trimmed(v) + seq![' '] + unit
    }
}

pub fn plain(v: &str, unit: &str) -> (r: String)
    ensures
        r@ == plain_text(v@, unit@),
{
    let vc = chars_of(v);
    let t = trim_range(vc.as_slice(), 0, vc.len());
    proof {
        assert(vc@.subrange(0, vc@.len() as int) =~= vc@);
    }
    if t.len() == 0 {
        return String::from_str("not stated");
    }
    let mut out = t;
    out.push(' ');
    push_all(&mut out, chars_of(unit).as_slice());
    string_of(out.as_slice())
}

/// The line for a measurement that was not run this session.
pub fn not_measured(s: &mut String, what: &str)
    ensures
        final(s)@ == old(s)@ + kv_text(what@, "not measured this session"@),
{
    kv(s, what, "not measured this session");
}

} // verus!
