//! Where exported files go and what they are called.
//!
//! A bundled application launched from the Finder has no meaningful working
//! directory, so exports go to a fixed folder in the user's home (found by
//! the caller) and the interface always shows the full path it wrote.
use vstd::prelude::*;
use crate::text::{chars_of, decimal, decimal_string, push_all, string_of};

verus! {

/// `name-stamp.extension`.
pub open spec fn file_name(name: Seq<char>, stamp: Seq<char>, extension: Seq<char>) -> Seq<char> {
    name + seq!['-'] + stamp + seq!['.'] + extension
}

/// The folder in the user's home that exports go to.
pub open spec fn export_folder() -> Seq<char> {
    seq!['m', 'o', 'u', 's', 'e', '-', 't', 'e', 's', 't', 'i', 'n', 'g', '-', 'e', 'x', 'p', 'o', 'r', 't', 's']
}

/// A path separator on a platform whose own separator is `sep`: `/` is one
/// everywhere.
pub open spec fn is_sep(c: char, sep: char) -> bool {
    c == '/' || c == sep
}

/// `file` joined onto `dir` the way a path joins on a platform whose
/// separator is `sep`: a file that starts at a root stands alone, an empty
/// directory adds nothing, and a separator goes between the two only where
/// the directory does not already end in one. (Windows drive prefixes such
/// as `C:` on their own are not treated apart.)
pub open spec fn join_path(dir: Seq<char>, file: Seq<char>, sep: char) -> Seq<char> {
    if file.len() > 0 && is_sep(file[0], sep) {
        file
    } else if dir.len() == 0 {
        file
    } else if is_sep(dir.last(), sep) {
        dir + file
    } else {
        dir + seq![sep] + file
    }
}

fn join(dir: &[char], file: &[char], sep: char) -> (r: Vec<char>)
    ensures
        r@ == join_path(dir@, file@, sep),
{
    let mut out: Vec<char> = Vec::new();
    if file.len() > 0 && (file[0] == '/' || file[0] == sep) {
        push_all(&mut out, file);
        proof {
            assert(Seq::<char>::empty() + file@ =~= file@);
        }
    } else if dir.len() == 0 {
        push_all(&mut out, file);
        proof {
            assert(Seq::<char>::empty() + file@ =~= file@);
        }
    } else {
        push_all(&mut out, dir);
        let last = dir[dir.len() - 1];
        if !(last == '/' || last == sep) {
            out.push(sep);
        }
        push_all(&mut out, file);
        proof {
            assert(Seq::<char>::empty() + dir@ =~= dir@);
        }
    }
    out
}

fn folder_chars() -> (v: Vec<char>)
    ensures
        v@ == export_folder(),
{
    let v = vec!['m', 'o', 'u', 's', 'e', '-', 't', 'e', 's', 't', 'i', 'n', 'g', '-', 'e', 'x', 'p', 'o', 'r', 't', 's'];
    proof {
        assert(v@ =~= export_folder());
    }
    v
}

/// The export folder: `mouse-testing-exports` in `home`, joined with the
/// platform separator `sep`. The caller finds `home` in the environment
/// (`HOME`, else `USERPROFILE`, else `.`).
pub fn dir(home: &str, sep: char) -> (d: String)
    ensures
        d@ == join_path(home@, export_folder(), sep),
{
    let h = chars_of(home);
    let f = folder_chars();
    let j = join(h.as_slice(), f.as_slice(), sep);
    string_of(j.as_slice())
}

/// Full path for a new export: `name-stamp.extension` in the export folder
/// of `home`, joined with the platform separator `sep`. `stamp` should be a
/// caller-supplied counter or time so two exports in one session do not
/// overwrite each other.
pub fn path_for(home: &str, sep: char, name: &str, stamp: &str, extension: &str) -> (p: String)
    ensures
        p@ == join_path(join_path(home@, export_folder(), sep), file_name(name@, stamp@, extension@), sep),
{
    let mut file: Vec<char> = Vec::new();
    push_all(&mut file, chars_of(name).as_slice());
    file.push('-');
    push_all(&mut file, chars_of(stamp).as_slice());
    file.push('.');
    push_all(&mut file, chars_of(extension).as_slice());
    proof {
        assert(file@ =~= file_name(name@, stamp@, extension@));
    }
    let h = chars_of(home);
    let f = folder_chars();
    let d = join(h.as_slice(), f.as_slice(), sep);
    let p = join(d.as_slice(), file.as_slice(), sep);
    string_of(p.as_slice())
}

/// Joining two different names with the same first character onto one
/// directory gives two different paths.
proof fn lemma_join_keeps_apart(dir: Seq<char>, f1: Seq<char>, f2: Seq<char>, sep: char)
    requires
        f1 != f2,
        f1.len() > 0,
        f2.len() > 0,
        f1[0] == f2[0],
    ensures
        join_path(dir, f1, sep) != join_path(dir, f2, sep),
{
    let j1 = join_path(dir, f1, sep);
    let j2 = join_path(dir, f2, sep);
    if !is_sep(f1[0], sep) && dir.len() > 0 {
        let pre = if is_sep(dir.last(), sep) { dir } else { dir + seq![sep] };
        assert(j1 == pre + f1 && j2 == pre + f2);
        if j1 == j2 {
            assert(j1.skip(pre.len() as int) =~= f1);
            assert(j2.skip(pre.len() as int) =~= f2);
        }
    }
}

/// Two exports of one kind with different stamps get different paths, so
/// one never overwrites the other.
pub proof fn lemma_stamps_keep_names_apart(
    home: Seq<char>,
    sep: char,
    name: Seq<char>,
    s1: Seq<char>,
    s2: Seq<char>,
    extension: Seq<char>,
)
    requires
        s1 != s2,
    ensures
        join_path(join_path(home, export_folder(), sep), file_name(name, s1, extension), sep) != join_path(
            join_path(home, export_folder(), sep),
            file_name(name, s2, extension),
            sep,
        ),
{
    let f1 = file_name(name, s1, extension);
    let f2 = file_name(name, s2, extension);
    if s1.len() == s2.len() {
        assert(!(s1 =~= s2));
        let k = choose|k: int| 0 <= k < s1.len() && s1[k] != s2[k];
        assert(f1[name.len() + 1 + k] == s1[k]);
        assert(f2[name.len() + 1 + k] == s2[k]);
    } else {
        assert(f1.len() != f2.len());
    }
    assert(f1[0] == f2[0]) by {
        if name.len() == 0 {
            assert(f1[0] == '-' && f2[0] == '-');
        } else {
            assert(f1[0] == name[0] && f2[0] == name[0]);
        }
    }
    lemma_join_keeps_apart(join_path(home, export_folder(), sep), f1, f2, sep);
}

/// A filesystem-safe stamp from seconds since the epoch: plain decimal, which
/// sorts correctly, needs no date library, and cannot produce a name that
/// differs between platforms.
pub fn stamp(secs: u64) -> (s: String)
    ensures
        s@ == decimal(secs as nat),
{
    decimal_string(secs)
}

} // verus!
