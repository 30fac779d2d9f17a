//! Rewriting the two hash lines of a replay file's text, leaving every
//! other line as its author wrote it.

use crate::arith::{decimal, join, join_num};
use crate::levels::{is_white, white};
use vstd::prelude::*;

verus! {

/// The first `'\n'` at or after `start`, or the end of the text.
pub open spec fn line_end(s: Seq<char>, start: int) -> int
    decreases s.len() - start,
{
    if start < 0 || start >= s.len() {
        s.len() as int
    } else if s[start] == '\n' {
        start
    } else {
        line_end(s, start + 1)
    }
}

/// The first character at or after `start` that is not white space, or the
/// end of the text.
pub open spec fn white_run(s: Seq<char>, start: int) -> int
    decreases s.len() - start,
{
    if start < 0 || start >= s.len() {
        s.len() as int
    } else if !is_white(s[start]) {
        start
    } else {
        white_run(s, start + 1)
    }
}

pub proof fn lemma_line_end(s: Seq<char>, start: int)
    requires
        0 <= start <= s.len(),
    ensures
        start <= line_end(s, start) <= s.len(),
        line_end(s, start) < s.len() ==> s[line_end(s, start)] == '\n',
    decreases s.len() - start,
{
    if start < s.len() && s[start] != '\n' {
        lemma_line_end(s, start + 1);
    }
}

proof fn lemma_white_run(s: Seq<char>, start: int)
    requires
        0 <= start <= s.len(),
    ensures
        start <= white_run(s, start) <= s.len(),
    decreases s.len() - start,
{
    if start < s.len() && is_white(s[start]) {
        lemma_white_run(s, start + 1);
    }
}

/// A line without the `'\r'` of a `"\r\n"` ending.
pub open spec fn strip_cr(l: Seq<char>) -> Seq<char> {
    if l.len() > 0 && l.last() == '\r' {
        l.drop_last()
    } else {
        l
    }
}

/// The lines of the text from `start` on, as `str::lines` yields them: cut
/// at each `'\n'`, a `'\r'` just before it dropped, and no empty line after
/// a final `'\n'`.
pub open spec fn lines_from(s: Seq<char>, start: int) -> Seq<Seq<char>>
    decreases s.len() - start,
{
    if start < 0 || start >= s.len() {
        seq![]
    } else {
        let e = line_end(s, start);
        if e >= s.len() {
            seq![s.subrange(start, s.len() as int)]
        } else {
            proof {
                lemma_line_end(s, start);
            }
            seq![strip_cr(s.subrange(start, e))] + lines_from(s, e + 1)
        }
    }
}

/// Whether, at `at`, the line holds `name`, then optional white space, then
/// a `':'`.
pub open spec fn names_at(l: Seq<char>, at: int, name: Seq<char>) -> bool {
    &&& at + name.len() <= l.len()
    &&& l.subrange(at, at + name.len()) == name
    &&& white_run(l, at + name.len()) < l.len()
    &&& l[white_run(l, at + name.len())] == ':'
}

/// A line after the rewrite: a `ruleset_hash` or `expected_state_hash`
/// field keeps its indentation and takes the new value; any other line
/// stays.
pub open spec fn patched_line(l: Seq<char>, ruleset_hash: u64, state_hash: u64) -> Seq<char> {
    let k = white_run(l, 0);
    if names_at(l, k, "ruleset_hash"@) {
        l.subrange(0, k) + "ruleset_hash: "@ + decimal(ruleset_hash as nat) + ","@
    } else if names_at(l, k, "expected_state_hash"@) {
        l.subrange(0, k) + "expected_state_hash: "@ + decimal(state_hash as nat) + ","@
    } else {
        l
    }
}

pub open spec fn patch_all(ls: Seq<Seq<char>>, ruleset_hash: u64, state_hash: u64) -> Seq<Seq<char>> {
    ls.map_values(|l: Seq<char>| patched_line(l, ruleset_hash, state_hash))
}

/// Lines joined with `'\n'` between them.
pub open spec fn joined(ls: Seq<Seq<char>>) -> Seq<char>
    decreases ls.len(),
{
    if ls.len() == 0 {
        seq![]
    } else if ls.len() == 1 {
        ls[0]
    } else {
        joined(ls.drop_last()) + seq!['\n'] + ls.last()
    }
}

/// The whole text after the rewrite, each line ended by `'\n'`.
pub open spec fn patched_text(s: Seq<char>, ruleset_hash: u64, state_hash: u64) -> Seq<char> {
    joined(patch_all(lines_from(s, 0), ruleset_hash, state_hash)) + seq!['\n']
}

fn line_end_from(s: &str, start: usize) -> (e: usize)
    requires
        start <= s@.len(),
    ensures
        e == line_end(s@, start as int),
{
    let n = s.unicode_len();
    let mut i = start;
    while i < n
        invariant
            n == s@.len(),
            start <= i <= n,
            line_end(s@, i as int) == line_end(s@, start as int),
        decreases n - i,
    {
        if s.get_char(i) == '\n' {
            return i;
        }
        i = i + 1;
    }
    i
}

fn white_run_from(s: &str, start: usize) -> (k: usize)
    requires
        start <= s@.len(),
    ensures
        k == white_run(s@, start as int),
{
    let n = s.unicode_len();
    let mut i = start;
    while i < n
        invariant
            n == s@.len(),
            start <= i <= n,
            white_run(s@, i as int) == white_run(s@, start as int),
        decreases n - i,
    {
        if !white(s.get_char(i)) {
            return i;
        }
        i = i + 1;
    }
    i
}

fn holds_at(s: &str, at: usize, name: &str) -> (b: bool)
    requires
        at <= s@.len(),
    ensures
        b == (at + name@.len() <= s@.len() && s@.subrange(at as int, at + name@.len()) == name@),
{
    let n = s.unicode_len();
    let m = name.unicode_len();
    if m > n - at {
        return false;
    }
    let mut j: usize = 0;
    while j < m
        invariant
            n == s@.len(),
            m == name@.len(),
            at + m <= n,
            j <= m,
            s@.subrange(at as int, at + j) == name@.subrange(0, j as int),
        decreases m - j,
    {
        if s.get_char(at + j) != name.get_char(j) {
            assert(s@.subrange(at as int, at + m)[j as int] != name@[j as int]);
            return false;
        }
        assert(s@.subrange(at as int, at + j + 1) =~= s@.subrange(at as int, at + j).push(s@[at + j]));
        assert(name@.subrange(0, j + 1) =~= name@.subrange(0, j as int).push(name@[j as int]));
        j = j + 1;
    }
    assert(name@.subrange(0, m as int) =~= name@);
    true
}

fn names_field(l: &str, at: usize, name: &str) -> (b: bool)
    requires
        at <= l@.len(),
    ensures
        b == names_at(l@, at as int, name@),
{
    if !holds_at(l, at, name) {
        return false;
    }
    let n = l.unicode_len();
    let m = name.unicode_len();
    let j = white_run_from(l, at + m);
    proof {
        lemma_white_run(l@, at + name@.len());
    }
    j < n && l.get_char(j) == ':'
}

/// One line after the rewrite.
fn patch_line(l: &str, ruleset_hash: u64, state_hash: u64) -> (out: String)
    ensures
        out@ == patched_line(l@, ruleset_hash, state_hash),
{
    let k = white_run_from(l, 0);
    proof {
        lemma_white_run(l@, 0);
    }
    if names_field(l, k, "ruleset_hash") {
        let s = join(String::from_str(l.substring_char(0, k)), "ruleset_hash: ");
        let s = join(join_num(s, ruleset_hash), ",");
        s
    } else if names_field(l, k, "expected_state_hash") {
        let s = join(String::from_str(l.substring_char(0, k)), "expected_state_hash: ");
        let s = join(join_num(s, state_hash), ",");
        s
    } else {
        String::from_str(l)
    }
}

fn without_cr(l: &str) -> (out: &str)
    ensures
        out@ == strip_cr(l@),
{
    let m = l.unicode_len();
    if m > 0 && l.get_char(m - 1) == '\r' {
        l.substring_char(0, m - 1)
    } else {
        l
    }
}

proof fn lemma_joined_push(ls: Seq<Seq<char>>, x: Seq<char>)
    ensures
        joined(ls.push(x)) == if ls.len() == 0 {
            x
        } else {
            joined(ls) + seq!['\n'] + x
        },
{
    assert(ls.push(x).drop_last() =~= ls);
}

proof fn lemma_patch_all_push(ls: Seq<Seq<char>>, x: Seq<char>, ruleset_hash: u64, state_hash: u64)
    ensures
        patch_all(ls.push(x), ruleset_hash, state_hash) == patch_all(ls, ruleset_hash, state_hash).push(
            patched_line(x, ruleset_hash, state_hash),
        ),
{
    assert(patch_all(ls.push(x), ruleset_hash, state_hash) =~= patch_all(ls, ruleset_hash, state_hash).push(
        patched_line(x, ruleset_hash, state_hash),
    ));
}

/// The text of a replay file with its `ruleset_hash` and
/// `expected_state_hash` lines set to new values, every other line kept,
/// and each line ended by `'\n'`.
pub fn patch_hash_lines(text: &str, ruleset_hash: u64, state_hash: u64) -> (out: String)
    ensures
        out@ == patched_text(text@, ruleset_hash, state_hash),
{
    let n = text.unicode_len();
    let mut out = String::new();
    let mut start: usize = 0;
    let mut first = true;
    let ghost mut done: Seq<Seq<char>> = seq![];
    proof {
        assert(seq![] + lines_from(text@, 0) =~= lines_from(text@, 0));
        reveal_strlit("\n");
    }
    while start < n
        invariant
            n == text@.len(),
            start <= n,
            first == (done.len() == 0),
            lines_from(text@, 0) == done + lines_from(text@, start as int),
            out@ == joined(patch_all(done, ruleset_hash, state_hash)),
            "\n"@ == seq!['\n'],
        decreases n - start,
    {
        let e = line_end_from(text, start);
        proof {
            lemma_line_end(text@, start as int);
        }
        let line = if e < n {
            without_cr(text.substring_char(start, e))
        } else {
            text.substring_char(start, n)
        };
        let patched = patch_line(line, ruleset_hash, state_hash);
        if !first {
            out.append("\n");
        }
        out.append(patched.as_str());
        first = false;
        proof {
            let rest = if e < n {
                lines_from(text@, e + 1)
            } else {
                seq![]
            };
            assert(lines_from(text@, start as int) =~= seq![line@] + rest);
            assert(done + (seq![line@] + rest) =~= done.push(line@) + rest);
            lemma_patch_all_push(done, line@, ruleset_hash, state_hash);
            lemma_joined_push(patch_all(done, ruleset_hash, state_hash), patched_line(line@, ruleset_hash, state_hash));
            done = done.push(line@);
        }
        start = if e < n {
            e + 1
        } else {
            n
        };
    }
    proof {
        assert(done + seq![] =~= done);
    }
    out.append("\n");
    out
}

} // verus!
