use vstd::prelude::*;

use crate::bytes::{spec_starts_with, spec_strip_git_prefix, starts_with, strip_git_prefix};

verus! {

// File names in patch headers: plain, or in double quotes with C-style
// escapes, and with git's `a/` and `b/` prefixes.

/// The byte that a one-letter escape `\c` stands for.
pub open spec fn escape_byte(c: u8) -> u8 {
    if c == 110 {
        10u8
    } else if c == 116 {
        9u8
    } else if c == 114 {
        13u8
    } else if c == 97 {
        7u8
    } else if c == 98 {
        8u8
    } else if c == 102 {
        12u8
    } else if c == 118 {
        11u8
    } else {
        c
    }
}

pub open spec fn is_octal(c: u8) -> bool {
    48 <= c <= 55
}

/// Whether an escape at `i` (the byte after the backslash) is three octal digits.
pub open spec fn octal_escape_at(s: Seq<u8>, i: int) -> bool {
    0 <= i && i + 3 <= s.len() && is_octal(s[i]) && is_octal(s[i + 1]) && is_octal(s[i + 2])
}

/// The byte that three octal digits spell, modulo 256.
pub open spec fn octal_value(a: u8, b: u8, c: u8) -> u8 {
    (((a - 48) * 64 + (b - 48) * 8 + (c - 48)) % 256) as u8
}

/// The bytes that the C-style escaped text `s[i..]` stands for. A backslash
/// at the very end stands for itself.
pub open spec fn spec_unescape_from(s: Seq<u8>, i: int) -> Seq<u8>
    decreases s.len() - i,
{
    if i < 0 || i >= s.len() {
        Seq::empty()
    } else if s[i] == 92 && i + 1 < s.len() {
        if octal_escape_at(s, i + 1) {
            seq![octal_value(s[i + 1], s[i + 2], s[i + 3])] + spec_unescape_from(s, i + 4)
        } else {
            seq![escape_byte(s[i + 1])] + spec_unescape_from(s, i + 2)
        }
    } else {
        seq![s[i]] + spec_unescape_from(s, i + 1)
    }
}

/// A path as a patch header writes it, unquoted and without its `a/` or `b/`
/// prefix: a name in double quotes loses the quotes and its escapes.
pub open spec fn spec_unquote_path(p: Seq<u8>) -> Seq<u8> {
    if p.len() >= 2 && p[0] == 34 && p.last() == 34 {
        spec_strip_git_prefix(spec_unescape_from(p.subrange(1, p.len() - 1), 0))
    } else {
        spec_strip_git_prefix(p)
    }
}

/// The offset of the quote that closes a quoted name whose text starts at `i`.
pub open spec fn closing_quote_from(s: Seq<u8>, i: int) -> Option<int>
    decreases s.len() + 1 - i,
{
    if i < 0 || i >= s.len() {
        None
    } else if s[i] == 34 {
        Some(i)
    } else if s[i] == 92 {
        closing_quote_from(s, i + 2)
    } else {
        closing_quote_from(s, i + 1)
    }
}

/// The end of the run of bytes from `i` that are neither a space nor a tab.
pub open spec fn word_end_from(s: Seq<u8>, i: int) -> int
    decreases s.len() - i,
{
    if i < 0 || i >= s.len() || s[i] == 32 || s[i] == 9 {
        i
    } else {
        word_end_from(s, i + 1)
    }
}

/// The end of the run of spaces and tabs from `i`.
pub open spec fn spaces_end_from(s: Seq<u8>, i: int) -> int
    decreases s.len() - i,
{
    if 0 <= i < s.len() && (s[i] == 32 || s[i] == 9) {
        spaces_end_from(s, i + 1)
    } else {
        i
    }
}

/// The extent of the path that starts `s`: a quoted name up to its closing
/// quote, or the bytes up to the first space or tab. Nothing for an empty
/// path or an unterminated quote.
pub open spec fn spec_path_end(s: Seq<u8>) -> Option<int> {
    if s.len() > 0 && s[0] == 34 {
        match closing_quote_from(s, 1) {
            Some(q) => Some(q + 1),
            None => None,
        }
    } else {
        let e = word_end_from(s, 0);
        if e == 0 {
            None
        } else {
            Some(e)
        }
    }
}

/// Two paths in a row: the first, then (after blanks) `sep`, then (after
/// blanks) the second, then nothing but blanks. Both are unquoted.
pub open spec fn spec_next_path_pair(s: Seq<u8>, sep: Seq<u8>) -> Option<(Seq<u8>, Seq<u8>)> {
    match spec_path_end(s) {
        None => None,
        Some(e1) => {
            let r1 = s.subrange(spaces_end_from(s, e1), s.len() as int);
            if !spec_starts_with(r1, sep) {
                None
            } else {
                let r2 = r1.subrange(sep.len() as int, r1.len() as int);
                let t = r2.subrange(spaces_end_from(r2, 0), r2.len() as int);
                match spec_path_end(t) {
                    None => None,
                    Some(e2) => if spaces_end_from(t, e2) != t.len() {
                        None
                    } else {
                        Some(
                            (
                                spec_unquote_path(s.subrange(0, e1)),
                                spec_unquote_path(t.subrange(0, e2)),
                            ),
                        )
                    },
                }
            }
        },
    }
}

proof fn lemma_unescape_step(s: Seq<u8>, i: int)
    requires
        0 <= i <= s.len(),
    ensures
        spec_unescape_from(s, i).len() <= s.len() - i,
    decreases s.len() - i,
{
    if i < s.len() {
        if s[i] == 92 && i + 1 < s.len() {
            if octal_escape_at(s, i + 1) {
                lemma_unescape_step(s, i + 4);
            } else {
                lemma_unescape_step(s, i + 2);
            }
        } else {
            lemma_unescape_step(s, i + 1);
        }
    }
}

fn is_octal_exec(c: u8) -> (r: bool)
    ensures
        r == is_octal(c),
{
    48 <= c && c <= 55
}

/// The bytes that C-style escaped text stands for.
pub fn unescape(s: &[u8]) -> (r: Vec<u8>)
    ensures
        r@ == spec_unescape_from(s@, 0),
{
    let mut out: Vec<u8> = Vec::new();
    let mut i: usize = 0;
    while i < s.len()
        invariant
            i <= s@.len(),
            s@.len() == s.len(),
            spec_unescape_from(s@, 0) == out@ + spec_unescape_from(s@, i as int),
        decreases s@.len() - i,
    {
        let ghost before = out@;
        if s[i] == 92 && i + 1 < s.len() {
            if s.len() - i >= 4 && is_octal_exec(s[i + 1]) && is_octal_exec(s[i + 2]) && is_octal_exec(
                s[i + 3],
            ) {
                let v: u32 = ((s[i + 1] - 48) as u32 * 64 + (s[i + 2] - 48) as u32 * 8 + (s[i + 3]
                    - 48) as u32) % 256;
                out.push(v as u8);
                assert(out@ + spec_unescape_from(s@, i + 4) =~= before + spec_unescape_from(
                    s@,
                    i as int,
                ));
                i += 4;
            } else {
                let c = s[i + 1];
                let b = if c == 110 {
                    10u8
                } else if c == 116 {
                    9u8
                } else if c == 114 {
                    13u8
                } else if c == 97 {
                    7u8
                } else if c == 98 {
                    8u8
                } else if c == 102 {
                    12u8
                } else if c == 118 {
                    11u8
                } else {
                    c
                };
                out.push(b);
                assert(out@ + spec_unescape_from(s@, i + 2) =~= before + spec_unescape_from(
                    s@,
                    i as int,
                ));
                i += 2;
            }
        } else {
            out.push(s[i]);
            assert(out@ + spec_unescape_from(s@, i + 1) =~= before + spec_unescape_from(
                s@,
                i as int,
            ));
            i += 1;
        }
    }
    assert(out@ + spec_unescape_from(s@, i as int) =~= out@);
    out
}

/// A header path unquoted and without its `a/` or `b/` prefix.
pub fn unquote_path(p: &[u8]) -> (r: Vec<u8>)
    ensures
        r@ == spec_unquote_path(p@),
{
    if p.len() >= 2 && p[0] == 34 && p[p.len() - 1] == 34 {
        let inner = &p[1..p.len() - 1];
        let un = unescape(inner);
        let stripped = strip_git_prefix(un.as_slice());
        let mut out: Vec<u8> = Vec::new();
        copy_into(&mut out, stripped);
        out
    } else {
        let stripped = strip_git_prefix(p);
        let mut out: Vec<u8> = Vec::new();
        copy_into(&mut out, stripped);
        out
    }
}

/// Appends the bytes of `s` to `out`.
pub fn copy_into(out: &mut Vec<u8>, s: &[u8])
    ensures
        final(out)@ == old(out)@ + s@,
{
    let ghost before = out@;
    let mut i: usize = 0;
    while i < s.len()
        invariant
            i <= s@.len(),
            out@ == before + s@.subrange(0, i as int),
        decreases s@.len() - i,
    {
        out.push(s[i]);
        i += 1;
        assert(out@ =~= before + s@.subrange(0, i as int));
    }
    assert(s@.subrange(0, i as int) =~= s@);
}

proof fn lemma_closing_quote_bounds(s: Seq<u8>, i: int)
    requires
        0 <= i,
    ensures
        closing_quote_from(s, i) matches Some(q) ==> i <= q < s.len(),
    decreases s.len() + 1 - i,
{
    if i < s.len() && s[i] != 34 {
        if s[i] == 92 {
            lemma_closing_quote_bounds(s, i + 2);
        } else {
            lemma_closing_quote_bounds(s, i + 1);
        }
    }
}

fn closing_quote(s: &[u8], from: usize) -> (r: Option<usize>)
    requires
        from <= s@.len(),
    ensures
        r == (match closing_quote_from(s@, from as int) {
            Some(q) => Some(q as usize),
            None => None,
        }),
        r matches Some(q) ==> q < s@.len(),
{
    let mut i = from;
    while i < s.len()
        invariant
            s@.len() == s.len(),
            closing_quote_from(s@, from as int) == closing_quote_from(s@, i as int),
        decreases s@.len() - i,
    {
        if s[i] == 34 {
            return Some(i);
        } else if s[i] == 92 {
            if s.len() - i < 2 {
                assert(closing_quote_from(s@, i + 2) is None);
                return None;
            }
            i += 2;
        } else {
            i += 1;
        }
    }
    None
}

proof fn lemma_word_end_bounds(s: Seq<u8>, i: int)
    requires
        0 <= i <= s.len(),
    ensures
        i <= word_end_from(s, i) <= s.len(),
    decreases s.len() - i,
{
    if i < s.len() && s[i] != 32 && s[i] != 9 {
        lemma_word_end_bounds(s, i + 1);
    }
}

fn word_end(s: &[u8], from: usize) -> (r: usize)
    requires
        from <= s@.len(),
    ensures
        r == word_end_from(s@, from as int),
        from <= r <= s@.len(),
{
    let mut i = from;
    while i < s.len() && s[i] != 32 && s[i] != 9
        invariant
            from <= i <= s@.len(),
            word_end_from(s@, from as int) == word_end_from(s@, i as int),
        decreases s@.len() - i,
    {
        i += 1;
    }
    i
}

fn spaces_end(s: &[u8], from: usize) -> (r: usize)
    requires
        from <= s@.len(),
    ensures
        r == spaces_end_from(s@, from as int),
        from <= r <= s@.len(),
{
    let mut i = from;
    while i < s.len() && (s[i] == 32 || s[i] == 9)
        invariant
            from <= i <= s@.len(),
            spaces_end_from(s@, from as int) == spaces_end_from(s@, i as int),
        decreases s@.len() - i,
    {
        i += 1;
    }
    i
}

fn path_end(s: &[u8]) -> (r: Option<usize>)
    ensures
        r == (match spec_path_end(s@) {
            Some(e) => Some(e as usize),
            None => None,
        }),
        r matches Some(e) ==> 0 < e <= s@.len(),
        spec_path_end(s@) matches Some(e) ==> 0 < e <= s@.len(),
{
    proof {
        lemma_word_end_bounds(s@, 0);
    }
    if s.len() > 0 && s[0] == 34 {
        proof {
            lemma_closing_quote_bounds(s@, 1);
        }
        match closing_quote(s, 1) {
            Some(q) => Some(q + 1),
            None => None,
        }
    } else {
        let e = word_end(s, 0);
        if e == 0 {
            None
        } else {
            Some(e)
        }
    }
}

/// Reads two paths in a row, separated by `sep` and blanks, as in
/// `a/old b/new` or `"a/x y" and "b/x y"`; both come back unquoted.
pub fn next_path_pair(s: &[u8], sep: &[u8]) -> (r: Option<(Vec<u8>, Vec<u8>)>)
    ensures
        r is Some <==> spec_next_path_pair(s@, sep@) is Some,
        r matches Some((a, b)) ==> spec_next_path_pair(s@, sep@) == Some((a@, b@)),
{
    let e1 = match path_end(s) {
        Some(e) => e,
        None => return None,
    };
    let k = spaces_end(s, e1);
    let r1 = &s[k..s.len()];
    assert(r1@ == s@.subrange(spaces_end_from(s@, e1 as int), s@.len() as int));
    if !starts_with(r1, sep) {
        return None;
    }
    let r2 = &r1[sep.len()..r1.len()];
    let k2 = spaces_end(r2, 0);
    let t = &r2[k2..r2.len()];
    assert(r2@ == r1@.subrange(sep@.len() as int, r1@.len() as int));
    assert(t@ == r2@.subrange(spaces_end_from(r2@, 0), r2@.len() as int));
    let e2 = match path_end(t) {
        Some(e) => e,
        None => return None,
    };
    if spaces_end(t, e2) != t.len() {
        return None;
    }
    let first = unquote_path(&s[0..e1]);
    let second = unquote_path(&t[0..e2]);
    Some((first, second))
}

} // verus!
