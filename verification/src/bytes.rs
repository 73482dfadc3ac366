use vstd::prelude::*;

use crate::kw;

verus! {

// ---------------------------------------------------------------------------
// Specifications of byte-string primitives
// ---------------------------------------------------------------------------

/// An optional offset as a `usize`.
pub open spec fn as_usize_opt(o: Option<int>) -> Option<usize> {
    match o {
        Some(k) => Some(k as usize),
        None => None,
    }
}

/// `s` begins with `p`.
pub open spec fn spec_starts_with(s: Seq<u8>, p: Seq<u8>) -> bool {
    p.len() <= s.len() && s.subrange(0, p.len() as int) == p
}

/// `s` ends with `p`.
pub open spec fn spec_ends_with(s: Seq<u8>, p: Seq<u8>) -> bool {
    p.len() <= s.len() && s.subrange(s.len() - p.len(), s.len() as int) == p
}

/// `p` occurs in `s` at offset `i`.
pub open spec fn occurs_at(s: Seq<u8>, p: Seq<u8>, i: int) -> bool {
    0 <= i && i + p.len() <= s.len() && s.subrange(i, i + p.len()) == p
}

/// The first offset `k >= i` at which `p` occurs in `s`.
pub open spec fn first_occurrence_from(s: Seq<u8>, p: Seq<u8>, i: int) -> Option<int>
    decreases s.len() + 1 - i,
{
    if i < 0 || i + p.len() > s.len() {
        None
    } else if occurs_at(s, p, i) {
        Some(i)
    } else {
        first_occurrence_from(s, p, i + 1)
    }
}

/// The first offset at which `p` occurs in `s`.
pub open spec fn first_occurrence(s: Seq<u8>, p: Seq<u8>) -> Option<int> {
    first_occurrence_from(s, p, 0)
}

/// The first index `k >= i` with `s[k] == b`, or `s.len()` when there is none.
pub open spec fn byte_index_from(s: Seq<u8>, b: u8, i: int) -> int
    decreases s.len() - i,
{
    if i < 0 || i >= s.len() {
        s.len() as int
    } else if s[i] == b {
        i
    } else {
        byte_index_from(s, b, i + 1)
    }
}

/// The last index `k < i` with `s[k] == b`.
pub open spec fn last_byte_before(s: Seq<u8>, b: u8, i: int) -> Option<int>
    decreases i,
{
    if i <= 0 {
        None
    } else if s[i - 1] == b {
        Some(i - 1)
    } else {
        last_byte_before(s, b, i - 1)
    }
}

/// What `get_line` gives: the first line of `s` without its line terminator
/// (a `\n`, and a `\r` just before it), and what follows that line.
pub open spec fn spec_get_line(s: Seq<u8>) -> Option<(Seq<u8>, Seq<u8>)> {
    if s.len() == 0 {
        None
    } else {
        let end = byte_index_from(s, 10u8, 0);
        let full = s.subrange(0, end);
        let next = if end < s.len() { s.subrange(end + 1, s.len() as int) } else { Seq::empty() };
        let content = if full.len() > 0 && full.last() == 13u8 { full.drop_last() } else { full };
        Some((content, next))
    }
}

/// `s` without a leading `a/` or `b/`.
pub open spec fn spec_strip_git_prefix(s: Seq<u8>) -> Seq<u8> {
    if spec_starts_with(s, kw::a_slash()) || spec_starts_with(s, kw::b_slash()) {
        s.subrange(2, s.len() as int)
    } else {
        s
    }
}

/// The value of byte `b` as a digit in base `radix`: decimal digits for a
/// radix of ten or more, octal digits for radix eight, nothing otherwise.
pub open spec fn digit_value(b: u8, radix: u32) -> Option<nat> {
    if radix >= 10 && 48 <= b <= 57 {
        Some((b - 48) as nat)
    } else if radix == 8 && 48 <= b <= 55 {
        Some((b - 48) as nat)
    } else {
        None
    }
}

/// The end of the run of digits that starts at `i`.
pub open spec fn digits_end(s: Seq<u8>, radix: u32, i: int) -> int
    decreases s.len() - i,
{
    if 0 <= i < s.len() && digit_value(s[i], radix) is Some {
        digits_end(s, radix, i + 1)
    } else {
        i
    }
}

/// The number that the first `n` bytes of `s` spell in base `radix`.
pub open spec fn digits_number(s: Seq<u8>, radix: u32, n: int) -> nat
    decreases n,
{
    if n <= 0 {
        0
    } else {
        digits_number(s, radix, n - 1) * (radix as nat) + digit_value(s[n - 1], radix).unwrap_or(0)
    }
}

/// What `parse_int` gives: the number that the leading digits of `s` spell,
/// and the rest of `s`; nothing when there is no leading digit or the number
/// does not fit in 64 bits.
pub open spec fn spec_parse_int(s: Seq<u8>, radix: u32) -> Option<(u64, Seq<u8>)> {
    let n = digits_end(s, radix, 0);
    if n == 0 || digits_number(s, radix, n) > u64::MAX {
        None
    } else {
        Some((digits_number(s, radix, n) as u64, s.subrange(n, s.len() as int)))
    }
}

/// `parse_int` in base ten, for a number that fits in 32 bits.
pub open spec fn spec_parse_u32(s: Seq<u8>) -> Option<(u32, Seq<u8>)> {
    spec_parse_int_u32(s, 10)
}

/// `parse_int` for a number that fits in 32 bits.
pub open spec fn spec_parse_int_u32(s: Seq<u8>, radix: u32) -> Option<(u32, Seq<u8>)> {
    match spec_parse_int(s, radix) {
        Some((v, rest)) => if v <= u32::MAX {
            Some((v as u32, rest))
        } else {
            None
        },
        None => None,
    }
}

// ---------------------------------------------------------------------------
// Lemmas
// ---------------------------------------------------------------------------

pub(crate) proof fn lemma_byte_index_from_bounds(s: Seq<u8>, b: u8, i: int)
    requires
        0 <= i <= s.len(),
    ensures
        i <= byte_index_from(s, b, i) <= s.len(),
        byte_index_from(s, b, i) < s.len() ==> s[byte_index_from(s, b, i)] == b,
        forall|k: int| i <= k < byte_index_from(s, b, i) ==> s[k] != b,
    decreases s.len() - i,
{
    if i < s.len() && s[i] != b {
        lemma_byte_index_from_bounds(s, b, i + 1);
    }
}

proof fn lemma_digits_end_bounds(s: Seq<u8>, radix: u32, i: int)
    requires
        0 <= i <= s.len(),
    ensures
        i <= digits_end(s, radix, i) <= s.len(),
        forall|k: int| i <= k < digits_end(s, radix, i) ==> digit_value(#[trigger] s[k], radix) is Some,
    decreases s.len() - i,
{
    if i < s.len() && digit_value(s[i], radix) is Some {
        lemma_digits_end_bounds(s, radix, i + 1);
    }
}

proof fn lemma_digits_number_monotone(s: Seq<u8>, radix: u32, m: int, n: int)
    requires
        0 <= m <= n,
        radix >= 1,
    ensures
        digits_number(s, radix, m) <= digits_number(s, radix, n),
    decreases n - m,
{
    if m < n {
        lemma_digits_number_monotone(s, radix, m, n - 1);
        let a = digits_number(s, radix, n - 1);
        assert(a * (radix as nat) >= a) by (nonlinear_arith)
            requires
                radix >= 1,
        ;
    }
}

pub(crate) proof fn lemma_first_occurrence_from_facts(s: Seq<u8>, p: Seq<u8>, i: int)
    requires
        0 <= i,
    ensures
        first_occurrence_from(s, p, i) matches Some(k) ==> i <= k && occurs_at(s, p, k),
        first_occurrence_from(s, p, i) matches Some(k) ==> forall|j: int|
            i <= j < k ==> !occurs_at(s, p, j),
        first_occurrence_from(s, p, i) is None ==> forall|j: int| i <= j ==> !occurs_at(s, p, j),
    decreases s.len() + 1 - i,
{
    if i + p.len() <= s.len() && !occurs_at(s, p, i) {
        lemma_first_occurrence_from_facts(s, p, i + 1);
    }
}

/// The first occurrence that `find` reports is an occurrence, and no earlier
/// offset holds one.
pub proof fn lemma_first_occurrence(s: Seq<u8>, p: Seq<u8>)
    ensures
        first_occurrence(s, p) matches Some(k) ==> occurs_at(s, p, k) && forall|j: int|
            0 <= j < k ==> !occurs_at(s, p, j),
        first_occurrence(s, p) is None ==> forall|j: int| 0 <= j ==> !occurs_at(s, p, j),
{
    lemma_first_occurrence_from_facts(s, p, 0);
}

// ---------------------------------------------------------------------------
// Executable primitives
// ---------------------------------------------------------------------------

/// Appends the bytes of `s` to `out`.
pub fn extend_from(out: &mut Vec<u8>, s: &[u8])
    ensures
        final(out)@ == old(out)@ + s@,
{
    let ghost before = out@;
    let mut i: usize = 0;
    while i < s.len()
        invariant
            i <= s@.len(),
            out@ == before + s@.subrange(0, i as int),
        decreases s@.len() - i,
    {
        out.push(s[i]);
        i += 1;
        assert(out@ =~= before + s@.subrange(0, i as int));
    }
    assert(s@.subrange(0, i as int) =~= s@);
}

/// Whether `s` begins with `p`.
pub fn starts_with(s: &[u8], p: &[u8]) -> (r: bool)
    ensures
        r == spec_starts_with(s@, p@),
{
    if p.len() > s.len() {
        return false;
    }
    let mut i: usize = 0;
    while i < p.len()
        invariant
            p@.len() <= s@.len(),
            i <= p@.len(),
            forall|k: int| 0 <= k < i ==> s@[k] == p@[k],
        decreases p@.len() - i,
    {
        if s[i] != p[i] {
            assert(s@.subrange(0, p@.len() as int)[i as int] != p@[i as int]);
            return false;
        }
        i += 1;
    }
    assert(s@.subrange(0, p@.len() as int) =~= p@);
    true
}

/// Whether `p` occurs in `s` at offset `at`.
pub fn occurs_at_exec(s: &[u8], p: &[u8], at: usize) -> (r: bool)
    ensures
        r == occurs_at(s@, p@, at as int),
{
    if at > s.len() || p.len() > s.len() - at {
        return false;
    }
    let mut i: usize = 0;
    while i < p.len()
        invariant
            at + p@.len() <= s@.len(),
            s@.len() == s.len(),
            i <= p@.len(),
            forall|k: int| 0 <= k < i ==> s@[at + k] == p@[k],
        decreases p@.len() - i,
    {
        assert(at + i < s@.len());
        if s[at + i] != p[i] {
            assert(s@.subrange(at as int, at + p@.len())[i as int] != p@[i as int]);
            return false;
        }
        i += 1;
    }
    assert(s@.subrange(at as int, at + p@.len()) =~= p@);
    true
}

/// Whether the two byte strings are equal.
pub fn bytes_eq(a: &[u8], b: &[u8]) -> (r: bool)
    ensures
        r == (a@ == b@),
{
    if a.len() != b.len() {
        return false;
    }
    let r = starts_with(a, b);
    assert(a@.subrange(0, b@.len() as int) =~= a@);
    r
}

/// Whether `s` ends with `p`.
pub fn ends_with(s: &[u8], p: &[u8]) -> (r: bool)
    ensures
        r == spec_ends_with(s@, p@),
{
    if p.len() > s.len() {
        return false;
    }
    occurs_at_exec(s, p, s.len() - p.len())
}

/// `s` without the prefix `p`, if `s` begins with `p`.
pub fn strip_prefix<'a>(s: &'a [u8], p: &[u8]) -> (r: Option<&'a [u8]>)
    ensures
        r is Some <==> spec_starts_with(s@, p@),
        r matches Some(rest) ==> rest@ == s@.subrange(p@.len() as int, s@.len() as int),
{
    if starts_with(s, p) {
        Some(&s[p.len()..s.len()])
    } else {
        None
    }
}

/// `s` without the suffix `p`, if `s` ends with `p`.
pub fn strip_suffix<'a>(s: &'a [u8], p: &[u8]) -> (r: Option<&'a [u8]>)
    ensures
        r is Some <==> spec_ends_with(s@, p@),
        r matches Some(rest) ==> rest@ == s@.subrange(0, s@.len() - p@.len()),
{
    if ends_with(s, p) {
        Some(&s[0..s.len() - p.len()])
    } else {
        None
    }
}

/// The first index `k >= from` with `s[k] == b`, or `s.len()`.
pub fn find_byte_from(s: &[u8], b: u8, from: usize) -> (r: usize)
    requires
        from <= s@.len(),
    ensures
        r == byte_index_from(s@, b, from as int),
        from <= r <= s@.len(),
{
    let mut i = from;
    while i < s.len()
        invariant
            from <= i <= s@.len(),
            byte_index_from(s@, b, from as int) == byte_index_from(s@, b, i as int),
        decreases s@.len() - i,
    {
        if s[i] == b {
            return i;
        }
        i += 1;
    }
    i
}

/// The last index before `before` that holds the byte `b`.
pub fn rfind_byte_before(s: &[u8], b: u8, before: usize) -> (r: Option<usize>)
    requires
        before <= s@.len(),
    ensures
        r == as_usize_opt(last_byte_before(s@, b, before as int)),
        r matches Some(k) ==> k < before,
{
    let mut i = before;
    while i > 0
        invariant
            i <= before <= s@.len(),
            last_byte_before(s@, b, before as int) == last_byte_before(s@, b, i as int),
        decreases i,
    {
        if s[i - 1] == b {
            return Some(i - 1);
        }
        i -= 1;
    }
    None
}

/// The first offset `k >= from` at which `needle` occurs in `hay`.
pub fn find_from(hay: &[u8], needle: &[u8], from: usize) -> (r: Option<usize>)
    ensures
        r == as_usize_opt(first_occurrence_from(hay@, needle@, from as int)),
        r is None <==> first_occurrence_from(hay@, needle@, from as int) is None,
        r matches Some(k) ==> first_occurrence_from(hay@, needle@, from as int) == Some(k as int)
            && from <= k && k + needle@.len() <= hay@.len(),
{
    let mut i = from;
    if needle.len() > hay.len() || from > hay.len() {
        return None;
    }
    while needle.len() <= hay.len() - i
        invariant
            i <= hay@.len(),
            from <= i,
            first_occurrence_from(hay@, needle@, from as int) == first_occurrence_from(
                hay@,
                needle@,
                i as int,
            ),
        decreases hay@.len() - i,
    {
        if occurs_at_exec(hay, needle, i) {
            return Some(i);
        }
        if i == hay.len() {
            assert(hay@.subrange(i as int, i as int) =~= needle@);
            return None;
        }
        i += 1;
    }
    None
}

/// The first offset at which `needle` occurs in `hay`.
pub fn find(hay: &[u8], needle: &[u8]) -> (r: Option<usize>)
    ensures
        r == as_usize_opt(first_occurrence(hay@, needle@)),
{
    find_from(hay, needle, 0)
}

/// Splits `s` around the first occurrence of `sep`.
pub fn split_once<'a>(s: &'a [u8], sep: &[u8]) -> (r: Option<(&'a [u8], &'a [u8])>)
    ensures
        r is Some <==> first_occurrence(s@, sep@) is Some,
        r matches Some((x, y)) ==> {
            let k = first_occurrence(s@, sep@).unwrap();
            &&& x@ == s@.subrange(0, k)
            &&& y@ == s@.subrange(k + sep@.len(), s@.len() as int)
        },
{
    proof {
        lemma_first_occurrence(s@, sep@);
    }
    match find(s, sep) {
        Some(k) => {
            assert(s@.len() == s.len());
            assert(occurs_at(s@, sep@, first_occurrence(s@, sep@).unwrap()));
            assert(k as int == first_occurrence(s@, sep@).unwrap());
            Some((&s[0..k], &s[k + sep.len()..s.len()]))
        },
        None => None,
    }
}

/// Splits off the first line of `source`: the line without its `\n` (and a
/// `\r` just before it), and the rest after the `\n`. Nothing for an empty input.
pub fn get_line(source: &[u8]) -> (r: Option<(&[u8], &[u8])>)
    ensures
        r matches Some((line, rest)) ==> spec_get_line(source@) == Some((line@, rest@)),
        r is None <==> spec_get_line(source@) is None,
{
    if source.len() == 0 {
        return None;
    }
    let end = find_byte_from(source, 10u8, 0);
    let full_line = &source[0..end];
    let next_source: &[u8] = if end < source.len() {
        &source[end + 1..source.len()]
    } else {
        &source[source.len()..source.len()]
    };
    let line_content = if full_line.len() > 0 && full_line[full_line.len() - 1] == 13u8 {
        &full_line[0..full_line.len() - 1]
    } else {
        full_line
    };
    proof {
        if end >= source@.len() {
            assert(next_source@ =~= Seq::<u8>::empty());
        }
        if full_line@.len() > 0 && full_line@.last() == 13u8 {
            assert(line_content@ =~= full_line@.drop_last());
        }
    }
    Some((line_content, next_source))
}

/// How a line break ends: the length of the line and the offset after its terminator.
pub proof fn lemma_get_line_parts(s: Seq<u8>)
    requires
        s.len() > 0,
    ensures
        ({
            let (line, rest) = spec_get_line(s).unwrap();
            let end = byte_index_from(s, 10u8, 0);
            &&& 0 <= end <= s.len()
            &&& rest.len() < s.len()
            &&& (end < s.len() ==> rest == s.subrange(end + 1, s.len() as int) && s[end] == 10u8)
            &&& (end == s.len() ==> rest.len() == 0)
            &&& (line == s.subrange(0, end) || (line == s.subrange(0, end - 1) && end >= 1 && s[end
                - 1] == 13u8))
            &&& forall|k: int| 0 <= k < end ==> s[k] != 10u8
        }),
{
    lemma_byte_index_from_bounds(s, 10u8, 0);
}

/// `s` without a leading `a/` or `b/`.
pub fn strip_git_prefix(s: &[u8]) -> (r: &[u8])
    ensures
        r@ == spec_strip_git_prefix(s@),
{
    let a = kw::a_slash_bytes();
    let b = kw::b_slash_bytes();
    if starts_with(s, a.as_slice()) || starts_with(s, b.as_slice()) {
        &s[2..s.len()]
    } else {
        s
    }
}

/// Whether a path is `/dev/null`, which stands for a missing file.
pub fn is_dev_null(s: &[u8]) -> (r: bool)
    ensures
        r == (s@ == kw::dev_null()),
{
    let d = kw::dev_null_bytes();
    bytes_eq(s, d.as_slice())
}

fn digit_of(b: u8, radix: u32) -> (r: Option<u8>)
    ensures
        r matches Some(d) ==> digit_value(b, radix) == Some(d as nat),
        r is None <==> digit_value(b, radix) is None,
{
    if radix >= 10 && 48 <= b && b <= 57 {
        Some(b - 48)
    } else if radix == 8 && 48 <= b && b <= 55 {
        Some(b - 48)
    } else {
        None
    }
}

/// The length of the run of digits at the front of `bytes`.
fn scan_digits(bytes: &[u8], radix: u32) -> (n: usize)
    ensures
        n == digits_end(bytes@, radix, 0),
{
    let mut i: usize = 0;
    while i < bytes.len()
        invariant
            i <= bytes@.len(),
            digits_end(bytes@, radix, 0) == digits_end(bytes@, radix, i as int),
        decreases bytes@.len() - i,
    {
        match digit_of(bytes[i], radix) {
            Some(_) => {},
            None => {
                return i;
            },
        }
        i += 1;
    }
    i
}

/// Reads the number that the leading digits of `bytes` spell in base `radix`
/// (decimal digits for a radix of ten or more, octal digits for radix eight),
/// and returns it with the rest of `bytes`.
pub fn parse_int(bytes: &[u8], radix: u32) -> (r: Option<(u64, &[u8])>)
    ensures
        r matches Some((v, rest)) ==> spec_parse_int(bytes@, radix) == Some((v, rest@)),
        r is None <==> spec_parse_int(bytes@, radix) is None,
{
    let n = scan_digits(bytes, radix);
    if n == 0 {
        return None;
    }
    proof {
        lemma_digits_end_bounds(bytes@, radix, 0);
        assert(digit_value(bytes@[0], radix) is Some);
        assert(radix >= 8);
    }
    let mut num: u64 = 0;
    let mut i: usize = 0;
    while i < n
        invariant
            i <= n <= bytes@.len(),
            n == digits_end(bytes@, radix, 0),
            radix >= 8,
            num == digits_number(bytes@, radix, i as int),
            forall|k: int| 0 <= k < n ==> digit_value(#[trigger] bytes@[k], radix) is Some,
        decreases n - i,
    {
        let d = match digit_of(bytes[i], radix) {
            Some(d) => d,
            None => {
                assert(digit_value(bytes@[i as int], radix) is Some);
                return None;
            },
        };
        let ghost before = num as nat;
        proof {
            assert(digits_number(bytes@, radix, i + 1) == before * (radix as nat) + d);
        }
        let m = num.checked_mul(radix as u64);
        let m = match m {
            Some(m) => m,
            None => {
                proof {
                    assert(digits_number(bytes@, radix, i + 1) >= before * (radix as nat));
                    lemma_digits_number_monotone(bytes@, radix, i + 1, n as int);
                }
                return None;
            },
        };
        let a = m.checked_add(d as u64);
        match a {
            Some(a) => {
                num = a;
            },
            None => {
                proof {
                    lemma_digits_number_monotone(bytes@, radix, i + 1, n as int);
                }
                return None;
            },
        }
        i += 1;
    }
    Some((num, &bytes[n..bytes.len()]))
}

/// Reads a decimal number that fits in 32 bits from the front of `bytes`.
pub fn parse_u32(bytes: &[u8]) -> (r: Option<(u32, &[u8])>)
    ensures
        r matches Some((v, rest)) ==> spec_parse_u32(bytes@) == Some((v, rest@)),
        r is None <==> spec_parse_u32(bytes@) is None,
{
    parse_int_u32(bytes, 10)
}

/// Reads a number in base `radix` that fits in 32 bits from the front of `bytes`.
pub fn parse_int_u32(bytes: &[u8], radix: u32) -> (r: Option<(u32, &[u8])>)
    ensures
        r matches Some((v, rest)) ==> spec_parse_int_u32(bytes@, radix) == Some((v, rest@)),
        r is None <==> spec_parse_int_u32(bytes@, radix) is None,
{
    match parse_int(bytes, radix) {
        Some((v, rest)) => if v <= 0xffff_ffffu64 {
            Some((v as u32, rest))
        } else {
            None
        },
        None => None,
    }
}

} // verus!
