//! Byte-level text handling: lines, whitespace-separated tokens, prefixes and
//! unsigned decimal numbers.
//!
//! Text is a sequence of bytes. Whitespace is ASCII whitespace: the space and
//! the bytes 9 to 13 (tab, line feed, vertical tab, form feed, carriage return).

use vstd::prelude::*;
use vstd::slice::slice_subrange;
use vstd::slice::slice_to_vec;

verus! {

/// The views of the rows of `v`, in order.
pub open spec fn byte_rows(v: Seq<Vec<u8>>) -> Seq<Seq<u8>> {
    Seq::new(v.len(), |i: int| v[i]@)
}

/// Whether `b` is an ASCII whitespace byte.
pub open spec fn is_space(b: u8) -> bool {
    b == 32 || (9 <= b && b <= 13)
}

/// Whether `s` begins with `prefix`.
pub open spec fn has_prefix(s: Seq<u8>, prefix: Seq<u8>) -> bool {
    prefix.len() <= s.len() && s.subrange(0, prefix.len() as int) == prefix
}

/// The first position at or after `from` that holds a whitespace byte, or the
/// length of `s` if there is none.
pub open spec fn token_end(s: Seq<u8>, from: int) -> int
    decreases s.len() - from,
{
    if 0 <= from < s.len() && !is_space(s[from]) {
        token_end(s, from + 1)
    } else {
        from
    }
}

/// The first position at or after `from` that holds a line feed, or the length
/// of `s` if there is none.
pub open spec fn line_end(s: Seq<u8>, from: int) -> int
    decreases s.len() - from,
{
    if 0 <= from < s.len() && s[from] != 10 {
        line_end(s, from + 1)
    } else {
        from
    }
}

/// A token ends at or after its start and inside the text; it holds no
/// whitespace, and whitespace follows it unless the text ends there.
pub proof fn lemma_token_end_bounds(s: Seq<u8>, from: int)
    requires
        0 <= from <= s.len(),
    ensures
        from <= token_end(s, from) <= s.len(),
        from < s.len() && !is_space(s[from]) ==> from < token_end(s, from),
        forall|k: int| from <= k < token_end(s, from) ==> !is_space(#[trigger] s[k]),
        token_end(s, from) < s.len() ==> is_space(s[token_end(s, from)]),
    decreases s.len() - from,
{
    if from < s.len() && !is_space(s[from]) {
        lemma_token_end_bounds(s, from + 1);
    }
}

/// A line ends at or after its start and inside the text; it holds no line
/// feed, and a line feed follows it unless the text ends there.
pub proof fn lemma_line_end_bounds(s: Seq<u8>, from: int)
    requires
        0 <= from <= s.len(),
    ensures
        from <= line_end(s, from) <= s.len(),
        forall|k: int| from <= k < line_end(s, from) ==> #[trigger] s[k] != 10,
        line_end(s, from) < s.len() ==> s[line_end(s, from)] == 10,
    decreases s.len() - from,
{
    if from < s.len() && s[from] != 10 {
        lemma_line_end_bounds(s, from + 1);
    }
}

/// The whitespace-separated tokens of `s` that start at or after `from`.
pub open spec fn tokens_from(s: Seq<u8>, from: int) -> Seq<Seq<u8>>
    decreases s.len() - from,
    via tokens_from_decreases
{
    if from < 0 || from >= s.len() {
        Seq::empty()
    } else if is_space(s[from]) {
        tokens_from(s, from + 1)
    } else {
        seq![s.subrange(from, token_end(s, from))] + tokens_from(s, token_end(s, from))
    }
}

/// Termination of `tokens_from`: a token that starts at a byte that is no
/// whitespace ends after it.
#[via_fn]
proof fn tokens_from_decreases(s: Seq<u8>, from: int) {
    if 0 <= from < s.len() && !is_space(s[from]) {
        lemma_token_end_bounds(s, from);
    }
}

/// The maximal runs of non-whitespace bytes of `s`, in order.
pub open spec fn tokens(s: Seq<u8>) -> Seq<Seq<u8>> {
    tokens_from(s, 0)
}

/// A line without its terminator: with a line feed after it, one carriage
/// return directly before the line feed is dropped as well.
pub open spec fn line_body(s: Seq<u8>, from: int, end: int) -> Seq<u8> {
    if end < s.len() && from < end && s[end - 1] == 13 {
        s.subrange(from, end - 1)
    } else {
        s.subrange(from, end)
    }
}

/// The lines of `s` that start at or after `from`.
pub open spec fn lines_from(s: Seq<u8>, from: int) -> Seq<Seq<u8>>
    decreases s.len() + 1 - from,
    via lines_from_decreases
{
    if from < 0 || from >= s.len() {
        Seq::empty()
    } else {
        seq![line_body(s, from, line_end(s, from))] + lines_from(s, line_end(s, from) + 1)
    }
}

/// Termination of `lines_from`: the next line starts after the line feed.
#[via_fn]
proof fn lines_from_decreases(s: Seq<u8>, from: int) {
    if 0 <= from < s.len() {
        lemma_line_end_bounds(s, from);
    }
}

/// The physical lines of `s`: the text is cut after every line feed, a last
/// line needs none, and no line holds its terminator.
pub open spec fn lines(s: Seq<u8>) -> Seq<Seq<u8>> {
    lines_from(s, 0)
}

/// Compares two byte strings.
pub fn bytes_eq(a: &[u8], b: &[u8]) -> (r: bool)
    ensures
        r == (a@ == b@),
{
    if a.len() != b.len() {
        return false;
    }
    let mut i: usize = 0;
    while i < a.len()
        invariant
            i <= a.len(),
            a.len() == b.len(),
            forall|k: int| 0 <= k < i ==> a@[k] == b@[k],
        decreases a.len() - i,
    {
        if a[i] != b[i] {
            return false;
        }
        i += 1;
    }
    assert(a@ =~= b@);
    true
}

/// Tells whether `s` begins with `prefix`.
pub fn starts_with(s: &[u8], prefix: &[u8]) -> (r: bool)
    ensures
        r == has_prefix(s@, prefix@),
{
    if prefix.len() > s.len() {
        return false;
    }
    let mut i: usize = 0;
    while i < prefix.len()
        invariant
            i <= prefix.len(),
            prefix.len() <= s.len(),
            forall|k: int| 0 <= k < i ==> s@[k] == prefix@[k],
        decreases prefix.len() - i,
    {
        if s[i] != prefix[i] {
            assert(s@.subrange(0, prefix@.len() as int)[i as int] == s@[i as int]);
            return false;
        }
        i += 1;
    }
    assert(s@.subrange(0, prefix@.len() as int) =~= prefix@);
    true
}

/// Tells whether `b` is an ASCII whitespace byte.
pub fn byte_is_space(b: u8) -> (r: bool)
    ensures
        r == is_space(b),
{
    b == 32 || (9 <= b && b <= 13)
}

/// Splits `s` into its whitespace-separated tokens.
pub fn split_tokens(s: &[u8]) -> (r: Vec<Vec<u8>>)
    ensures
        byte_rows(r@) == tokens(s@),
{
    let mut out: Vec<Vec<u8>> = Vec::new();
    let mut i: usize = 0;
    assert(byte_rows(out@) =~= Seq::<Seq<u8>>::empty());
    while i < s.len()
        invariant
            i <= s.len(),
            tokens(s@) == byte_rows(out@) + tokens_from(s@, i as int),
        decreases s.len() - i,
    {
        if byte_is_space(s[i]) {
            i += 1;
        } else {
            let start: usize = i;
            proof {
                lemma_token_end_bounds(s@, start as int);
            }
            while i < s.len() && !byte_is_space(s[i])
                invariant
                    start <= i <= s.len(),
                    token_end(s@, start as int) == token_end(s@, i as int),
                decreases s.len() - i,
            {
                i += 1;
            }
            let token: Vec<u8> = slice_to_vec(slice_subrange(s, start, i));
            let ghost before = byte_rows(out@);
            out.push(token);
            assert(byte_rows(out@) =~= before + seq![s@.subrange(start as int, i as int)]);
            assert(before + (seq![s@.subrange(start as int, i as int)] + tokens_from(s@, i as int))
                =~= (before + seq![s@.subrange(start as int, i as int)]) + tokens_from(s@, i as int));
        }
    }
    assert(byte_rows(out@) + Seq::<Seq<u8>>::empty() =~= byte_rows(out@));
    out
}

/// Splits `s` into its physical lines.
pub fn split_lines(s: &[u8]) -> (r: Vec<Vec<u8>>)
    ensures
        byte_rows(r@) == lines(s@),
{
    let mut out: Vec<Vec<u8>> = Vec::new();
    let mut i: usize = 0;
    assert(byte_rows(out@) =~= Seq::<Seq<u8>>::empty());
    while i < s.len()
        invariant
            i <= s.len(),
            lines(s@) == byte_rows(out@) + lines_from(s@, i as int),
        decreases s.len() - i,
    {
        let start: usize = i;
        proof {
            lemma_line_end_bounds(s@, start as int);
        }
        while i < s.len() && s[i] != 10
            invariant
                start <= i <= s.len(),
                line_end(s@, start as int) == line_end(s@, i as int),
            decreases s.len() - i,
        {
            i += 1;
        }
        let mut end: usize = i;
        if i < s.len() && start < i && s[i - 1] == 13 {
            end = i - 1;
        }
        let line: Vec<u8> = slice_to_vec(slice_subrange(s, start, end));
        let ghost before = byte_rows(out@);
        let ghost body = line_body(s@, start as int, i as int);
        out.push(line);
        assert(byte_rows(out@) =~= before + seq![body]);
        assert(before + (seq![body] + lines_from(s@, i as int + 1)) =~= (before + seq![body])
            + lines_from(s@, i as int + 1));
        if i < s.len() {
            i += 1;
        } else {
            assert(lines_from(s@, i as int + 1) =~= lines_from(s@, i as int));
        }
    }
    assert(byte_rows(out@) + Seq::<Seq<u8>>::empty() =~= byte_rows(out@));
    out
}

/// Whether `b` is a decimal digit.
pub open spec fn is_digit(b: u8) -> bool {
    48 <= b && b <= 57
}

/// The value of the digit `b`, and 0 for a byte that is no digit.
pub open spec fn digit_of(b: u8) -> nat {
    if is_digit(b) {
        (b - 48) as nat
    } else {
        0
    }
}

/// The number that the first `n` bytes of `d` spell in base 10.
pub open spec fn digits_value(d: Seq<u8>, n: int) -> nat
    decreases n,
{
    if n <= 0 {
        0
    } else {
        digits_value(d, n - 1) * 10 + digit_of(d[n - 1])
    }
}

/// Whether `d` holds decimal digits only.
pub open spec fn all_digits(d: Seq<u8>) -> bool {
    forall|k: int| 0 <= k < d.len() ==> is_digit(#[trigger] d[k])
}

/// `s` without one leading plus sign.
pub open spec fn unsigned_digits(s: Seq<u8>) -> Seq<u8> {
    if s.len() > 0 && s[0] == 43 {
        s.subrange(1, s.len() as int)
    } else {
        s
    }
}

/// The number that `s` spells: an optional plus sign, then one or more
/// decimal digits whose value fits in 64 bits. Anything else spells no number.
pub open spec fn unsigned_value(s: Seq<u8>) -> Option<u64> {
    let d = unsigned_digits(s);
    if d.len() > 0 && all_digits(d) && digits_value(d, d.len() as int) <= u64::MAX {
        Some(digits_value(d, d.len() as int) as u64)
    } else {
        None
    }
}

/// More digits never spell a smaller number.
pub proof fn lemma_digits_value_grows(d: Seq<u8>, a: int, b: int)
    requires
        0 <= a <= b,
    ensures
        digits_value(d, a) <= digits_value(d, b),
    decreases b - a,
{
    if a < b {
        lemma_digits_value_grows(d, a, b - 1);
    }
}

/// Reads an unsigned decimal number.
pub fn parse_unsigned(s: &[u8]) -> (r: Option<u64>)
    ensures
        r == unsigned_value(s@),
{
    let start: usize = if s.len() > 0 && s[0] == 43 {
        1
    } else {
        0
    };
    if start == s.len() {
        return None;
    }
    let ghost d = unsigned_digits(s@);
    let mut acc: u64 = 0;
    let mut i: usize = start;
    while i < s.len()
        invariant
            start <= i <= s.len(),
            d == unsigned_digits(s@),
            d.len() == s.len() - start,
            forall|k: int| 0 <= k < d.len() ==> d[k] == s@[k + start],
            forall|k: int| 0 <= k < i - start ==> is_digit(#[trigger] d[k]),
            acc == digits_value(d, i - start),
        decreases s.len() - i,
    {
        let b: u8 = s[i];
        if b < 48 || b > 57 {
            assert(!is_digit(d[i - start]));
            return None;
        }
        let digit: u64 = (b - 48) as u64;
        if acc > (u64::MAX - digit) / 10 {
            proof {
                assert(digits_value(d, i - start + 1) == acc * 10 + digit);
                lemma_digits_value_grows(d, i - start + 1, d.len() as int);
            }
            return None;
        }
        acc = acc * 10 + digit;
        i += 1;
    }
    Some(acc)
}

/// The first position at or after `from` where `pat` stands in `s`; where it
/// stands nowhere, a position too near the end of `s` for `pat` to fit.
pub open spec fn find_from(s: Seq<u8>, pat: Seq<u8>, from: int) -> int
    decreases s.len() - from,
{
    if from < 0 || from >= s.len() || from + pat.len() > s.len() {
        from
    } else if s.subrange(from, from + pat.len()) == pat {
        from
    } else {
        find_from(s, pat, from + 1)
    }
}

/// A search from `from` ends at or after `from`, and inside the text if
/// `from` lies inside it.
pub proof fn lemma_find_from_bounds(s: Seq<u8>, pat: Seq<u8>, from: int)
    requires
        0 <= from,
    ensures
        from <= find_from(s, pat, from),
        from <= s.len() ==> find_from(s, pat, from) <= s.len(),
    decreases s.len() - from,
{
    if from < s.len() && from + pat.len() <= s.len() && s.subrange(from, from + pat.len()) != pat {
        lemma_find_from_bounds(s, pat, from + 1);
    }
}

/// The pieces of `s` from `from` on, cut at each place where `pat` stands,
/// read from the left and without overlap. The separators are left out. An
/// empty `pat` stands nowhere.
pub open spec fn pieces_from(s: Seq<u8>, pat: Seq<u8>, from: int) -> Seq<Seq<u8>>
    decreases s.len() + 1 - from,
    via pieces_from_decreases
{
    let m = find_from(s, pat, from);
    if from < 0 || from > s.len() {
        Seq::empty()
    } else if pat.len() == 0 || m + pat.len() > s.len() {
        seq![s.subrange(from, s.len() as int)]
    } else {
        seq![s.subrange(from, m)] + pieces_from(s, pat, m + pat.len())
    }
}

/// Termination of `pieces_from`: the next piece starts after the separator.
#[via_fn]
proof fn pieces_from_decreases(s: Seq<u8>, pat: Seq<u8>, from: int) {
    if 0 <= from <= s.len() {
        lemma_find_from_bounds(s, pat, from);
    }
}

/// The pieces of `s` between the places where `pat` stands. There is always
/// at least one piece: text without `pat` is one piece, itself.
pub open spec fn pieces(s: Seq<u8>, pat: Seq<u8>) -> Seq<Seq<u8>> {
    pieces_from(s, pat, 0)
}

/// Tells whether `pat` stands in `s` at `at`.
fn matches_at(s: &[u8], pat: &[u8], at: usize) -> (r: bool)
    requires
        at + pat.len() <= s.len(),
    ensures
        r == (s@.subrange(at as int, at + pat.len()) == pat@),
{
    let mut k: usize = 0;
    while k < pat.len()
        invariant
            k <= pat.len(),
            at + pat.len() <= s.len(),
            forall|j: int| 0 <= j < k ==> s@[at + j] == pat@[j],
        decreases pat.len() - k,
    {
        if s[at + k] != pat[k] {
            assert(s@.subrange(at as int, at + pat.len())[k as int] == s@[at + k]);
            return false;
        }
        k += 1;
    }
    assert(s@.subrange(at as int, at + pat.len()) =~= pat@);
    true
}

/// Cuts `s` at each place where `pat` stands.
pub fn split_on(s: &[u8], pat: &[u8]) -> (r: Vec<Vec<u8>>)
    ensures
        byte_rows(r@) == pieces(s@, pat@),
{
    let mut out: Vec<Vec<u8>> = Vec::new();
    let mut start: usize = 0;
    let mut i: usize = 0;
    assert(byte_rows(out@) + pieces_from(s@, pat@, 0) =~= pieces(s@, pat@));
    if pat.len() == 0 {
        out.push(slice_to_vec(s));
        assert(s@.subrange(0, s.len() as int) =~= s@);
        assert(byte_rows(out@) =~= seq![s@]);
        return out;
    }
    while pat.len() <= s.len() && i <= s.len() - pat.len()
        invariant
            start <= i <= s.len(),
            pat.len() > 0,
            find_from(s@, pat@, start as int) == find_from(s@, pat@, i as int),
            pieces(s@, pat@) == byte_rows(out@) + pieces_from(s@, pat@, start as int),
        decreases s.len() - i,
    {
        if matches_at(s, pat, i) {
            let piece: Vec<u8> = slice_to_vec(slice_subrange(s, start, i));
            let ghost before = byte_rows(out@);
            let ghost rest = pieces_from(s@, pat@, i + pat.len());
            out.push(piece);
            assert(byte_rows(out@) =~= before + seq![s@.subrange(start as int, i as int)]);
            assert(before + (seq![s@.subrange(start as int, i as int)] + rest) =~= (before
                + seq![s@.subrange(start as int, i as int)]) + rest);
            i = i + pat.len();
            start = i;
        } else {
            i += 1;
        }
    }
    let piece: Vec<u8> = slice_to_vec(slice_subrange(s, start, s.len()));
    let ghost before = byte_rows(out@);
    out.push(piece);
    assert(byte_rows(out@) =~= before + seq![s@.subrange(start as int, s.len() as int)]);
    out
}

/// The first position at or after `from` that holds no whitespace byte, or
/// the length of `s` if there is none.
pub open spec fn space_end(s: Seq<u8>, from: int) -> int
    decreases s.len() - from,
{
    if 0 <= from < s.len() && is_space(s[from]) {
        space_end(s, from + 1)
    } else {
        from
    }
}

/// The length of the first `n` bytes of `s` without the whitespace at their
/// end.
pub open spec fn trimmed_end(s: Seq<u8>, n: int) -> int
    decreases n,
{
    if 0 < n <= s.len() && is_space(s[n - 1]) {
        trimmed_end(s, n - 1)
    } else {
        n
    }
}

/// `s` without the whitespace at its two ends.
pub open spec fn trimmed(s: Seq<u8>) -> Seq<u8> {
    let a = space_end(s, 0);
    let b = trimmed_end(s, s.len() as int);
    if a < b {
        s.subrange(a, b)
    } else {
        Seq::empty()
    }
}

/// Removes the whitespace at the two ends of `s`.
pub fn trim(s: &[u8]) -> (r: &[u8])
    ensures
        r@ == trimmed(s@),
{
    let mut a: usize = 0;
    while a < s.len() && byte_is_space(s[a])
        invariant
            a <= s.len(),
            space_end(s@, 0) == space_end(s@, a as int),
        decreases s.len() - a,
    {
        a += 1;
    }
    let mut b: usize = s.len();
    while b > 0 && byte_is_space(s[b - 1])
        invariant
            b <= s.len(),
            trimmed_end(s@, s.len() as int) == trimmed_end(s@, b as int),
        decreases b,
    {
        b -= 1;
    }
    if a < b {
        slice_subrange(s, a, b)
    } else {
        let r = slice_subrange(s, 0, 0);
        assert(r@ =~= Seq::<u8>::empty());
        r
    }
}

/// Appends the bytes of `s` to `out`.
pub fn append(out: &mut Vec<u8>, s: &[u8])
    ensures
        final(out)@ == old(out)@ + s@,
{
    let ghost start = out@;
    let mut i: usize = 0;
    assert(out@ =~= start + s@.subrange(0, 0));
    while i < s.len()
        invariant
            i <= s.len(),
            out@ == start + s@.subrange(0, i as int),
        decreases s.len() - i,
    {
        out.push(s[i]);
        assert(out@ =~= start + s@.subrange(0, i + 1));
        i += 1;
    }
    assert(s@.subrange(0, s.len() as int) =~= s@);
}

/// Whether `w` is a word: not empty, and without whitespace.
pub open spec fn is_word(w: Seq<u8>) -> bool {
    w.len() > 0 && forall|k: int| 0 <= k < w.len() ==> !is_space(#[trigger] w[k])
}

/// The first `n` of `words`, with one space between each two.
pub open spec fn joined_words(words: Seq<Seq<u8>>, n: int) -> Seq<u8>
    decreases n,
{
    if n <= 0 {
        Seq::empty()
    } else if n == 1 {
        words[0]
    } else {
        joined_words(words, n - 1) + seq![32u8] + words[n - 1]
    }
}

/// A token of `s` ends where it ends in `s` followed by whitespace.
pub proof fn lemma_token_end_append(s: Seq<u8>, t: Seq<u8>, from: int)
    requires
        0 <= from <= s.len(),
        t.len() > 0,
        is_space(t[0]),
    ensures
        token_end(s + t, from) == token_end(s, from),
    decreases s.len() - from,
{
    if from < s.len() {
        assert((s + t)[from] == s[from]);
        if !is_space(s[from]) {
            lemma_token_end_append(s, t, from + 1);
        }
    } else {
        assert((s + t)[from] == t[0]);
    }
}

/// A word ends at its end.
pub proof fn lemma_token_end_of_word(s: Seq<u8>, w: Seq<u8>, k: int)
    requires
        is_word(w),
        0 <= k <= w.len(),
    ensures
        token_end(s + w, s.len() + k) == s.len() + w.len(),
    decreases w.len() - k,
{
    if k < w.len() {
        assert((s + w)[s.len() + k] == w[k]);
        lemma_token_end_of_word(s, w, k + 1);
    }
}

/// The tokens of a text followed by a space and a word are the tokens of
/// the text, then the word.
pub proof fn lemma_tokens_append_word(s: Seq<u8>, w: Seq<u8>, from: int)
    requires
        0 <= from <= s.len(),
        is_word(w),
    ensures
        tokens_from(s + seq![32u8] + w, from) == tokens_from(s, from).push(w),
    decreases s.len() - from,
{
    let t = seq![32u8] + w;
    let all = s + seq![32u8] + w;
    assert(all =~= s + t);
    assert(all =~= (s + seq![32u8]) + w);
    if from < s.len() {
        assert(all[from] == s[from]);
        if is_space(s[from]) {
            lemma_tokens_append_word(s, w, from + 1);
        } else {
            lemma_token_end_bounds(s, from);
            lemma_token_end_append(s, t, from);
            let e = token_end(s, from);
            assert(all.subrange(from, e) =~= s.subrange(from, e));
            lemma_tokens_append_word(s, w, e);
            assert(seq![s.subrange(from, e)] + tokens_from(s, e).push(w) =~= (seq![
                s.subrange(from, e),
            ] + tokens_from(s, e)).push(w));
        }
    } else {
        assert(all[from] == 32u8);
        assert(all[from + 1] == w[0]);
        lemma_token_end_of_word(s + seq![32u8], w, 0);
        assert(token_end(all, from + 1) == all.len());
        assert(all.subrange(from + 1, all.len() as int) =~= w);
        assert(tokens_from(all, all.len() as int) =~= Seq::<Seq<u8>>::empty());
        assert(tokens_from(all, from + 1) =~= seq![w]);
        assert(tokens_from(s, from) =~= Seq::<Seq<u8>>::empty());
        assert(Seq::<Seq<u8>>::empty().push(w) =~= seq![w]);
    }
}

/// Words joined by single spaces are read back as the same words.
pub proof fn lemma_tokens_of_joined_words(words: Seq<Seq<u8>>, n: int)
    requires
        0 <= n <= words.len(),
        forall|i: int| 0 <= i < n ==> is_word(#[trigger] words[i]),
    ensures
        tokens(joined_words(words, n)) == words.take(n),
    decreases n,
{
    if n == 0 {
        assert(tokens(joined_words(words, n)) =~= words.take(n));
    } else if n == 1 {
        let w = words[0];
        assert(is_word(w));
        lemma_token_end_of_word(Seq::<u8>::empty(), w, 0);
        assert(Seq::<u8>::empty() + w =~= w);
        assert(w.subrange(0, w.len() as int) =~= w);
        assert(tokens_from(w, w.len() as int) =~= Seq::<Seq<u8>>::empty());
        assert(tokens(w) =~= seq![w]);
        assert(words.take(1) =~= seq![w]);
    } else {
        lemma_tokens_of_joined_words(words, n - 1);
        assert(is_word(words[n - 1]));
        lemma_tokens_append_word(joined_words(words, n - 1), words[n - 1], 0);
        assert(words.take(n - 1).push(words[n - 1]) =~= words.take(n));
    }
}

/// Whether `l` can stand as one line: it holds no line feed and does not
/// end in a carriage return.
pub open spec fn is_line(l: Seq<u8>) -> bool {
    (forall|k: int| 0 <= k < l.len() ==> #[trigger] l[k] != 10) && (l.len() > 0 ==> l[l.len() - 1]
        != 13)
}

/// The first `n` of `all`, each followed by a line feed.
pub open spec fn joined_lines(all: Seq<Seq<u8>>, n: int) -> Seq<u8>
    decreases n,
{
    if n <= 0 {
        Seq::empty()
    } else {
        joined_lines(all, n - 1) + all[n - 1] + seq![10u8]
    }
}

/// A line that ends inside `s` ends at the same place in `s` followed by
/// more text.
pub proof fn lemma_line_end_append(s: Seq<u8>, t: Seq<u8>, from: int)
    requires
        0 <= from <= s.len(),
        line_end(s, from) < s.len(),
    ensures
        line_end(s + t, from) == line_end(s, from),
    decreases s.len() - from,
{
    if from < s.len() {
        assert((s + t)[from] == s[from]);
        if s[from] != 10 {
            lemma_line_end_append(s, t, from + 1);
        }
    }
}

/// In a text that ends in a line feed every line ends inside the text.
pub proof fn lemma_line_end_terminated(s: Seq<u8>, from: int)
    requires
        0 <= from < s.len(),
        s[s.len() - 1] == 10,
    ensures
        line_end(s, from) < s.len(),
    decreases s.len() - from,
{
    if s[from] != 10 {
        lemma_line_end_terminated(s, from + 1);
    }
}

/// A line followed by a line feed ends at the line feed.
pub proof fn lemma_line_end_of_line(s: Seq<u8>, l: Seq<u8>, k: int)
    requires
        is_line(l),
        0 <= k <= l.len(),
    ensures
        line_end(s + l + seq![10u8], s.len() + k) == s.len() + l.len(),
    decreases l.len() - k,
{
    let all = s + l + seq![10u8];
    if k < l.len() {
        assert(all[s.len() + k] == l[k]);
        lemma_line_end_of_line(s, l, k + 1);
    } else {
        assert(all[s.len() + k] == 10u8);
    }
}

/// The lines of a text that ends in a line feed, followed by one more line
/// and its line feed, are the lines of the text, then that line.
pub proof fn lemma_lines_append_line(s: Seq<u8>, l: Seq<u8>, from: int)
    requires
        0 <= from <= s.len(),
        s.len() == 0 || s[s.len() - 1] == 10,
        is_line(l),
    ensures
        lines_from(s + l + seq![10u8], from) == lines_from(s, from).push(l),
    decreases s.len() - from,
{
    let all = s + l + seq![10u8];
    if from < s.len() {
        lemma_line_end_terminated(s, from);
        lemma_line_end_bounds(s, from);
        let e = line_end(s, from);
        assert(all =~= s + (l + seq![10u8]));
        lemma_line_end_append(s, l + seq![10u8], from);
        assert(line_end(all, from) == e);
        assert(from < e ==> all[e - 1] == s[e - 1]);
        assert(all.subrange(from, e) =~= s.subrange(from, e));
        if from < e {
            assert(all.subrange(from, e - 1) =~= s.subrange(from, e - 1));
        }
        assert(line_body(all, from, e) == line_body(s, from, e));
        lemma_lines_append_line(s, l, e + 1);
        assert(seq![line_body(s, from, e)] + lines_from(s, e + 1).push(l) =~= (seq![
            line_body(s, from, e),
        ] + lines_from(s, e + 1)).push(l));
    } else {
        lemma_line_end_of_line(s, l, 0);
        let e = (s.len() + l.len()) as int;
        assert(line_end(all, from) == e);
        assert(all.subrange(from, e) =~= l);
        if from < e {
            assert(all[e - 1] == l[l.len() - 1]);
        }
        assert(line_body(all, from, e) == l);
        assert(lines_from(all, e + 1) =~= Seq::<Seq<u8>>::empty());
        assert(lines_from(s, from) =~= Seq::<Seq<u8>>::empty());
        assert(lines_from(all, from) =~= seq![l]);
        assert(Seq::<Seq<u8>>::empty().push(l) =~= seq![l]);
    }
}

/// Lines written one after the other, each with its line feed, are read
/// back as the same lines.
pub proof fn lemma_lines_of_joined_lines(all: Seq<Seq<u8>>, n: int)
    requires
        0 <= n <= all.len(),
        forall|i: int| 0 <= i < n ==> is_line(#[trigger] all[i]),
    ensures
        lines(joined_lines(all, n)) == all.take(n),
        joined_lines(all, n).len() == 0 || joined_lines(all, n)[joined_lines(all, n).len() - 1]
            == 10,
    decreases n,
{
    if n == 0 {
        assert(lines(joined_lines(all, n)) =~= all.take(n));
    } else {
        lemma_lines_of_joined_lines(all, n - 1);
        assert(is_line(all[n - 1]));
        lemma_lines_append_line(joined_lines(all, n - 1), all[n - 1], 0);
        assert(all.take(n - 1).push(all[n - 1]) =~= all.take(n));
    }
}

/// Every token is a word.
pub proof fn lemma_tokens_are_words(s: Seq<u8>, from: int)
    requires
        0 <= from <= s.len(),
    ensures
        forall|i: int|
            0 <= i < tokens_from(s, from).len() ==> is_word(#[trigger] tokens_from(s, from)[i]),
    decreases s.len() - from,
{
    if from < s.len() {
        if is_space(s[from]) {
            lemma_tokens_are_words(s, from + 1);
            assert(tokens_from(s, from) == tokens_from(s, from + 1));
        } else {
            lemma_token_end_bounds(s, from);
            let e = token_end(s, from);
            lemma_tokens_are_words(s, e);
            let first = s.subrange(from, e);
            assert(is_word(first)) by {
                assert forall|k: int| 0 <= k < first.len() implies !is_space(#[trigger] first[k]) by {
                    assert(first[k] == s[from + k]);
                }
            }
            let rest = tokens_from(s, e);
            assert forall|i: int| 0 <= i < tokens_from(s, from).len() implies is_word(
                #[trigger] tokens_from(s, from)[i],
            ) by {
                assert(tokens_from(s, from) == seq![first] + rest);
                if i > 0 {
                    assert(tokens_from(s, from)[i] == rest[i - 1]);
                } else {
                    assert(tokens_from(s, from)[i] == first);
                }
            }
        }
    } else {
        assert(tokens_from(s, from).len() == 0);
    }
}

/// Words joined by single spaces begin as the first word begins, end as the
/// last word ends, and hold no whitespace but the spaces between the words.
pub proof fn lemma_joined_words_bytes(words: Seq<Seq<u8>>, n: int)
    requires
        1 <= n <= words.len(),
        forall|i: int| 0 <= i < n ==> is_word(#[trigger] words[i]),
    ensures
        joined_words(words, n).len() > 0,
        joined_words(words, n)[0] == words[0][0],
        joined_words(words, n)[joined_words(words, n).len() - 1] == words[n - 1][words[n - 1].len()
            - 1],
        forall|k: int|
            0 <= k < joined_words(words, n).len() ==> #[trigger] joined_words(words, n)[k] == 32
                || !is_space(joined_words(words, n)[k]),
    decreases n,
{
    assert(is_word(words[0]));
    assert(is_word(words[n - 1]));
    if n > 1 {
        lemma_joined_words_bytes(words, n - 1);
        let a = joined_words(words, n - 1);
        let w = words[n - 1];
        let j = joined_words(words, n);
        assert(j == a + seq![32u8] + w);
        assert forall|k: int| 0 <= k < j.len() implies #[trigger] j[k] == 32 || !is_space(j[k]) by {
            if k < a.len() {
                assert(j[k] == a[k]);
            } else if k > a.len() {
                assert(j[k] == w[k - a.len() - 1]);
            }
        }
        assert(j[0] == a[0]);
        assert(j[j.len() - 1] == w[w.len() - 1]);
    }
}

} // verus!
