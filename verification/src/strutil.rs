//! Character-level string helpers.
//!
//! The query layer folds case in the ASCII range only, so the helpers here
//! work character by character over the `Seq<char>` views of strings:
//! case folding, case-insensitive equality, lexicographic order, substring
//! search against a case-folded haystack, query tokenizing, and parsing of
//! small unsigned numbers.

use vstd::prelude::*;

verus! {

/// ASCII-range lower casing of one character.
pub open spec fn spec_lower_char(c: char) -> char {
    if 65 <= c as u32 <= 90 {
        ((c as u32) + 32) as char
    } else {
        c
    }
}

/// ASCII-range lower casing of a character sequence.
pub open spec fn spec_lower(s: Seq<char>) -> Seq<char> {
    s.map_values(|c: char| spec_lower_char(c))
}

/// Lower-cases one character in the ASCII range.
pub fn lower_char(c: char) -> (r: char)
    ensures
        r == spec_lower_char(c),
{
    let u = c as u32;
    if 65 <= u && u <= 90 {
        ((u + 32) as u8) as char
    } else {
        c
    }
}

/// Character-wise equality of two strings.
pub fn str_eq(a: &str, b: &str) -> (r: bool)
    ensures
        r == (a@ == b@),
{
    let alen = a.unicode_len();
    if alen != b.unicode_len() {
        return false;
    }
    let mut i: usize = 0;
    while i < alen
        invariant
            i <= alen,
            alen == a@.len(),
            alen == b@.len(),
            forall|k: int| 0 <= k < i ==> a@[k] == b@[k],
        decreases alen - i,
    {
        if a.get_char(i) != b.get_char(i) {
            return false;
        }
        i = i + 1;
    }
    proof {
        assert(a@ =~= b@);
    }
    true
}

/// Case-insensitive (ASCII range) equality of two strings.
pub fn eq_ignore_ascii_case(a: &str, b: &str) -> (r: bool)
    ensures
        r == (spec_lower(a@) == spec_lower(b@)),
{
    let alen = a.unicode_len();
    if alen != b.unicode_len() {
        proof {
            assert(spec_lower(a@).len() == a@.len());
            assert(spec_lower(b@).len() == b@.len());
        }
        return false;
    }
    let mut i: usize = 0;
    while i < alen
        invariant
            i <= alen,
            alen == a@.len(),
            alen == b@.len(),
            forall|k: int| 0 <= k < i ==> spec_lower(a@)[k] == spec_lower(b@)[k],
        decreases alen - i,
    {
        if lower_char(a.get_char(i)) != lower_char(b.get_char(i)) {
            proof {
                assert(spec_lower(a@)[i as int] == spec_lower_char(a@[i as int]));
                assert(spec_lower(b@)[i as int] == spec_lower_char(b@[i as int]));
            }
            return false;
        }
        proof {
            assert(spec_lower(a@)[i as int] == spec_lower_char(a@[i as int]));
            assert(spec_lower(b@)[i as int] == spec_lower_char(b@[i as int]));
        }
        i = i + 1;
    }
    proof {
        assert(spec_lower(a@) =~= spec_lower(b@));
    }
    true
}

/// Lexicographic order on character sequences by code point.
pub open spec fn spec_lex_le(a: Seq<char>, b: Seq<char>) -> bool
    decreases a.len(),
{
    if a.len() == 0 {
        true
    } else if b.len() == 0 {
        false
    } else if (a[0] as u32) < (b[0] as u32) {
        true
    } else if (a[0] as u32) > (b[0] as u32) {
        false
    } else {
        spec_lex_le(a.drop_first(), b.drop_first())
    }
}

/// The lexicographic order is total.
pub proof fn lemma_lex_le_total(a: Seq<char>, b: Seq<char>)
    ensures
        spec_lex_le(a, b) || spec_lex_le(b, a),
    decreases a.len(),
{
    if a.len() == 0 || b.len() == 0 {
    } else if (a[0] as u32) == (b[0] as u32) {
        lemma_lex_le_total(a.drop_first(), b.drop_first());
    }
}

/// The lexicographic order is transitive.
pub proof fn lemma_lex_le_trans(a: Seq<char>, b: Seq<char>, c: Seq<char>)
    requires
        spec_lex_le(a, b),
        spec_lex_le(b, c),
    ensures
        spec_lex_le(a, c),
    decreases a.len(),
{
    if a.len() == 0 || b.len() == 0 || c.len() == 0 {
    } else if (a[0] as u32) == (b[0] as u32) && (b[0] as u32) == (c[0] as u32) {
        lemma_lex_le_trans(a.drop_first(), b.drop_first(), c.drop_first());
    }
}

/// The lexicographic order is antisymmetric.
pub proof fn lemma_lex_le_antisym(a: Seq<char>, b: Seq<char>)
    requires
        spec_lex_le(a, b),
        spec_lex_le(b, a),
    ensures
        a == b,
    decreases a.len(),
{
    if a.len() == 0 || b.len() == 0 {
        assert(a =~= b);
    } else if (a[0] as u32) == (b[0] as u32) {
        lemma_lex_le_antisym(a.drop_first(), b.drop_first());
        vstd::utf8::char_u32_cast(a[0], a[0] as u32);
        vstd::utf8::char_u32_cast(b[0], b[0] as u32);
        assert(a[0] == b[0]);
        assert(a.drop_first().len() == b.drop_first().len());
        assert(a.len() == b.len());
        assert forall|k: int| 0 <= k < a.len() implies a[k] == b[k] by {
            if k > 0 {
                assert(a.drop_first()[k - 1] == b.drop_first()[k - 1]);
            }
        }
        assert(a =~= b);
    }
}

/// Lexicographic comparison of two strings by code point.
pub fn str_lex_le(a: &str, b: &str) -> (r: bool)
    ensures
        r == spec_lex_le(a@, b@),
{
    let alen = a.unicode_len();
    let blen = b.unicode_len();
    let mut i: usize = 0;
    proof {
        assert(a@.skip(0) =~= a@);
        assert(b@.skip(0) =~= b@);
    }
    while i < alen && i < blen
        invariant
            i <= alen,
            i <= blen,
            alen == a@.len(),
            blen == b@.len(),
            spec_lex_le(a@, b@) == spec_lex_le(a@.skip(i as int), b@.skip(i as int)),
        decreases alen - i,
    {
        let ca = a.get_char(i) as u32;
        let cb = b.get_char(i) as u32;
        proof {
            assert(a@.skip(i as int)[0] == a@[i as int]);
            assert(b@.skip(i as int)[0] == b@[i as int]);
            assert(a@.skip(i as int).drop_first() =~= a@.skip(i + 1));
            assert(b@.skip(i as int).drop_first() =~= b@.skip(i + 1));
        }
        if ca < cb {
            return true;
        }
        if ca > cb {
            return false;
        }
        i = i + 1;
    }
    alen <= blen
}

/// The `needle` occurs in `hay` starting at position `i`.
pub open spec fn spec_contains_at(hay: Seq<char>, needle: Seq<char>, i: int) -> bool {
    0 <= i && i + needle.len() <= hay.len() && hay.subrange(i, i + needle.len()) == needle
}

/// The `needle` occurs somewhere in `hay`.
pub open spec fn spec_is_substring(needle: Seq<char>, hay: Seq<char>) -> bool {
    exists|i: int| spec_contains_at(hay, needle, i)
}

/// Whether the already-lowered `needle` occurs at position `i` of the
/// case-folded `hay`.
fn matches_at(hay: &str, hlen: usize, needle: &Vec<char>, i: usize) -> (r: bool)
    requires
        hlen == hay@.len(),
        i + needle@.len() <= hlen,
    ensures
        r == spec_contains_at(spec_lower(hay@), needle@, i as int),
{
    let nlen = needle.len();
    let mut j: usize = 0;
    while j < nlen
        invariant
            j <= nlen,
            nlen == needle@.len(),
            hlen == hay@.len(),
            i + nlen <= hlen,
            forall|k: int| 0 <= k < j ==> spec_lower(hay@)[i + k] == needle@[k],
        decreases nlen - j,
    {
        if lower_char(hay.get_char(i + j)) != needle[j] {
            proof {
                let sub = spec_lower(hay@).subrange(i as int, i + needle@.len());
                assert(sub[j as int] == spec_lower(hay@)[i + j]);
            }
            return false;
        }
        j = j + 1;
    }
    proof {
        assert(spec_lower(hay@).subrange(i as int, i + needle@.len()) =~= needle@);
    }
    true
}

/// Whether the already-lowered `needle` occurs anywhere in the case-folded
/// `hay`.
pub fn contains_lowered(hay: &str, needle: &Vec<char>) -> (r: bool)
    ensures
        r == spec_is_substring(needle@, spec_lower(hay@)),
{
    let hlen = hay.unicode_len();
    let nlen = needle.len();
    proof {
        assert(spec_lower(hay@).len() == hay@.len());
    }
    if nlen > hlen {
        return false;
    }
    if nlen == 0 {
        proof {
            assert(spec_lower(hay@).subrange(0, 0) =~= needle@);
            assert(spec_contains_at(spec_lower(hay@), needle@, 0));
        }
        return true;
    }
    let limit = hlen - nlen;
    let mut i: usize = 0;
    while i <= limit
        invariant
            i <= limit + 1,
            limit == hlen - nlen,
            1 <= nlen == needle@.len(),
            hlen == hay@.len(),
            nlen <= hlen,
            forall|k: int| 0 <= k < i ==> !spec_contains_at(spec_lower(hay@), needle@, k),
        decreases limit + 1 - i,
    {
        if matches_at(hay, hlen, needle, i) {
            return true;
        }
        i = i + 1;
    }
    false
}

/// Relies on String's FromIterator over characters: collecting characters
/// yields the string of exactly those characters.
#[verifier::external_body]
pub fn chars_to_string(chars: &Vec<char>) -> (r: String)
    ensures
        r@ == chars@,
{
    chars.iter().collect()
}

/// Appends the case-folded characters of `s`.
pub fn push_lowered(out: &mut Vec<char>, s: &str)
    ensures
        final(out)@ == old(out)@ + spec_lower(s@),
{
    let len = s.unicode_len();
    let mut i: usize = 0;
    while i < len
        invariant
            i <= len,
            len == s@.len(),
            out@.len() == old(out)@.len() + i,
            forall|k: int| 0 <= k < old(out)@.len() ==> #[trigger] out@[k] == old(out)@[k],
            forall|k: int|
                0 <= k < i ==> #[trigger] out@[old(out)@.len() + k] == spec_lower_char(s@[k]),
        decreases len - i,
    {
        out.push(lower_char(s.get_char(i)));
        i = i + 1;
    }
    proof {
        assert(spec_lower(s@).len() == s@.len());
        assert forall|idx: int| 0 <= idx < out@.len() implies out@[idx] == (old(out)@ + spec_lower(
            s@,
        ))[idx] by {
            if idx >= old(out)@.len() {
                let k = idx - old(out)@.len();
                assert(out@[old(out)@.len() + k] == spec_lower_char(s@[k]));
                assert(spec_lower(s@)[k] == spec_lower_char(s@[k]));
            }
        }
        assert(out@ =~= old(out)@ + spec_lower(s@));
    }
}

/// The case-folded characters of one string.
pub fn lowered_chars(s: &str) -> (r: Vec<char>)
    ensures
        r@ == spec_lower(s@),
{
    let mut out: Vec<char> = Vec::new();
    push_lowered(&mut out, s);
    proof {
        assert(out@ =~= spec_lower(s@));
    }
    out
}

/// The first position at or after `from` where `needle` occurs in `hay`.
pub open spec fn spec_find_at(hay: Seq<char>, needle: Seq<char>, from: int) -> Option<int>
    decreases hay.len() - from,
{
    if from < 0 || from + needle.len() > hay.len() {
        None
    } else if needle.len() == 0 {
        Some(from)
    } else if spec_contains_at(hay, needle, from) {
        Some(from)
    } else {
        spec_find_at(hay, needle, from + 1)
    }
}

/// Whether `needle` occurs at position `i` of `hay`, compared plainly.
fn plain_matches_at(hay: &str, hlen: usize, needle: &str, nlen: usize, i: usize) -> (r: bool)
    requires
        hlen == hay@.len(),
        nlen == needle@.len(),
        i + nlen <= hlen,
    ensures
        r == spec_contains_at(hay@, needle@, i as int),
{
    let mut j: usize = 0;
    while j < nlen
        invariant
            j <= nlen,
            nlen == needle@.len(),
            hlen == hay@.len(),
            i + nlen <= hlen,
            forall|k: int| 0 <= k < j ==> hay@[i + k] == needle@[k],
        decreases nlen - j,
    {
        if hay.get_char(i + j) != needle.get_char(j) {
            proof {
                let sub = hay@.subrange(i as int, i + needle@.len());
                assert(sub[j as int] == hay@[i + j]);
            }
            return false;
        }
        j = j + 1;
    }
    proof {
        assert(hay@.subrange(i as int, i + needle@.len()) =~= needle@);
    }
    true
}

/// What a found position means: it lies at or after `from`, fits in the
/// haystack, and the needle occurs there.
pub proof fn lemma_find_at_some(hay: Seq<char>, needle: Seq<char>, from: int)
    ensures
        spec_find_at(hay, needle, from) matches Some(i) ==> from <= i && i + needle.len()
            <= hay.len() && spec_contains_at(hay, needle, i),
    decreases hay.len() - from,
{
    if from < 0 || from + needle.len() > hay.len() {
    } else if needle.len() == 0 {
        assert(hay.subrange(from, from) =~= needle);
    } else if spec_contains_at(hay, needle, from) {
    } else {
        lemma_find_at_some(hay, needle, from + 1);
    }
}

/// Finds the first occurrence of `needle` in `hay` at or after `from`.
pub fn find_str(hay: &str, needle: &str, from: usize) -> (r: Option<usize>)
    ensures
        match r {
            Some(i) => i as int == spec_find_at(hay@, needle@, from as int)->Some_0
                && spec_find_at(hay@, needle@, from as int) is Some,
            None => spec_find_at(hay@, needle@, from as int) is None,
        },
{
    let hlen = hay.unicode_len();
    let nlen = needle.unicode_len();
    if from > hlen || nlen > hlen - from {
        return None;
    }
    if nlen == 0 {
        proof {
            assert(hay@.subrange(from as int, from as int) =~= needle@);
            assert(spec_contains_at(hay@, needle@, from as int));
        }
        return Some(from);
    }
    let limit = hlen - nlen;
    let mut i: usize = from;
    while i <= limit
        invariant
            from <= i <= limit + 1,
            limit == hlen - nlen,
            1 <= nlen == needle@.len(),
            hlen == hay@.len(),
            nlen <= hlen,
            spec_find_at(hay@, needle@, from as int) == spec_find_at(hay@, needle@, i as int),
        decreases limit + 1 - i,
    {
        if plain_matches_at(hay, hlen, needle, nlen, i) {
            return Some(i);
        }
        i = i + 1;
    }
    None
}

/// Whether `s` begins with `prefix`.
pub fn starts_with(s: &str, prefix: &str) -> (r: bool)
    ensures
        r == spec_contains_at(s@, prefix@, 0),
{
    let slen = s.unicode_len();
    let plen = prefix.unicode_len();
    if plen > slen {
        return false;
    }
    plain_matches_at(s, slen, prefix, plen, 0)
}

/// An ASCII letter.
pub open spec fn spec_is_alpha(c: char) -> bool {
    65 <= c as u32 <= 90 || 97 <= c as u32 <= 122
}

/// Whether `c` is an ASCII letter.
pub fn is_alpha(c: char) -> (r: bool)
    ensures
        r == spec_is_alpha(c),
{
    let u = c as u32;
    (65 <= u && u <= 90) || (97 <= u && u <= 122)
}

/// Length of the maximal run of ASCII letters at the front of `s`.
pub open spec fn spec_alpha_run(s: Seq<char>) -> int
    decreases s.len(),
{
    if s.len() == 0 || !spec_is_alpha(s[0]) {
        0
    } else {
        1 + spec_alpha_run(s.drop_first())
    }
}

/// The run length is within the sequence.
pub proof fn lemma_alpha_run_bounds(s: Seq<char>)
    ensures
        0 <= spec_alpha_run(s) <= s.len(),
    decreases s.len(),
{
    if s.len() > 0 && spec_is_alpha(s[0]) {
        lemma_alpha_run_bounds(s.drop_first());
    }
}

/// A run length is characterized by its letters and its end.
pub proof fn lemma_alpha_run_is(s: Seq<char>, t: int)
    requires
        0 <= t <= s.len(),
        forall|k: int| 0 <= k < t ==> spec_is_alpha(#[trigger] s[k]),
        t < s.len() ==> !spec_is_alpha(s[t]),
    ensures
        spec_alpha_run(s) == t,
    decreases t,
{
    if t == 0 {
    } else {
        lemma_alpha_run_is(s.drop_first(), t - 1);
    }
}

/// The query split into its runs of ASCII letters, each lower-cased.
pub open spec fn spec_tokens(q: Seq<char>) -> Seq<Seq<char>>
    decreases q.len(),
    via spec_tokens_decreases
{
    if q.len() == 0 {
        Seq::empty()
    } else if !spec_is_alpha(q[0]) {
        spec_tokens(q.drop_first())
    } else {
        let run = spec_alpha_run(q);
        seq![spec_lower(q.take(run))] + spec_tokens(q.skip(run))
    }
}

#[via_fn]
proof fn spec_tokens_decreases(q: Seq<char>) {
    if q.len() > 0 && spec_is_alpha(q[0]) {
        lemma_alpha_run_bounds(q.drop_first());
    }
}

/// Splits a query into its runs of ASCII letters, lower-casing each run.
pub fn tokenize(q: &str) -> (r: Vec<Vec<char>>)
    ensures
        r.deep_view() == spec_tokens(q@),
{
    let len = q.unicode_len();
    let mut out: Vec<Vec<char>> = Vec::new();
    let mut i: usize = 0;
    proof {
        assert(q@.skip(0) =~= q@);
        assert(out.deep_view() + spec_tokens(q@.skip(0)) =~= spec_tokens(q@));
    }
    while i < len
        invariant
            i <= len,
            len == q@.len(),
            out.deep_view() + spec_tokens(q@.skip(i as int)) == spec_tokens(q@),
        decreases len - i,
    {
        let c = q.get_char(i);
        if !is_alpha(c) {
            proof {
                assert(q@.skip(i as int).drop_first() =~= q@.skip(i + 1));
            }
            i = i + 1;
        } else {
            let ghost rest = q@.skip(i as int);
            let start = i;
            let mut tok: Vec<char> = Vec::new();
            tok.push(lower_char(c));
            i = i + 1;
            while i < len && is_alpha(q.get_char(i))
                invariant
                    start < i <= len,
                    len == q@.len(),
                    tok@.len() == i - start,
                    forall|k: int|
                        0 <= k < i - start ==> tok@[k] == spec_lower_char(#[trigger] q@[start + k]),
                    forall|k: int| start <= k < i ==> spec_is_alpha(#[trigger] q@[k]),
                decreases len - i,
            {
                tok.push(lower_char(q.get_char(i)));
                i = i + 1;
            }
            proof {
                let t = i - start;
                assert forall|k: int| 0 <= k < t implies spec_is_alpha(#[trigger] rest[k]) by {
                    assert(rest[k] == q@[start + k]);
                }
                if t < rest.len() {
                    assert(rest[t as int] == q@[i as int]);
                }
                lemma_alpha_run_is(rest, t as int);
                assert(spec_lower(rest.take(t as int)).len() == t);
                assert forall|k: int| 0 <= k < t implies spec_lower(rest.take(t as int))[k]
                    == tok@[k] by {
                    assert(rest.take(t as int)[k] == q@[start + k]);
                    assert(spec_lower(rest.take(t as int))[k] == spec_lower_char(
                        rest.take(t as int)[k],
                    ));
                }
                assert(tok@ =~= spec_lower(rest.take(t as int)));
                assert(rest.skip(t as int) =~= q@.skip(i as int));
                assert(spec_tokens(rest) == seq![spec_lower(rest.take(t as int))] + spec_tokens(
                    q@.skip(i as int),
                ));
            }
            let ghost old_out = out.deep_view();
            out.push(tok);
            proof {
                assert(out.deep_view() =~~= old_out + seq![tok@]);
                assert(out.deep_view() + spec_tokens(q@.skip(i as int)) =~~= spec_tokens(q@));
            }
        }
    }
    proof {
        assert(q@.skip(len as int) =~= Seq::<char>::empty());
        assert(out.deep_view() + spec_tokens(q@.skip(len as int)) =~~= out.deep_view());
    }
    out
}

/// A query has at most as many tokens as characters.
pub proof fn lemma_tokens_len(q: Seq<char>)
    ensures
        spec_tokens(q).len() <= q.len(),
    decreases q.len(),
{
    if q.len() == 0 {
    } else if !spec_is_alpha(q[0]) {
        lemma_tokens_len(q.drop_first());
    } else {
        lemma_alpha_run_bounds(q.drop_first());
        let run = spec_alpha_run(q);
        lemma_tokens_len(q.skip(run));
    }
}

/// An ASCII digit.
pub open spec fn spec_is_digit(c: char) -> bool {
    48 <= c as u32 <= 57
}

/// Value of a sequence of decimal digit characters.
pub open spec fn spec_digits_val(s: Seq<char>) -> int
    decreases s.len(),
{
    if s.len() == 0 {
        0
    } else {
        spec_digits_val(s.drop_last()) * 10 + (s.last() as u32 - 48)
    }
}

/// The digit part of a number string: everything after an optional
/// leading plus sign.
pub open spec fn spec_digits_of(s: Seq<char>) -> Seq<char> {
    if s.len() > 0 && s[0] == '+' {
        s.drop_first()
    } else {
        s
    }
}

/// Every character is an ASCII digit.
pub open spec fn spec_all_digits(ds: Seq<char>) -> bool {
    forall|i: int| 0 <= i < ds.len() ==> spec_is_digit(#[trigger] ds[i])
}

/// The parse of a small unsigned number: an optional leading plus sign,
/// then at least one decimal digit, with a value of at most 255.
pub open spec fn spec_parse_u8(s: Seq<char>) -> Option<u8> {
    let ds = spec_digits_of(s);
    if ds.len() > 0 && spec_all_digits(ds) && spec_digits_val(ds) <= 255 {
        Some(spec_digits_val(ds) as u8)
    } else {
        None
    }
}

/// A digit string's value only grows as digits are appended.
proof fn lemma_digits_val_grows(s: Seq<char>, j: int)
    requires
        0 <= j <= s.len(),
        spec_all_digits(s),
    ensures
        spec_digits_val(s) >= spec_digits_val(s.take(j)),
        spec_digits_val(s.take(j)) >= 0,
    decreases s.len() - j,
{
    if j == s.len() {
        assert(s.take(j) =~= s);
        lemma_digits_val_nonneg(s);
    } else {
        lemma_digits_val_grows(s, j + 1);
        assert(s.take(j + 1).drop_last() =~= s.take(j));
        assert(s.take(j + 1).last() == s[j]);
        lemma_digits_val_nonneg(s.take(j));
    }
}

/// A digit string's value is not negative.
proof fn lemma_digits_val_nonneg(s: Seq<char>)
    requires
        spec_all_digits(s),
    ensures
        spec_digits_val(s) >= 0,
    decreases s.len(),
{
    if s.len() > 0 {
        assert(spec_all_digits(s.drop_last()));
        lemma_digits_val_nonneg(s.drop_last());
    }
}

/// Parses a small unsigned number exactly as `spec_parse_u8` describes.
pub fn parse_u8(s: &str) -> (r: Option<u8>)
    ensures
        r == spec_parse_u8(s@),
{
    let len = s.unicode_len();
    let start: usize = if len > 0 && s.get_char(0) == '+' {
        1
    } else {
        0
    };
    let ghost ds = spec_digits_of(s@);
    proof {
        assert(ds =~= s@.skip(start as int));
    }
    if start >= len {
        return None;
    }
    let mut val: u32 = 0;
    let mut i: usize = start;
    while i < len
        invariant
            start <= i <= len,
            len == s@.len(),
            ds == s@.skip(start as int),
            ds == spec_digits_of(s@),
            val <= 255,
            val == spec_digits_val(ds.take(i - start)),
            forall|k: int| 0 <= k < i - start ==> spec_is_digit(#[trigger] ds[k]),
        decreases len - i,
    {
        let c = s.get_char(i);
        let u = c as u32;
        if u < 48 || u > 57 {
            proof {
                assert(ds.len() == s@.len() - start);
                assert(0 <= i - start < ds.len());
                assert(ds[i - start] == s@[i as int]);
                assert(!spec_is_digit(ds[i - start]));
                assert(!spec_all_digits(ds));
                assert(spec_parse_u8(s@) is None);
            }
            return None;
        }
        proof {
            assert(ds.take(i - start + 1).drop_last() =~= ds.take(i - start));
            assert(ds.take(i - start + 1).last() == ds[i - start]);
            assert(ds[i - start] == s@[i as int]);
        }
        val = val * 10 + (u - 48);
        i = i + 1;
        if val > 255 {
            proof {
                if spec_all_digits(ds) {
                    lemma_digits_val_grows(ds, i - start);
                    assert(spec_digits_val(ds) > 255);
                }
                assert(spec_parse_u8(s@) is None);
            }
            return None;
        }
    }
    proof {
        assert(ds.take(len - start) =~= ds);
    }
    Some(val as u8)
}

/// The parse of a small signed number: an optional sign, then at least
/// one decimal digit, within the range of an `i8`.
pub open spec fn spec_parse_i8(s: Seq<char>) -> Option<i8> {
    let neg = s.len() > 0 && s[0] == '-';
    let ds = spec_signed_digits_of(s);
    if ds.len() > 0 && spec_all_digits(ds) && (if neg {
        spec_digits_val(ds) <= 128
    } else {
        spec_digits_val(ds) <= 127
    }) {
        if neg {
            Some((-spec_digits_val(ds)) as i8)
        } else {
            Some(spec_digits_val(ds) as i8)
        }
    } else {
        None
    }
}

/// The digit part of a signed number string: everything after an optional
/// leading sign.
pub open spec fn spec_signed_digits_of(s: Seq<char>) -> Seq<char> {
    if s.len() > 0 && (s[0] == '+' || s[0] == '-') {
        s.drop_first()
    } else {
        s
    }
}

/// Parses a small signed number exactly as `spec_parse_i8` describes.
pub fn parse_i8(s: &str) -> (r: Option<i8>)
    ensures
        r == spec_parse_i8(s@),
{
    let len = s.unicode_len();
    let mut neg = false;
    let mut start: usize = 0;
    if len > 0 {
        let c0 = s.get_char(0);
        if c0 == '-' {
            neg = true;
            start = 1;
        } else if c0 == '+' {
            start = 1;
        }
    }
    let ghost ds = spec_signed_digits_of(s@);
    proof {
        assert(ds =~= s@.skip(start as int));
    }
    if start >= len {
        return None;
    }
    let mut val: u32 = 0;
    let mut i: usize = start;
    while i < len
        invariant
            start <= i <= len,
            len == s@.len(),
            ds == s@.skip(start as int),
            ds == spec_signed_digits_of(s@),
            neg == (s@.len() > 0 && s@[0] == '-'),
            val <= 128,
            val == spec_digits_val(ds.take(i - start)),
            forall|k: int| 0 <= k < i - start ==> spec_is_digit(#[trigger] ds[k]),
        decreases len - i,
    {
        let c = s.get_char(i);
        let u = c as u32;
        if u < 48 || u > 57 {
            proof {
                assert(ds.len() == s@.len() - start);
                assert(0 <= i - start < ds.len());
                assert(ds[i - start] == s@[i as int]);
                assert(!spec_is_digit(ds[i - start]));
                assert(!spec_all_digits(ds));
                assert(spec_parse_i8(s@) is None);
            }
            return None;
        }
        proof {
            assert(ds.take(i - start + 1).drop_last() =~= ds.take(i - start));
            assert(ds.take(i - start + 1).last() == ds[i - start]);
            assert(ds[i - start] == s@[i as int]);
        }
        val = val * 10 + (u - 48);
        i = i + 1;
        if val > 128 {
            proof {
                if spec_all_digits(ds) {
                    lemma_digits_val_grows(ds, i - start);
                    assert(spec_digits_val(ds) > 128);
                }
                assert(spec_parse_i8(s@) is None);
            }
            return None;
        }
    }
    proof {
        assert(ds.take(len - start) =~= ds);
    }
    if neg {
        if val == 128 {
            Some(-128)
        } else {
            Some(-(val as i8))
        }
    } else {
        if val > 127 {
            None
        } else {
            Some(val as i8)
        }
    }
}

} // verus!
