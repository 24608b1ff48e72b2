//! Character-level text primitives: conversions between strings and
//! character vectors, comparison, prefix and substring search, trimming and
//! identifier scanning.

use vstd::prelude::*;
use vstd::std_specs::iter::IteratorSpec;
use vstd::string::StringSliceAdditionalSpecFns;

verus! {

/// Whether `char::is_alphanumeric` holds of `c`.
pub uninterp spec fn char_is_alphanumeric(c: char) -> bool;

/// Whether `char::is_whitespace` holds of `c`.
pub uninterp spec fn char_is_whitespace(c: char) -> bool;

/// The characters of `str::to_lowercase` applied to a string with the
/// characters `s`.
pub uninterp spec fn lowercase_of(s: Seq<char>) -> Seq<char>;

/// Calls `char::is_alphanumeric`. The result is trusted to be the Unicode
/// classification that `char_is_alphanumeric` names; nothing more is claimed
/// of it.
#[verifier::external_body]
pub(crate) fn is_alphanumeric(c: char) -> (b: bool)
    ensures
        b == char_is_alphanumeric(c),
{
    c.is_alphanumeric()
}

/// Calls `char::is_whitespace`. The result is trusted to be the Unicode
/// classification that `char_is_whitespace` names; nothing more is claimed
/// of it.
#[verifier::external_body]
pub(crate) fn is_whitespace(c: char) -> (b: bool)
    ensures
        b == char_is_whitespace(c),
{
    c.is_whitespace()
}

/// Calls `str::to_lowercase`. The characters of the result are trusted to be
/// those that `lowercase_of` names for the characters of `s`; nothing more is
/// claimed of them.
#[verifier::external_body]
pub(crate) fn to_lowercase(s: &str) -> (lower: String)
    ensures
        lower@ == lowercase_of(s@),
{
    s.to_lowercase()
}

/// The characters of `s`, in order.
pub fn to_chars(s: &str) -> (chars: Vec<char>)
    ensures
        chars@ == s@,
{
    let mut chars: Vec<char> = Vec::new();
    let mut it = s.chars();
    broadcast use vstd::string::group_string_axioms;
    loop
        invariant
            it.obeys_prophetic_iter_laws(),
            chars@ + it.remaining() == s@,
            it.decrease() is Some,
        ensures
            chars@ == s@,
        decreases it.decrease()->0,
    {
        match it.next() {
            Some(c) => {
                chars.push(c);
            },
            None => {
                break;
            },
        }
    }
    chars
}

/// Whether two strings hold the same characters.
pub fn str_eq(a: &str, b: &str) -> (same: bool)
    ensures
        same == (a@ == b@),
{
    let left = a.as_bytes();
    let right = b.as_bytes();
    proof {
        vstd::utf8::encode_utf8_decode_utf8(a@);
        vstd::utf8::encode_utf8_decode_utf8(b@);
    }
    if left.len() != right.len() {
        return false;
    }
    let mut i: usize = 0;
    while i < left.len()
        invariant
            i <= left.len(),
            left.len() == right.len(),
            left@ == a.spec_bytes(),
            right@ == b.spec_bytes(),
            vstd::utf8::decode_utf8(a.spec_bytes()) == a@,
            vstd::utf8::decode_utf8(b.spec_bytes()) == b@,
            forall|k: int| 0 <= k < i ==> left@[k] == right@[k],
        decreases left.len() - i,
    {
        if left[i] != right[i] {
            return false;
        }
        i += 1;
    }
    assert(left@ =~= right@);
    true
}

/// The number of bytes that the UTF-8 encoding of `s` takes.
pub open spec fn byte_len(s: Seq<char>) -> nat {
    vstd::utf8::encode_utf8(s).len()
}

/// The number of bytes of `s`.
pub fn byte_length(s: &str) -> (n: usize)
    ensures
        n == byte_len(s@),
{
    s.as_bytes().len()
}

/// A copy of the characters of `s` from `from` up to, not including, `to`.
pub fn slice_chars(s: &Vec<char>, from: usize, to: usize) -> (part: Vec<char>)
    requires
        from <= to <= s.len(),
    ensures
        part@ == s@.subrange(from as int, to as int),
{
    let mut part: Vec<char> = Vec::new();
    let mut i: usize = from;
    while i < to
        invariant
            from <= i <= to <= s.len(),
            part@ == s@.subrange(from as int, i as int),
        decreases to - i,
    {
        part.push(s[i]);
        i += 1;
    }
    part
}

/// Whether `pat` stands in `s` at position `i`.
pub open spec fn occurs_at(s: Seq<char>, pat: Seq<char>, i: int) -> bool {
    0 <= i && i + pat.len() <= s.len() && s.subrange(i, i + pat.len()) =~= pat
}

/// Whether `pat` stands somewhere in `s`.
pub open spec fn contains_seq(s: Seq<char>, pat: Seq<char>) -> bool {
    exists|i: int| occurs_at(s, pat, i)
}

/// Whether `i` is the leftmost position at which `pat` stands in `s`.
pub open spec fn is_first_occurrence(s: Seq<char>, pat: Seq<char>, i: int) -> bool {
    occurs_at(s, pat, i) && forall|j: int| 0 <= j < i ==> !occurs_at(s, pat, j)
}

/// The leftmost position at which `pat` stands in `s`; meaningful only where
/// `contains_seq(s, pat)`.
pub open spec fn first_occurrence(s: Seq<char>, pat: Seq<char>) -> int {
    choose|i: int| is_first_occurrence(s, pat, i)
}

/// A leftmost occurrence is the one that `first_occurrence` names.
pub proof fn lemma_first_occurrence_unique(s: Seq<char>, pat: Seq<char>, i: int)
    requires
        is_first_occurrence(s, pat, i),
    ensures
        contains_seq(s, pat),
        first_occurrence(s, pat) == i,
{
    let j = first_occurrence(s, pat);
    assert(is_first_occurrence(s, pat, j));
    if j < i {
        assert(!occurs_at(s, pat, j));
    }
    if i < j {
        assert(!occurs_at(s, pat, i));
    }
}

/// Whether `pat` stands in `s` at position `i`.
pub fn matches_at(s: &Vec<char>, pat: &Vec<char>, i: usize) -> (found: bool)
    ensures
        found == occurs_at(s@, pat@, i as int),
{
    if i > s.len() || pat.len() > s.len() - i {
        return false;
    }
    let mut k: usize = 0;
    while k < pat.len()
        invariant
            k <= pat.len(),
            i + pat.len() <= s.len(),
            forall|m: int| 0 <= m < k ==> s@[i + m] == pat@[m],
        decreases pat.len() - k,
    {
        if s[i + k] != pat[k] {
            assert(s@.subrange(i as int, i + pat.len())[k as int] != pat@[k as int]);
            return false;
        }
        k += 1;
    }
    assert(s@.subrange(i as int, i + pat.len()) =~= pat@);
    true
}

/// Whether `s` begins with `pat`.
pub fn starts_with(s: &Vec<char>, pat: &Vec<char>) -> (found: bool)
    ensures
        found == pat@.is_prefix_of(s@),
{
    matches_at(s, pat, 0)
}

/// The leftmost position at which `pat` stands in `s`, if it stands there at
/// all.
pub fn find_first(s: &Vec<char>, pat: &Vec<char>) -> (found: Option<usize>)
    ensures
        found is Some <==> contains_seq(s@, pat@),
        found is Some ==> is_first_occurrence(s@, pat@, found->0 as int),
        found is Some ==> found->0 == first_occurrence(s@, pat@),
{
    if pat.len() > s.len() {
        return None;
    }
    let last = s.len() - pat.len();
    let mut i: usize = 0;
    while i <= last
        invariant
            i <= last + 1,
            last == s.len() - pat.len(),
            forall|j: int| 0 <= j < i ==> !occurs_at(s@, pat@, j),
        decreases last + 1 - i,
    {
        if matches_at(s, pat, i) {
            proof {
                lemma_first_occurrence_unique(s@, pat@, i as int);
            }
            return Some(i);
        }
        i += 1;
    }
    None
}

/// Whether `pat` stands somewhere in `s`.
pub fn contains(s: &Vec<char>, pat: &Vec<char>) -> (found: bool)
    ensures
        found == contains_seq(s@, pat@),
{
    find_first(s, pat).is_some()
}

/// The first position at or after `from` that holds no whitespace, or the
/// length of `s` where there is none.
pub open spec fn skip_whitespace(s: Seq<char>, from: int) -> int
    decreases s.len() - from,
{
    if 0 <= from < s.len() && char_is_whitespace(s[from]) {
        skip_whitespace(s, from + 1)
    } else {
        from
    }
}

/// The end of the last run of non-whitespace before `to`: the least position
/// from which everything up to `to` is whitespace.
pub open spec fn skip_whitespace_back(s: Seq<char>, to: int) -> int
    decreases to,
{
    if 0 < to <= s.len() && char_is_whitespace(s[to - 1]) {
        skip_whitespace_back(s, to - 1)
    } else {
        to
    }
}

/// `s` without its leading and trailing whitespace.
pub open spec fn trimmed(s: Seq<char>) -> Seq<char> {
    let from = skip_whitespace(s, 0);
    let to = skip_whitespace_back(s, s.len() as int);
    if from < to {
        s.subrange(from, to)
    } else {
        Seq::empty()
    }
}

/// What skipping whitespace skips: whitespace only, and all of it up to
/// the first other character.
pub proof fn lemma_skip_whitespace(s: Seq<char>, from: int)
    requires
        0 <= from <= s.len(),
    ensures
        from <= skip_whitespace(s, from) <= s.len(),
        forall|i: int| from <= i < skip_whitespace(s, from) ==> char_is_whitespace(#[trigger] s[i]),
        skip_whitespace(s, from) < s.len() ==> !char_is_whitespace(s[skip_whitespace(s, from)]),
    decreases s.len() - from,
{
    if from < s.len() && char_is_whitespace(s[from]) {
        lemma_skip_whitespace(s, from + 1);
    }
}

/// What skipping whitespace backwards skips: whitespace only, and all of it
/// down to the last other character.
pub proof fn lemma_skip_whitespace_back(s: Seq<char>, to: int)
    requires
        0 <= to <= s.len(),
    ensures
        0 <= skip_whitespace_back(s, to) <= to,
        forall|i: int| skip_whitespace_back(s, to) <= i < to ==> char_is_whitespace(#[trigger] s[i]),
        skip_whitespace_back(s, to) > 0 ==> !char_is_whitespace(s[skip_whitespace_back(s, to) - 1]),
    decreases to,
{
    if 0 < to && char_is_whitespace(s[to - 1]) {
        lemma_skip_whitespace_back(s, to - 1);
    }
}

/// A trimmed text neither begins nor ends with whitespace, and the text it
/// was trimmed from is the trimmed text with whitespace around it.
pub proof fn lemma_trimmed(s: Seq<char>)
    ensures
        trimmed(s).len() > 0 ==> !char_is_whitespace(trimmed(s).first()) && !char_is_whitespace(
            trimmed(s).last(),
        ),
        exists|before: Seq<char>, after: Seq<char>|
            {
                &&& s == before + trimmed(s) + after
                &&& forall|i: int| 0 <= i < before.len() ==> char_is_whitespace(#[trigger] before[i])
                &&& forall|i: int| 0 <= i < after.len() ==> char_is_whitespace(#[trigger] after[i])
            },
{
    let n = s.len() as int;
    let from = skip_whitespace(s, 0);
    let to = skip_whitespace_back(s, n);
    lemma_skip_whitespace(s, 0);
    lemma_skip_whitespace_back(s, n);
    if from < to {
        let before = s.subrange(0, from);
        let after = s.subrange(to, n);
        assert(s =~= before + trimmed(s) + after);
        assert(trimmed(s).first() == s[from]);
        assert(trimmed(s).last() == s[to - 1]);
    } else {
        if from < n {
            assert(!char_is_whitespace(s[from]));
            assert(to <= from);
        }
        assert(from == n);
        let after = Seq::<char>::empty();
        assert(s =~= s + trimmed(s) + after);
    }
}

/// `s` without its leading and trailing whitespace.
pub fn trim(s: &Vec<char>) -> (inner: Vec<char>)
    ensures
        inner@ == trimmed(s@),
{
    let mut from: usize = 0;
    while from < s.len() && is_whitespace(s[from])
        invariant
            from <= s.len(),
            skip_whitespace(s@, from as int) == skip_whitespace(s@, 0),
        decreases s.len() - from,
    {
        from += 1;
    }
    let mut to: usize = s.len();
    while to > 0 && is_whitespace(s[to - 1])
        invariant
            to <= s.len(),
            skip_whitespace_back(s@, to as int) == skip_whitespace_back(s@, s.len() as int),
        decreases to,
    {
        to -= 1;
    }
    if from < to {
        slice_chars(s, from, to)
    } else {
        Vec::new()
    }
}

/// Whether `c` may stand in an identifier: a letter or a digit, an
/// underscore or a hyphen.
pub open spec fn is_ident_char(c: char) -> bool {
    char_is_alphanumeric(c) || c == '_' || c == '-'
}

/// Whether `c` may stand in an identifier.
pub fn ident_char(c: char) -> (b: bool)
    ensures
        b == is_ident_char(c),
{
    is_alphanumeric(c) || c == '_' || c == '-'
}

/// The end of the identifier that begins at `from`: the first position at or
/// after `from` that holds no identifier character, or the length of `s`.
pub open spec fn ident_end(s: Seq<char>, from: int) -> int
    decreases s.len() - from,
{
    if 0 <= from < s.len() && is_ident_char(s[from]) {
        ident_end(s, from + 1)
    } else {
        from
    }
}

/// The identifier is bounded by the text, holds identifier characters only,
/// and is not followed by one.
pub proof fn lemma_ident_end(s: Seq<char>, from: int)
    requires
        0 <= from <= s.len(),
    ensures
        from <= ident_end(s, from) <= s.len(),
        forall|i: int| from <= i < ident_end(s, from) ==> is_ident_char(#[trigger] s[i]),
        ident_end(s, from) < s.len() ==> !is_ident_char(s[ident_end(s, from)]),
    decreases s.len() - from,
{
    if from < s.len() && is_ident_char(s[from]) {
        lemma_ident_end(s, from + 1);
    }
}

/// The end of the identifier that begins at `from`.
pub fn scan_identifier(s: &Vec<char>, from: usize) -> (end: usize)
    requires
        from <= s.len(),
    ensures
        end == ident_end(s@, from as int),
        from <= end <= s.len(),
{
    let mut end: usize = from;
    while end < s.len() && ident_char(s[end])
        invariant
            from <= end <= s.len(),
            ident_end(s@, end as int) == ident_end(s@, from as int),
        decreases s.len() - end,
    {
        end += 1;
    }
    end
}

/// A string with the characters of `chars`.
pub fn from_chars(chars: &Vec<char>) -> (s: String)
    ensures
        s@ == chars@,
{
    let mut s = String::new();
    let mut i: usize = 0;
    while i < chars.len()
        invariant
            i <= chars.len(),
            s@ == chars@.take(i as int),
        decreases chars.len() - i,
    {
        push_char(&mut s, chars[i]);
        i += 1;
    }
    s
}

/// Calls `String::push`, which appends one character to the end of the
/// string.
#[verifier::external_body]
fn push_char(s: &mut String, c: char)
    ensures
        final(s)@ == old(s)@.push(c),
{
    s.push(c);
}

} // verus!
