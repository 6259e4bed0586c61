//! Parts of a file, as requests ask for them and responses announce them.
use axum::http::header::{HeaderMap, HeaderValue};
use vstd::prelude::*;

use crate::service::headers::{field_text, header_text, header_values, lemma_names, Fields};
use crate::text::{
    all_digits, chars_of, decimal, find, find_from, is_digit, is_white_space, lacks, law_decimal,
    law_number_is_read_back, law_trim, lemma_find_behind, lemma_find_from, occurs_at, parse_u64,
    parsed_u64, starts_with, sub_string, test_at, trim, trimmed,
};

verus! {

/// The part of a file that a request asks for.
#[derive(Debug, Clone, Copy, PartialEq, Eq)]
pub enum RangeReq {
    /// From a byte on, up to another one or to the end.
    From(u64, Option<u64>),
    /// The given number of bytes at the end.
    Suffix(u64),
}

/// The part that the two sides of a hyphen ask for.
pub open spec fn range_of_sides(first: Seq<char>, last: Seq<char>) -> Option<RangeReq> {
    if first.len() == 0 {
        match parse_u64(last) {
            Some(n) => Some(RangeReq::Suffix(n)),
            None => None,
        }
    } else {
        match parse_u64(first) {
            Some(start) => if last.len() == 0 {
                Some(RangeReq::From(start, None))
            } else {
                match parse_u64(last) {
                    Some(end) => Some(RangeReq::From(start, Some(end))),
                    None => None,
                }
            },
            None => None,
        }
    }
}

/// The part that the value of a `Range` header asks for, if it is a single
/// range of bytes.
pub open spec fn range_of_text(value: Seq<char>) -> Option<RangeReq> {
    let spec_text = value.skip("bytes="@.len() as int);
    if !starts_with(value, "bytes="@) || spec_text.contains(',') {
        None
    } else {
        match find_from(spec_text, seq!['-'], 0) {
            Some(i) => range_of_sides(spec_text.take(i), spec_text.skip(i + 1)),
            None => None,
        }
    }
}

/// The part that a request asks for.
pub open spec fn range_of(fields: Fields) -> Option<RangeReq> {
    match field_text(fields, "range"@) {
        Some(value) => range_of_text(value),
        None => None,
    }
}

/// Reads the part that the two sides of a hyphen ask for.
fn parse_sides(first: &str, last: &str) -> (r: Option<RangeReq>)
    ensures
        r == range_of_sides(first@, last@),
{
    if first.unicode_len() == 0 {
        match parsed_u64(last) {
            Some(n) => Some(RangeReq::Suffix(n)),
            None => None,
        }
    } else {
        let start: u64 = match parsed_u64(first) {
            Some(n) => n,
            None => return None,
        };
        if last.unicode_len() == 0 {
            return Some(RangeReq::From(start, None));
        }
        match parsed_u64(last) {
            Some(end) => Some(RangeReq::From(start, Some(end))),
            None => None,
        }
    }
}

/// Reads the value of a `Range` header.
pub fn parse_range_text(value: &str) -> (r: Option<RangeReq>)
    ensures
        r == range_of_text(value@),
{
    let chars: Vec<char> = chars_of(value);
    let unit: Vec<char> = chars_of("bytes=");
    if !test_at(&chars, &unit, 0) {
        return None;
    }
    let n: usize = unit.len();
    let ghost spec_text = value@.skip(n as int);
    let spec_chars: &[char] = vstd::slice::slice_subrange(chars.as_slice(), n, chars.len());
    assert(spec_chars@ =~= spec_text);
    let mut k: usize = 0;
    while k < spec_chars.len()
        invariant
            k <= spec_chars@.len(),
            spec_chars@ == spec_text,
            forall|j: int| 0 <= j < k ==> spec_text[j] != ',',
            spec_text == value@.skip("bytes="@.len() as int),
        decreases spec_chars@.len() - k,
    {
        if spec_chars[k] == ',' {
            assert(spec_text.contains(','));
            return None;
        }
        k += 1;
    }
    assert(!spec_text.contains(','));
    let hyphen: Vec<char> = vec!['-'];
    assert(hyphen@ =~= seq!['-']);
    match find(spec_chars, &hyphen, 0) {
        Some(i) => {
            assert(spec_text.subrange(0, i as int) =~= spec_text.take(i as int));
            assert(spec_text.subrange(i + 1, spec_text.len() as int) =~= spec_text.skip(i + 1));
            parse_sides(
                &sub_string(spec_chars, 0, i),
                &sub_string(spec_chars, i + 1, spec_chars.len()),
            )
        },
        None => None,
    }
}

/// Reads the part that a request asks for.
pub fn parse_range(headers: &HeaderMap<HeaderValue>) -> (r: Option<RangeReq>)
    ensures
        r == range_of(header_values(*headers)),
{
    proof {
        lemma_names();
    }
    match header_text(headers, "range") {
        Some(value) => parse_range_text(&value),
        None => None,
    }
}

/// The first and the last byte of the part of a file that a request gets. There
/// is none if the part asked for has no byte in the file.
pub open spec fn resolved(req: RangeReq, file_len: u64) -> Option<(u64, u64)> {
    match req {
        RangeReq::Suffix(n) => if n == 0 {
            None
        } else if n < file_len {
            Some(((file_len - n) as u64, (file_len - 1) as u64))
        } else {
            Some((0, (file_len - 1) as u64))
        },
        RangeReq::From(start, end) => {
            let last = match end {
                Some(e) if e < file_len => e,
                _ => (file_len - 1) as u64,
            };
            if start >= file_len || last < start {
                None
            } else {
                Some((start, last))
            }
        },
    }
}

/// Whether a part can be looked for: bytes at the end of a file can be only if
/// the file has bytes.
pub open spec fn resolvable(req: RangeReq, file_len: u64) -> bool {
    req matches RangeReq::Suffix(n) ==> n == 0 || file_len > 0
}

/// Finds the first and the last byte that a request gets.
pub fn resolve_range(req: RangeReq, file_len: u64) -> (r: Option<(u64, u64)>)
    requires
        resolvable(req, file_len),
    ensures
        r == resolved(req, file_len),
{
    let (start, end): (u64, u64) = match req {
        RangeReq::Suffix(n) => {
            if n == 0 {
                return None;
            }
            (file_len.saturating_sub(n), file_len - 1)
        },
        RangeReq::From(start, end) => {
            if start >= file_len {
                return None;
            }
            let last: u64 = match end {
                Some(e) if e < file_len => e,
                _ => file_len - 1,
            };
            (start, last)
        },
    };
    if end < start {
        return None;
    }
    Some((start, end))
}

/// What a request gets is a part of the file that is not empty. It begins where
/// the request wants, or is as long as the request wants, unless the file ends
/// before.
pub proof fn law_resolved_range(req: RangeReq, file_len: u64)
    requires
        resolvable(req, file_len),
    ensures
        resolved(req, file_len) matches Some((start, end)) ==> {
            &&& start <= end < file_len
            &&& req matches RangeReq::From(s, e) ==> start == s && (e matches Some(e) ==> end <= e)
            &&& req matches RangeReq::Suffix(n) ==> end == file_len - 1 && (end - start + 1 == n || (
            start == 0 && file_len <= n))
        },
        resolved(req, file_len) is None <==> match req {
            RangeReq::From(s, e) => s >= file_len || (e matches Some(e) && e < s),
            RangeReq::Suffix(n) => n == 0,
        },
{
}

/// Whether a byte of a file of some length is one that a request asks for: one
/// from the first on, up to the last if there is one; or one of the given number
/// at the end.
pub open spec fn wants(req: RangeReq, file_len: int, at: int) -> bool {
    &&& 0 <= at < file_len
    &&& match req {
        RangeReq::From(start, Some(end)) => start <= at <= end,
        RangeReq::From(start, None) => start <= at,
        RangeReq::Suffix(n) => at >= file_len - n,
    }
}

/// What a request gets are exactly the bytes of the file that it asks for, and
/// nothing if there are none.
pub proof fn law_wanted_bytes(req: RangeReq, file_len: u64, at: int)
    requires
        resolvable(req, file_len),
    ensures
        resolved(req, file_len) matches Some((start, end)) ==> (start <= at <= end <==> wants(
            req,
            file_len as int,
            at,
        )),
        resolved(req, file_len) is None ==> !wants(req, file_len as int, at),
        resolved(req, file_len) matches Some((start, end)) ==> wants(
            req,
            file_len as int,
            start as int,
        ) && wants(req, file_len as int, end as int),
{
}

/// The value of a `Range` header that asks for a part.
pub open spec fn range_value(req: RangeReq) -> Seq<char> {
    match req {
        RangeReq::From(start, Some(end)) => "bytes="@ + decimal(start as nat) + "-"@ + decimal(
            end as nat,
        ),
        RangeReq::From(start, None) => "bytes="@ + decimal(start as nat) + "-"@,
        RangeReq::Suffix(n) => "bytes=-"@ + decimal(n as nat),
    }
}

/// A number holds neither of the characters that separate ranges.
proof fn lemma_digits_lack(n: nat)
    ensures
        lacks(decimal(n), seq!['-']),
        !decimal(n).contains(','),
        !decimal(n).contains('/'),
{
    law_decimal(n);
    let d = decimal(n);
    assert forall|i: int| !(#[trigger] occurs_at(d, seq!['-'], i)) by {
        if occurs_at(d, seq!['-'], i) {
            assert(d.subrange(i, i + 1)[0] == '-');
            assert(is_digit(d[i]));
        }
    }
    if d.contains(',') {
        let i = choose|i: int| 0 <= i < d.len() && d[i] == ',';
        assert(is_digit(d[i]));
    }
    if d.contains('/') {
        let i = choose|i: int| 0 <= i < d.len() && d[i] == '/';
        assert(is_digit(d[i]));
    }
}

/// The two sides of the hyphen in a range.
proof fn lemma_sides(first: Seq<char>, last: Seq<char>)
    requires
        lacks(first, seq!['-']),
        !first.contains(','),
        !last.contains(','),
    ensures
        range_of_text("bytes="@ + first + "-"@ + last) == range_of_sides(first, last),
{
    reveal_strlit("bytes=");
    reveal_strlit("-");
    let value = "bytes="@ + first + "-"@ + last;
    let spec_text = first + seq!['-'] + last;
    assert("-"@ =~= seq!['-']);
    assert(value.subrange(0, 6) =~= "bytes="@);
    assert(value.skip(6) =~= spec_text);
    if spec_text.contains(',') {
        let i = choose|i: int| 0 <= i < spec_text.len() && spec_text[i] == ',';
        if i < first.len() {
            assert(first[i] == ',');
        } else {
            assert(last[i - first.len() - 1] == ',');
        }
    }
    lemma_find_behind(first, seq!['-'], last, 0);
    assert(spec_text.take(first.len() as int) =~= first);
    assert(spec_text.skip((first.len() + 1) as int) =~= last);
}

/// A request for a part is understood as it is meant.
pub proof fn law_range_is_read_back(req: RangeReq)
    ensures
        range_of_text(range_value(req)) == Some(req),
{
    let none = Seq::<char>::empty();
    assert(lacks(none, seq!['-']));
    match req {
        RangeReq::From(start, Some(end)) => {
            lemma_digits_lack(start as nat);
            lemma_digits_lack(end as nat);
            lemma_sides(decimal(start as nat), decimal(end as nat));
            law_decimal(start as nat);
            law_decimal(end as nat);
            law_number_is_read_back(start);
            law_number_is_read_back(end);
        },
        RangeReq::From(start, None) => {
            lemma_digits_lack(start as nat);
            lemma_sides(decimal(start as nat), none);
            assert(range_value(req) + none =~= range_value(req));
            law_decimal(start as nat);
            law_number_is_read_back(start);
        },
        RangeReq::Suffix(n) => {
            lemma_digits_lack(n as nat);
            lemma_sides(none, decimal(n as nat));
            reveal_strlit("bytes=");
            reveal_strlit("bytes=-");
            reveal_strlit("-");
            assert("bytes="@ + none + "-"@ =~= "bytes=-"@);
            law_number_is_read_back(n);
        },
    }
}

/// What is not a single range of bytes is no range: several of them, another
/// unit, or no hyphen.
pub proof fn law_no_range(value: Seq<char>)
    requires
        value.contains(',') || value.take(6) != "bytes="@ || value.len() < 6 || !value.contains(
            '-',
        ),
    ensures
        range_of_text(value) is None,
{
    reveal_strlit("bytes=");
    if starts_with(value, "bytes="@) {
        let rest = value.skip(6);
        assert(value.subrange(0, 6) =~= value.take(6));
        if value.contains(',') {
            let i = choose|i: int| 0 <= i < value.len() && value[i] == ',';
            assert(value.take(6)[i] == ',' || i >= 6);
            assert(i >= 6);
            assert(rest[i - 6] == ',');
        } else {
            lemma_find_from(rest, seq!['-'], 0);
            if let Some(i) = find_from(rest, seq!['-'], 0) {
                assert(rest.subrange(i, i + 1)[0] == '-');
                assert(value[i + 6] == '-');
            }
        }
    }
}

/// What follows the last slash of a text, or the whole text.
pub open spec fn after_slash(s: Seq<char>) -> Seq<char>
    decreases s.len(),
{
    if s.len() == 0 || s.last() == '/' {
        Seq::empty()
    } else {
        after_slash(s.drop_last()).push(s.last())
    }
}

/// The length of a file that the value of a `Content-Range` header announces.
pub open spec fn total_of_text(value: Seq<char>) -> Option<u64> {
    parse_u64(trim(after_slash(value)))
}

/// What follows a slash that no other one follows.
proof fn lemma_after_slash(s: Seq<char>, at: int)
    requires
        0 <= at <= s.len(),
        at > 0 ==> s[at - 1] == '/',
        forall|i: int| at <= i < s.len() ==> s[i] != '/',
    ensures
        after_slash(s) == s.skip(at),
    decreases s.len(),
{
    if at == s.len() {
        assert(after_slash(s) =~= s.skip(at));
    } else {
        lemma_after_slash(s.drop_last(), at);
        assert(s.drop_last().skip(at).push(s.last()) =~= s.skip(at));
    }
}

/// Reads the length that the value of a `Content-Range` header announces.
pub fn parse_total(value: &str) -> (r: Option<u64>)
    ensures
        r == total_of_text(value@),
{
    let chars: Vec<char> = chars_of(value);
    let mut at: usize = chars.len();
    while at > 0 && chars[at - 1] != '/'
        invariant
            at <= chars@.len(),
            forall|i: int| at <= i < chars@.len() ==> chars@[i] != '/',
        decreases at,
    {
        at -= 1;
    }
    proof {
        lemma_after_slash(chars@, at as int);
        assert(chars@.subrange(at as int, chars@.len() as int) =~= chars@.skip(at as int));
    }
    parsed_u64(&trimmed(&sub_string(&chars, at, chars.len())))
}

/// The length of a file that a response announces with the part it holds.
pub open spec fn total_of(fields: Fields) -> Option<u64> {
    match field_text(fields, "content-range"@) {
        Some(value) => total_of_text(value),
        None => None,
    }
}

/// Reads the length of a file that a response announces.
pub fn content_range_total(headers: &HeaderMap<HeaderValue>) -> (r: Option<u64>)
    ensures
        r == total_of(header_values(*headers)),
{
    proof {
        lemma_names();
    }
    match header_text(headers, "content-range") {
        Some(value) => parse_total(&value),
        None => None,
    }
}

/// The length of its body that a response announces.
pub open spec fn length_of(fields: Fields) -> Option<u64> {
    match field_text(fields, "content-length"@) {
        Some(value) => parse_u64(value),
        None => None,
    }
}

/// Reads the length of its body that a response announces.
pub fn content_length(headers: &HeaderMap<HeaderValue>) -> (r: Option<u64>)
    ensures
        r == length_of(header_values(*headers)),
{
    proof {
        lemma_names();
    }
    match header_text(headers, "content-length") {
        Some(value) => parsed_u64(&value),
        None => None,
    }
}

/// The length of a file that stands behind the last slash of a text is the one
/// that is read, whatever stands before the slash.
pub proof fn law_total_is_read_back(before: Seq<char>, n: u64)
    ensures
        total_of_text(before + "/"@ + decimal(n as nat)) == Some(n),
{
    let d = decimal(n as nat);
    let text = before + "/"@ + d;
    let at = (before.len() + 1) as int;
    let none = Seq::<char>::empty();
    reveal_strlit("/");
    lemma_digits_lack(n as nat);
    law_decimal(n as nat);
    assert forall|i: int| at <= i < text.len() implies text[i] != '/' by {
        assert(text[i] == d[i - at]);
        assert(d.contains(d[i - at]));
    }
    lemma_after_slash(text, at);
    assert(text.skip(at) =~= d);
    assert(is_digit(d[0]) && is_digit(d[d.len() - 1]));
    law_trim(d, none, none);
    assert(none + d + none =~= d);
    law_number_is_read_back(n);
}

/// A text behind whose last slash stands an asterisk announces no length.
pub proof fn law_no_total(before: Seq<char>)
    ensures
        total_of_text(before + "/*"@) is None,
{
    let text = before + "/*"@;
    let at = (before.len() + 1) as int;
    let none = Seq::<char>::empty();
    reveal_strlit("/*");
    lemma_after_slash(text, at);
    assert(text.skip(at) =~= seq!['*']);
    law_trim(seq!['*'], none, none);
    assert(none + seq!['*'] + none =~= seq!['*']);
    assert(!is_digit(seq!['*'][0]));
    assert(!all_digits(seq!['*']));
}

/// The length of a file is read with white space around it, and also where no
/// slash stands before it.
pub proof fn law_total_among_spaces(
    before: Seq<char>,
    left: Seq<char>,
    n: u64,
    right: Seq<char>,
)
    requires
        forall|i: int| 0 <= i < left.len() ==> is_white_space(#[trigger] left[i]),
        forall|i: int| 0 <= i < right.len() ==> is_white_space(#[trigger] right[i]),
    ensures
        total_of_text(before + "/"@ + (left + decimal(n as nat) + right)) == Some(n),
        total_of_text(left + decimal(n as nat) + right) == Some(n),
{
    let d = decimal(n as nat);
    let value = left + d + right;
    let text = before + "/"@ + value;
    let at = (before.len() + 1) as int;
    reveal_strlit("/");
    lemma_digits_lack(n as nat);
    law_decimal(n as nat);
    assert forall|i: int| 0 <= i < value.len() implies value[i] != '/' by {
        if i < left.len() {
            assert(value[i] == left[i]);
        } else if i < left.len() + d.len() {
            assert(value[i] == d[i - left.len()]);
            assert(d.contains(d[i - left.len()]));
        } else {
            assert(value[i] == right[i - left.len() - d.len()]);
        }
    }
    assert forall|i: int| at <= i < text.len() implies text[i] != '/' by {
        assert(text[i] == value[i - at]);
    }
    lemma_after_slash(text, at);
    assert(text.skip(at) =~= value);
    lemma_after_slash(value, 0);
    assert(value.skip(0) =~= value);
    assert(is_digit(d[0]) && is_digit(d[d.len() - 1]));
    law_trim(d, left, right);
    law_number_is_read_back(n);
}

} // verus!
