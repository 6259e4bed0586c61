//! Strings as sequences of characters: the few operations on text that the
//! proxy needs, each stated over the view of its arguments.
use vstd::prelude::*;

verus! {

/// `String::push` appends the given character to the end of the string.
pub assume_specification[ String::push ](s: &mut String, c: char)
    ensures
        final(s)@ == old(s)@.push(c),
;

/// The characters of a string, in order.
pub fn chars_of(s: &str) -> (r: Vec<char>)
    ensures
        r@ == s@,
{
    let mut out: Vec<char> = Vec::new();
    for c in it: s.chars()
        invariant
            out@ == it.seq().take(it.index()),
            it.seq() == s@,
    {
        out.push(c);
    }
    out
}

/// The string made of the given characters.
pub fn string_of(chars: &[char]) -> (r: String)
    ensures
        r@ == chars@,
{
    let mut out: String = String::new();
    let mut i: usize = 0;
    while i < chars.len()
        invariant
            i <= chars@.len(),
            out@ == chars@.take(i as int),
        decreases chars@.len() - i,
    {
        out.push(chars[i]);
        i += 1;
    }
    assert(chars@.take(i as int) == chars@);
    out
}

/// Whether two byte slices hold the same bytes.
pub fn bytes_eq(a: &[u8], b: &[u8]) -> (r: bool)
    ensures
        r == (a@ == b@),
{
    if a.len() != b.len() {
        return false;
    }
    let mut i: usize = 0;
    while i < a.len()
        invariant
            a@.len() == b@.len(),
            i <= a@.len(),
            a@.take(i as int) == b@.take(i as int),
        decreases a@.len() - i,
    {
        if a[i] != b[i] {
            assert(a@[i as int] != b@[i as int]);
            return false;
        }
        assert(a@.take(i + 1) == a@.take(i as int).push(a@[i as int]));
        assert(b@.take(i + 1) == b@.take(i as int).push(b@[i as int]));
        i += 1;
    }
    assert(a@.take(i as int) == a@ && b@.take(i as int) == b@);
    true
}

/// Whether two strings hold the same characters.
pub fn str_eq(a: &str, b: &str) -> (r: bool)
    ensures
        r == (a@ == b@),
{
    proof {
        vstd::utf8::encode_utf8_decode_utf8(a@);
        vstd::utf8::encode_utf8_decode_utf8(b@);
    }
    bytes_eq(a.as_bytes(), b.as_bytes())
}

/// The characters of `a` followed by those of `b`.
pub fn join2(a: &str, b: &str) -> (r: String)
    ensures
        r@ == a@ + b@,
{
    let mut out: String = String::new();
    out.append(a);
    out.append(b);
    assert(out@ == a@ + b@);
    out
}

/// The characters of `a`, `b` and `c`, one after the other.
pub fn join3(a: &str, b: &str, c: &str) -> (r: String)
    ensures
        r@ == a@ + b@ + c@,
{
    let mut out: String = join2(a, b);
    out.append(c);
    out
}

/// A copy of part of a character slice.
pub fn sub_string(s: &[char], from: usize, to: usize) -> (r: String)
    requires
        from <= to <= s@.len(),
    ensures
        r@ == s@.subrange(from as int, to as int),
{
    string_of(vstd::slice::slice_subrange(s, from, to))
}

/// Whether `part` stands in `s` at position `at`.
pub open spec fn occurs_at(s: Seq<char>, part: Seq<char>, at: int) -> bool {
    &&& 0 <= at
    &&& at + part.len() <= s.len()
    &&& s.subrange(at, at + part.len()) == part
}

/// Whether `s` begins with `prefix`.
pub open spec fn starts_with(s: Seq<char>, prefix: Seq<char>) -> bool {
    occurs_at(s, prefix, 0)
}

/// Whether `s` ends with `suffix`.
pub open spec fn ends_with(s: Seq<char>, suffix: Seq<char>) -> bool {
    occurs_at(s, suffix, s.len() - suffix.len())
}

/// The first position from `from` on at which `part` stands in `s`.
pub open spec fn find_from(s: Seq<char>, part: Seq<char>, from: int) -> Option<int>
    decreases s.len() + 1 - from,
{
    if from + part.len() > s.len() {
        None
    } else if occurs_at(s, part, from) {
        Some(from)
    } else {
        find_from(s, part, from + 1)
    }
}

/// A place that was found is one at which the part stands.
pub proof fn lemma_find_from(s: Seq<char>, part: Seq<char>, from: int)
    ensures
        find_from(s, part, from) matches Some(i) ==> from <= i && occurs_at(s, part, i),
    decreases s.len() + 1 - from,
{
    if from + part.len() <= s.len() && !occurs_at(s, part, from) {
        lemma_find_from(s, part, from + 1);
    }
}

/// Whether `part` stands nowhere in `s`.
pub open spec fn lacks(s: Seq<char>, part: Seq<char>) -> bool {
    forall|i: int| !(#[trigger] occurs_at(s, part, i))
}

/// A part that stands nowhere is not found.
pub proof fn lemma_find_none(s: Seq<char>, part: Seq<char>, from: int)
    requires
        lacks(s, part),
    ensures
        find_from(s, part, from) is None,
    decreases s.len() + 1 - from,
{
    if from + part.len() <= s.len() {
        lemma_find_none(s, part, from + 1);
    }
}

/// A part is found behind a text if it begins nowhere before.
pub proof fn lemma_find_first(text: Seq<char>, part: Seq<char>, behind: Seq<char>, from: int)
    requires
        part.len() > 0,
        lacks(text + part.drop_last(), part),
        0 <= from <= text.len(),
    ensures
        find_from(text + part + behind, part, from) == Some(text.len() as int),
    decreases text.len() - from,
{
    let all = text + part + behind;
    if from == text.len() {
        assert(all.subrange(from, from + part.len()) =~= part);
    } else {
        if occurs_at(all, part, from) {
            let head = text + part.drop_last();
            assert(head.subrange(from, from + part.len()) =~= all.subrange(
                from,
                from + part.len(),
            ));
            assert(occurs_at(head, part, from));
        }
        lemma_find_first(text, part, behind, from + 1);
    }
}

/// A part does not reach across a character that it does not hold.
pub proof fn lemma_lacks_across(a: Seq<char>, c: char, b: Seq<char>, part: Seq<char>)
    requires
        lacks(a, part),
        lacks(b, part),
        !part.contains(c),
    ensures
        lacks(a + seq![c] + b, part),
{
    let all = a + seq![c] + b;
    assert forall|i: int| !(#[trigger] occurs_at(all, part, i)) by {
        if occurs_at(all, part, i) {
            let place = all.subrange(i, i + part.len());
            if i + part.len() <= a.len() {
                assert(a.subrange(i, i + part.len()) =~= place);
                assert(occurs_at(a, part, i));
            } else if i > a.len() {
                let j = i - a.len() - 1;
                assert(b.subrange(j, j + part.len()) =~= place);
                assert(occurs_at(b, part, j));
            } else {
                assert(place[a.len() - i] == c);
                assert(part.contains(part[a.len() - i]));
            }
        }
    }
}

/// A part is found behind a text that lacks it. Its first character must not
/// occur in it again, so that no place is found which begins within the text.
pub proof fn lemma_find_behind(text: Seq<char>, part: Seq<char>, behind: Seq<char>, from: int)
    requires
        part.len() > 0,
        forall|k: int| 0 < k < part.len() ==> #[trigger] part[k] != part.first(),
        lacks(text, part),
        0 <= from <= text.len(),
    ensures
        find_from(text + part + behind, part, from) == Some(text.len() as int),
    decreases text.len() - from,
{
    let all = text + part + behind;
    if from == text.len() {
        assert(all.subrange(from, from + part.len()) =~= part);
    } else {
        if occurs_at(all, part, from) {
            let place = all.subrange(from, from + part.len());
            if from + part.len() <= text.len() {
                assert(text.subrange(from, from + part.len()) =~= place);
                assert(occurs_at(text, part, from));
            } else {
                let k = text.len() - from;
                assert(all[text.len() as int] == part[0]);
                assert(place[k] == part[0]);
            }
        }
        lemma_find_behind(text, part, behind, from + 1);
    }
}

/// Tests whether `part` stands in `s` at `at`.
pub fn test_at(s: &[char], part: &[char], at: usize) -> (r: bool)
    ensures
        r == occurs_at(s@, part@, at as int),
{
    if at > s.len() || part.len() > s.len() - at {
        return false;
    }
    let mut i: usize = 0;
    while i < part.len()
        invariant
            at + part.len() <= s.len(),
            i <= part@.len(),
            forall|k: int| 0 <= k < i ==> s@[at + k] == part@[k],
        decreases part@.len() - i,
    {
        if s[at + i] != part[i] {
            assert(s@.subrange(at as int, at + part@.len())[i as int] != part@[i as int]);
            return false;
        }
        i += 1;
    }
    assert(s@.subrange(at as int, at + part@.len()) =~= part@);
    true
}

/// Finds the first position from `from` on at which `part` stands in `s`.
pub fn find(s: &[char], part: &[char], from: usize) -> (r: Option<usize>)
    requires
        from <= s@.len(),
    ensures
        match r {
            Some(i) => find_from(s@, part@, from as int) == Some(i as int) && occurs_at(
                s@,
                part@,
                i as int,
            ) && from <= i,
            None => find_from(s@, part@, from as int) is None,
        },
{
    let mut i: usize = from;
    while i <= s.len() && part.len() <= s.len() - i
        invariant
            from <= i <= s@.len() + 1,
            find_from(s@, part@, from as int) == find_from(s@, part@, i as int),
        decreases s@.len() + 1 - i,
    {
        if test_at(s, part, i) {
            return Some(i);
        }
        if i == s.len() {
            assert(find_from(s@, part@, i + 1) is None);
            return None;
        }
        i += 1;
    }
    None
}

/// Whether a string begins with another.
pub fn has_prefix(s: &str, prefix: &str) -> (r: bool)
    ensures
        r == starts_with(s@, prefix@),
{
    let chars: Vec<char> = chars_of(s);
    let part: Vec<char> = chars_of(prefix);
    test_at(&chars, &part, 0)
}

/// Whether a string begins with the given character.
pub fn starts_with_char(s: &str, c: char) -> (r: bool)
    ensures
        r == (s@.len() > 0 && s@[0] == c),
{
    let chars: Vec<char> = chars_of(s);
    chars.len() > 0 && chars[0] == c
}

/// Whether a string ends with the given character.
pub fn ends_with_char(s: &str, c: char) -> (r: bool)
    ensures
        r == (s@.len() > 0 && s@.last() == c),
{
    let chars: Vec<char> = chars_of(s);
    chars.len() > 0 && chars[chars.len() - 1] == c
}

/// What is left of `s` once the `c`s at its end are taken off.
pub open spec fn trim_end(s: Seq<char>, c: char) -> Seq<char>
    decreases s.len(),
{
    if s.len() > 0 && s.last() == c {
        trim_end(s.drop_last(), c)
    } else {
        s
    }
}

/// Takes the `c`s at the end of a string off.
pub fn trimmed_end(s: &str, c: char) -> (r: String)
    ensures
        r@ == trim_end(s@, c),
{
    let chars: Vec<char> = chars_of(s);
    let mut end: usize = chars.len();
    assert(chars@.take(end as int) == chars@);
    while end > 0 && chars[end - 1] == c
        invariant
            end <= chars@.len(),
            trim_end(chars@, c) == trim_end(chars@.take(end as int), c),
        decreases end,
    {
        assert(chars@.take(end as int).drop_last() == chars@.take(end - 1));
        end -= 1;
    }
    sub_string(&chars, 0, end)
}

/// What is left of `s` once the `c`s at its beginning are taken off.
pub open spec fn trim_start(s: Seq<char>, c: char) -> Seq<char>
    decreases s.len(),
{
    if s.len() > 0 && s.first() == c {
        trim_start(s.drop_first(), c)
    } else {
        s
    }
}

/// Takes the `c`s at the beginning of a string off.
pub fn trimmed_start(s: &str, c: char) -> (r: String)
    ensures
        r@ == trim_start(s@, c),
{
    let chars: Vec<char> = chars_of(s);
    let mut start: usize = 0;
    assert(chars@.skip(0) == chars@);
    while start < chars.len() && chars[start] == c
        invariant
            start <= chars@.len(),
            trim_start(chars@, c) == trim_start(chars@.skip(start as int), c),
        decreases chars@.len() - start,
    {
        assert(chars@.skip(start as int).drop_first() == chars@.skip(start + 1));
        start += 1;
    }
    assert(chars@.subrange(start as int, chars@.len() as int) == chars@.skip(start as int));
    sub_string(&chars, start, chars.len())
}

/// Takes `suffix` off the end of a string that ends with it.
pub fn without_suffix(s: &str, suffix: &str) -> (r: Option<String>)
    ensures
        match r {
            Some(rest) => ends_with(s@, suffix@) && rest@ == s@.take(s@.len() - suffix@.len()),
            None => !ends_with(s@, suffix@),
        },
{
    let chars: Vec<char> = chars_of(s);
    let part: Vec<char> = chars_of(suffix);
    if part.len() > chars.len() {
        return None;
    }
    let at: usize = chars.len() - part.len();
    if test_at(&chars, &part, at) {
        assert(chars@.subrange(0, at as int) == chars@.take(at as int));
        Some(sub_string(&chars, 0, at))
    } else {
        None
    }
}

/// The characters that Unicode gives the property `White_Space`.
pub open spec fn is_white_space(c: char) -> bool {
    ||| '\u{9}' <= c <= '\u{d}'
    ||| c == ' '
    ||| c == '\u{85}'
    ||| c == '\u{a0}'
    ||| c == '\u{1680}'
    ||| '\u{2000}' <= c <= '\u{200a}'
    ||| c == '\u{2028}'
    ||| c == '\u{2029}'
    ||| c == '\u{202f}'
    ||| c == '\u{205f}'
    ||| c == '\u{3000}'
}

/// Tests a character for the property `White_Space`.
pub fn white_space(c: char) -> (r: bool)
    ensures
        r == is_white_space(c),
{
    ('\u{9}' <= c && c <= '\u{d}') || c == ' ' || c == '\u{85}' || c == '\u{a0}' || c == '\u{1680}' || (
    '\u{2000}' <= c && c <= '\u{200a}') || c == '\u{2028}' || c == '\u{2029}' || c == '\u{202f}' || c
        == '\u{205f}' || c == '\u{3000}'
}

/// What is left of `s` once the characters that `drop` holds of are taken off
/// its beginning.
pub open spec fn trim_start_if(s: Seq<char>, drop: spec_fn(char) -> bool) -> Seq<char>
    decreases s.len(),
{
    if s.len() > 0 && drop(s.first()) {
        trim_start_if(s.drop_first(), drop)
    } else {
        s
    }
}

/// What is left of `s` once the characters that `drop` holds of are taken off
/// its end.
pub open spec fn trim_end_if(s: Seq<char>, drop: spec_fn(char) -> bool) -> Seq<char>
    decreases s.len(),
{
    if s.len() > 0 && drop(s.last()) {
        trim_end_if(s.drop_last(), drop)
    } else {
        s
    }
}

/// `s` without the white space around it.
pub open spec fn trim(s: Seq<char>) -> Seq<char> {
    trim_end_if(trim_start_if(s, |c: char| is_white_space(c)), |c: char| is_white_space(c))
}

/// Takes the white space around a string off.
pub fn trimmed(s: &str) -> (r: String)
    ensures
        r@ == trim(s@),
{
    let ghost white = |c: char| is_white_space(c);
    let chars: Vec<char> = chars_of(s);
    let mut start: usize = 0;
    assert(chars@.skip(0) == chars@);
    while start < chars.len() && white_space(chars[start])
        invariant
            start <= chars@.len(),
            white == (|c: char| is_white_space(c)),
            trim_start_if(chars@, white) == trim_start_if(chars@.skip(start as int), white),
        decreases chars@.len() - start,
    {
        assert(chars@.skip(start as int).drop_first() == chars@.skip(start + 1));
        start += 1;
    }
    let mut end: usize = chars.len();
    assert(chars@.subrange(start as int, end as int) == chars@.skip(start as int));
    while end > start && white_space(chars[end - 1])
        invariant
            start <= end <= chars@.len(),
            white == (|c: char| is_white_space(c)),
            trim_end_if(chars@.skip(start as int), white) == trim_end_if(
                chars@.subrange(start as int, end as int),
                white,
            ),
        decreases end,
    {
        assert(chars@.subrange(start as int, end as int).drop_last() == chars@.subrange(
            start as int,
            end - 1,
        ));
        end -= 1;
    }
    sub_string(&chars, start, end)
}

/// Whether a character is one of the ten digits.
pub open spec fn is_digit(c: char) -> bool {
    '0' <= c <= '9'
}

/// The number that a run of decimal digits stands for.
pub open spec fn digits_value(s: Seq<char>) -> nat
    decreases s.len(),
{
    if s.len() == 0 {
        0
    } else {
        10 * digits_value(s.drop_last()) + (s.last() as int - '0' as int) as nat
    }
}

/// Whether a text is nothing but digits.
pub open spec fn all_digits(s: Seq<char>) -> bool {
    forall|i: int| 0 <= i < s.len() ==> is_digit(#[trigger] s[i])
}

/// What follows the optional `+` at the beginning of a number.
pub open spec fn after_plus(s: Seq<char>) -> Seq<char> {
    if s.len() > 0 && s[0] == '+' {
        s.drop_first()
    } else {
        s
    }
}

/// The number that a text stands for when it is nothing but an optional `+`
/// and at least one digit, and the number fits 64 bits.
pub open spec fn parse_u64(s: Seq<char>) -> Option<u64> {
    let digits = after_plus(s);
    if digits.len() > 0 && all_digits(digits) && digits_value(digits) <= u64::MAX {
        Some(digits_value(digits) as u64)
    } else {
        None
    }
}

/// A longer run of digits never stands for a smaller number.
proof fn lemma_digits_value_grows(s: Seq<char>, n: int)
    requires
        0 <= n <= s.len(),
        all_digits(s),
    ensures
        digits_value(s.take(n)) <= digits_value(s),
    decreases s.len(),
{
    if n == s.len() {
        assert(s.take(n) == s);
    } else {
        assert(s.drop_last().take(n) == s.take(n));
        lemma_digits_value_grows(s.drop_last(), n);
    }
}

/// Reads a decimal number.
pub fn parsed_u64(s: &str) -> (r: Option<u64>)
    ensures
        r == parse_u64(s@),
{
    let chars: Vec<char> = chars_of(s);
    let start: usize = if chars.len() > 0 && chars[0] == '+' {
        1
    } else {
        0
    };
    let ghost digits = chars@.skip(start as int);
    assert(digits == after_plus(s@));
    if start == chars.len() {
        return None;
    }
    let mut value: u64 = 0;
    let mut i: usize = start;
    assert(digits.take(0) =~= Seq::<char>::empty());
    while i < chars.len()
        invariant
            start <= i <= chars@.len(),
            digits == chars@.skip(start as int),
            digits == after_plus(s@),
            forall|k: int| 0 <= k < i - start ==> is_digit(#[trigger] digits[k]),
            value == digits_value(digits.take(i - start)),
        decreases chars@.len() - i,
    {
        let c: char = chars[i];
        assert(digits[i - start] == c);
        if !('0' <= c && c <= '9') {
            assert(!is_digit(digits[i - start]));
            return None;
        }
        let digit: u64 = c as u64 - 48;
        let ghost longer = digits.take(i - start + 1);
        proof {
            assert(longer.drop_last() == digits.take(i - start));
            assert(digits_value(longer) == 10 * value + digit);
            assert(longer.last() == c);
            if all_digits(digits) {
                lemma_digits_value_grows(digits, i - start + 1);
            }
        }
        if value > 1844674407370955161 || (value == 1844674407370955161 && digit > 5) {
            return None;
        }
        value = value * 10 + digit;
        i += 1;
    }
    assert(digits.take(i - start) == digits);
    Some(value)
}

/// The decimal digits of a number, without leading zeros.
pub open spec fn decimal(n: nat) -> Seq<char>
    decreases n,
{
    if n < 10 {
        seq![(n + '0' as nat) as char]
    } else {
        decimal(n / 10).push((n % 10 + '0' as nat) as char)
    }
}

/// The character of one digit.
fn digit_char(d: u64) -> (r: char)
    requires
        d < 10,
    ensures
        r == (d + '0' as nat) as char,
{
    (48u8 + d as u8) as char
}

/// Writes a number in decimal.
pub fn decimal_of(n: u64) -> (r: String)
    ensures
        r@ == decimal(n as nat),
    decreases n,
{
    if n < 10 {
        let mut out: String = String::new();
        out.push(digit_char(n));
        assert(out@ == decimal(n as nat));
        out
    } else {
        let mut out: String = decimal_of(n / 10);
        out.push(digit_char(n % 10));
        out
    }
}

/// A run of digits stands for the sum of its digits, each ten times as much as
/// the same digit one place further to the right.
pub proof fn law_digits_value(digits: Seq<char>, c: char)
    requires
        is_digit(c),
    ensures
        digits_value(Seq::empty()) == 0,
        digits_value(digits.push(c)) == 10 * digits_value(digits) + (c as int - '0' as int),
{
    assert(digits.push(c).drop_last() =~= digits);
}

/// A number is written in digits that stand for it, without zeros in front of
/// them.
pub proof fn law_decimal(n: nat)
    ensures
        decimal(n).len() > 0,
        all_digits(decimal(n)),
        digits_value(decimal(n)) == n,
        decimal(n).len() > 1 ==> decimal(n)[0] != '0',
        n > 0 ==> decimal(n)[0] != '0',
    decreases n,
{
    if n < 10 {
        let c = (n + '0' as nat) as char;
        assert(decimal(n) =~= Seq::empty().push(c));
        law_digits_value(Seq::empty(), c);
    } else {
        law_decimal(n / 10);
        law_digits_value(decimal(n / 10), (n % 10 + '0' as nat) as char);
        assert(decimal(n)[0] == decimal(n / 10)[0]);
    }
}

/// A number that is written is read back.
pub proof fn law_number_is_read_back(n: u64)
    ensures
        parse_u64(decimal(n as nat)) == Some(n),
{
    law_decimal(n as nat);
    assert(is_digit(decimal(n as nat)[0]));
}

/// White space around a text without any at its ends is what is taken off.
pub proof fn law_trim(s: Seq<char>, before: Seq<char>, behind: Seq<char>)
    requires
        s.len() > 0 ==> !is_white_space(s.first()) && !is_white_space(s.last()),
        forall|i: int| 0 <= i < before.len() ==> is_white_space(#[trigger] before[i]),
        forall|i: int| 0 <= i < behind.len() ==> is_white_space(#[trigger] behind[i]),
    ensures
        trim(before + s + behind) == s,
    decreases before.len() + behind.len(),
{
    let white = |c: char| is_white_space(c);
    let all = before + s + behind;
    if before.len() > 0 {
        let rest = before.drop_first();
        assert(all.first() == before[0]);
        assert(all.drop_first() =~= rest + s + behind);
        assert forall|i: int| 0 <= i < rest.len() implies is_white_space(#[trigger] rest[i]) by {
            assert(rest[i] == before[i + 1]);
        }
        law_trim(s, rest, behind);
    } else if s.len() == 0 {
        assert(all =~= behind);
        if behind.len() > 0 {
            let rest = behind.drop_first();
            assert(all.first() == behind[0]);
            assert(all.drop_first() =~= before + s + rest);
            assert forall|i: int| 0 <= i < rest.len() implies is_white_space(#[trigger] rest[i]) by {
                assert(rest[i] == behind[i + 1]);
            }
            law_trim(s, before, rest);
        } else {
            assert(all =~= s);
        }
    } else {
        assert(all.first() == s.first());
        assert(trim_start_if(all, white) == all);
        if behind.len() > 0 {
            let rest = behind.drop_last();
            assert(all.last() == behind.last());
            assert(behind.last() == behind[behind.len() - 1]);
            assert(all.drop_last() =~= before + s + rest);
            law_trim(s, before, rest);
            assert((before + s + rest).first() == s.first());
            assert(trim_start_if(before + s + rest, white) == before + s + rest);
        } else {
            assert(all =~= s);
        }
    }
}

/// The characters at the end of a text that are taken off are all those that are
/// the given one.
pub proof fn law_trim_end(s: Seq<char>, c: char, n: nat)
    requires
        s.len() > 0 ==> s.last() != c,
    ensures
        trim_end(s + Seq::new(n, |i: int| c), c) == s,
    decreases n,
{
    let all = s + Seq::new(n, |i: int| c);
    if n > 0 {
        law_trim_end(s, c, (n - 1) as nat);
        assert(all.drop_last() =~= s + Seq::new((n - 1) as nat, |i: int| c));
    } else {
        assert(all =~= s);
    }
}

/// A text is read as a number exactly if it is made of digits, at least one, that
/// stand for a number of 64 bits; a plus sign may stand before them.
pub proof fn law_numbers(s: Seq<char>)
    ensures
        s.len() > 0 && all_digits(s) && digits_value(s) <= 0xffff_ffff_ffff_ffff ==> parse_u64(s)
            == Some(digits_value(s) as u64) && parse_u64(seq!['+'] + s) == Some(
            digits_value(s) as u64,
        ),
        all_digits(s) && digits_value(s) > 0xffff_ffff_ffff_ffff ==> parse_u64(s) is None
            && parse_u64(seq!['+'] + s) is None,
        s.len() == 0 ==> parse_u64(s) is None && parse_u64(seq!['+'] + s) is None,
        !all_digits(s) ==> parse_u64(seq!['+'] + s) is None,
        !all_digits(s) && s[0] != '+' ==> parse_u64(s) is None,
{
    assert((seq!['+'] + s).drop_first() =~= s);
    if s.len() > 0 && all_digits(s) {
        assert(is_digit(s[0]));
    }
}

} // verus!
