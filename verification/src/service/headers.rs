//! The headers of requests and responses.
use axum::http::header::{HeaderMap, HeaderName, HeaderValue};
use vstd::prelude::*;
use vstd::utf8::{encode_utf8, is_ascii_chars, is_ascii_chars_encode_utf8};

use crate::config::opt_text;
use crate::crypto::mix64::ascii_text;
use crate::text::{decimal, str_eq};

verus! {

/// `axum::http::HeaderMap`, the map of headers of the `http` crate. What it
/// holds is given by `header_values`.
#[verifier::external_type_specification]
#[verifier::external_body]
#[verifier::reject_recursive_types(T)]
pub struct ExHeaderMap<T>(axum::http::HeaderMap<T>);

/// `axum::http::HeaderValue`, the value of a header of the `http` crate. Only
/// its bytes are looked at.
#[verifier::external_type_specification]
#[verifier::external_body]
pub struct ExHeaderValue(axum::http::HeaderValue);

/// Headers by name, each with its values.
pub type Fields = Map<Seq<char>, Seq<Seq<u8>>>;

/// The values of each header, in the order in which they were added.
pub uninterp spec fn header_values(headers: HeaderMap<HeaderValue>) -> Fields;

/// Whether a character can stand in the name of a header, which is kept in
/// lower case.
pub open spec fn is_name_char(c: char) -> bool {
    ||| 'a' <= c <= 'z'
    ||| '0' <= c <= '9'
    ||| c == '!' || c == '"' || c == '#' || c == '$' || c == '%' || c == '&' || c == '\''
    ||| c == '*' || c == '+' || c == '-' || c == '.' || c == '^' || c == '_'
    ||| c == '`' || c == '|' || c == '~'
}

/// Whether a text is the name of a header, as it is kept.
pub open spec fn is_header_name(name: Seq<char>) -> bool {
    &&& 0 < name.len() < 0x10000
    &&& forall|i: int| 0 <= i < name.len() ==> is_name_char(#[trigger] name[i])
}

/// Whether a text is the name of a header made of letters, digits and hyphens.
pub open spec fn is_plain_name(name: Seq<char>) -> bool {
    &&& 0 < name.len() < 0x10000
    &&& forall|i: int| 0 <= i < name.len() ==> is_plain_char(#[trigger] name[i])
}

/// Whether a character is a lower-case letter, a digit or a hyphen.
pub open spec fn is_plain_char(c: char) -> bool {
    'a' <= c <= 'z' || '0' <= c <= '9' || c == '-'
}

/// Whether bytes can be the value of a header.
pub open spec fn is_header_value(value: Seq<u8>) -> bool {
    forall|i: int|
        0 <= i < value.len() ==> (#[trigger] value[i]) >= 32 && value[i] != 127 || value[i] == 9
}

/// How many names a map of headers holds at most before one is added: with
/// more of them it may be too large to grow.
pub const MAX_NAMES: usize = 6553;

/// Whether `n` more headers can be added to some headers.
pub open spec fn room_in(fields: Fields, n: nat) -> bool {
    &&& fields.dom().finite()
    &&& fields.dom().len() + n <= MAX_NAMES + 1
}

/// Whether `n` more headers can be added.
pub open spec fn has_room(headers: HeaderMap<HeaderValue>, n: nat) -> bool {
    room_in(header_values(headers), n)
}

/// Setting a header takes the room of one at most, taking one off none.
pub broadcast proof fn lemma_room_insert(fields: Fields, name: Seq<char>, values: Seq<Seq<u8>>, n: nat)
    requires
        room_in(fields, n + 1),
    ensures
        #[trigger] room_in(fields.insert(name, values), n),
{
    let names = fields.dom();
    assert(fields.insert(name, values).dom() =~= names.insert(name));
}

/// Taking a header off takes no room.
pub broadcast proof fn lemma_room_remove(fields: Fields, name: Seq<char>, n: nat)
    requires
        room_in(fields, n),
    ensures
        #[trigger] room_in(fields.remove(name), n),
{
    let names = fields.dom();
    assert(fields.remove(name).dom() =~= names.remove(name));
}

/// Whether headers have `n` different names.
pub open spec fn holds_names(headers: HeaderMap<HeaderValue>, n: nat) -> bool {
    header_values(headers).dom().finite() && header_values(headers).dom().len() == n
}

/// No headers.
pub open spec fn no_values() -> Fields {
    Map::empty()
}

/// `HeaderMap::new`: a map without headers.
#[verifier::external_body]
pub(crate) fn no_headers() -> (r: HeaderMap<HeaderValue>)
    ensures
        header_values(r) == no_values(),
{
    HeaderMap::new()
}

/// `HeaderMap::clone`: a map with the same headers.
#[verifier::external_body]
pub(crate) fn copy_of(headers: &HeaderMap<HeaderValue>) -> (r: HeaderMap<HeaderValue>)
    ensures
        header_values(r) == header_values(*headers),
{
    headers.clone()
}

/// `HeaderMap::keys_len`: how many different names the headers have.
#[verifier::external_body]
fn name_count(headers: &HeaderMap<HeaderValue>) -> (r: usize)
    ensures
        holds_names(*headers, r as nat),
{
    headers.keys_len()
}

/// `HeaderMap::get`: the first value of a header. Every value in the map is
/// one that a header can have.
#[verifier::external_body]
pub(crate) fn first_value(headers: &HeaderMap<HeaderValue>, name: &str) -> (r: Option<Vec<u8>>)
    requires
        is_plain_name(name@),
    ensures
        r is Some <==> header_values(*headers).contains_key(name@),
        r matches Some(v) ==> v@ == header_values(*headers)[name@][0] && is_header_value(v@),
{
    headers.get(name).map(|v| v.as_bytes().to_vec())
}

/// `HeaderMap::insert`: the header has the given value and no other. The map
/// panics when it cannot grow.
#[verifier::external_body]
pub(crate) fn put(headers: &mut HeaderMap<HeaderValue>, name: &str, value: &[u8])
    requires
        is_header_name(name@),
        is_header_value(value@),
        has_room(*old(headers), 1),
    ensures
        header_values(*final(headers)) == header_values(*old(headers)).insert(name@, seq![value@]),
{
    headers.insert(
        HeaderName::from_lowercase(name.as_bytes()).unwrap(),
        HeaderValue::from_bytes(value).unwrap(),
    );
}

/// `HeaderMap::remove`: the header has no values.
#[verifier::external_body]
pub(crate) fn take_off(headers: &mut HeaderMap<HeaderValue>, name: &str)
    requires
        is_plain_name(name@),
    ensures
        header_values(*final(headers)) == header_values(*old(headers)).remove(name@),
{
    headers.remove(name);
}

/// The values that a list of headers gives a name, in order.
pub open spec fn listed(items: Seq<(String, Vec<u8>)>, name: Seq<char>) -> Seq<Seq<u8>>
    decreases items.len(),
{
    if items.len() == 0 {
        Seq::empty()
    } else if items.last().0@ == name {
        listed(items.drop_last(), name).push(items.last().1@)
    } else {
        listed(items.drop_last(), name)
    }
}

/// `HeaderMap::iter`: every value with the name of its header, the values of
/// one name in the order in which they were added. Nothing is promised of the
/// order of different names.
#[verifier::external_body]
pub(crate) fn items_of(headers: &HeaderMap<HeaderValue>) -> (r: Vec<(String, Vec<u8>)>)
    ensures
        forall|name: Seq<char>|
            header_values(*headers).contains_key(name) ==> #[trigger] listed(r@, name)
                == header_values(*headers)[name] && listed(r@, name).len() > 0,
        forall|i: int|
            0 <= i < r@.len() ==> is_header_name(#[trigger] r@[i].0@) && is_header_value(r@[i].1@)
                && header_values(*headers).contains_key(r@[i].0@),
{
    headers.iter().map(|(k, v)| (k.as_str().to_string(), v.as_bytes().to_vec())).collect()
}

/// Whether a header belongs to the connection between two neighbours, or is
/// set anew for each request, so that it is not forwarded.
pub open spec fn is_hop_header(name: Seq<char>) -> bool {
    ||| name == "content-length"@
    ||| name == "transfer-encoding"@
    ||| name == "connection"@
    ||| name == "keep-alive"@
    ||| name == "te"@
    ||| name == "trailer"@
    ||| name == "upgrade"@
    ||| name == "host"@
}

/// The headers that are forwarded upstream: of each the last value.
pub open spec fn forwarded(fields: Fields) -> Fields {
    Map::new(
        |name: Seq<char>| fields.contains_key(name) && !is_hop_header(name),
        |name: Seq<char>| seq![fields[name].last()],
    )
}

/// Tests whether a header is not forwarded.
fn hop_header(name: &str) -> (r: bool)
    ensures
        r == is_hop_header(name@),
{
    str_eq(name, "content-length") || str_eq(name, "transfer-encoding") || str_eq(
        name,
        "connection",
    ) || str_eq(name, "keep-alive") || str_eq(name, "te") || str_eq(name, "trailer") || str_eq(
        name,
        "upgrade",
    ) || str_eq(name, "host")
}

/// The headers that a list, of which the first part is looked at, forwards.
spec fn forwarded_items(items: Seq<(String, Vec<u8>)>) -> Fields {
    Map::new(
        |name: Seq<char>| listed(items, name).len() > 0 && !is_hop_header(name),
        |name: Seq<char>| seq![listed(items, name).last()],
    )
}

/// A name that a list gives values is the name of an item of the list.
proof fn lemma_listed(items: Seq<(String, Vec<u8>)>, name: Seq<char>) -> (at: int)
    requires
        listed(items, name).len() > 0,
    ensures
        0 <= at < items.len(),
        items[at].0@ == name,
    decreases items.len(),
{
    if items.last().0@ == name {
        items.len() - 1
    } else {
        lemma_listed(items.drop_last(), name)
    }
}

/// Takes the headers over that are forwarded upstream.
pub fn convert_headers(src: &HeaderMap<HeaderValue>) -> (r: HeaderMap<HeaderValue>)
    requires
        has_room(*src, 1),
    ensures
        header_values(r) == forwarded(header_values(*src)),
{
    let ghost fields = header_values(*src);
    let items: Vec<(String, Vec<u8>)> = items_of(src);
    let mut dst: HeaderMap<HeaderValue> = no_headers();
    let mut i: usize = 0;
    assert(items@.take(0) =~= Seq::empty());
    assert(header_values(dst) =~= forwarded_items(items@.take(0)));
    while i < items.len()
        invariant
            i <= items@.len(),
            fields == header_values(*src),
            has_room(*src, 1),
            forall|k: int|
                0 <= k < items@.len() ==> is_header_name(#[trigger] items@[k].0@)
                    && is_header_value(items@[k].1@) && fields.contains_key(items@[k].0@),
            header_values(dst) == forwarded_items(items@.take(i as int)),
        decreases items@.len() - i,
    {
        let ghost next = items@.take(i + 1);
        let ghost here = items@[i as int];
        proof {
            assert(next.drop_last() =~= items@.take(i as int));
            assert(next.last() == here);
            let names = header_values(dst).dom();
            assert(names.subset_of(fields.dom())) by {
                assert forall|name: Seq<char>| names.contains(name) implies fields.dom().contains(
                    name,
                ) by {
                    let at = lemma_listed(items@.take(i as int), name);
                    assert(items@.take(i as int)[at] == items@[at]);
                    assert(fields.contains_key(items@[at].0@));
                }
            }
            vstd::set_lib::lemma_set_subset_finite(fields.dom(), names);
            vstd::set_lib::lemma_len_subset(names, fields.dom());
        }
        if !hop_header(&items[i].0) {
            put(&mut dst, &items[i].0, &items[i].1);
        }
        assert(header_values(dst) =~= forwarded_items(next));
        i += 1;
    }
    proof {
        assert(items@.take(i as int) =~= items@);
        assert forall|name: Seq<char>| listed(items@, name).len() > 0 <==> fields.contains_key(
            name,
        ) by {
            if listed(items@, name).len() > 0 {
                let at = lemma_listed(items@, name);
                assert(fields.contains_key(items@[at].0@));
            }
        }
        assert(header_values(dst) =~= forwarded(fields));
    }
    dst
}

/// Headers without those that give the length of the body.
pub open spec fn without_length(fields: Fields) -> Fields {
    fields.remove("content-length"@).remove("transfer-encoding"@)
}

/// Takes the headers off that give the length of the body.
pub fn strip_content_length(headers: HeaderMap<HeaderValue>) -> (r: HeaderMap<HeaderValue>)
    ensures
        header_values(r) == without_length(header_values(headers)),
{
    proof {
        lemma_names();
    }
    let mut headers: HeaderMap<HeaderValue> = headers;
    take_off(&mut headers, "content-length");
    take_off(&mut headers, "transfer-encoding");
    headers
}

/// Headers without those that make a request conditional.
pub open spec fn unconditional(fields: Fields) -> Fields {
    fields.remove("if-none-match"@).remove("if-modified-since"@).remove("if-match"@).remove(
        "if-unmodified-since"@,
    ).remove("if-range"@)
}

/// Takes the headers off that make a request conditional.
pub fn strip_conditional_headers(headers: &mut HeaderMap<HeaderValue>)
    ensures
        header_values(*final(headers)) == unconditional(header_values(*old(headers))),
{
    proof {
        lemma_names();
    }
    take_off(headers, "if-none-match");
    take_off(headers, "if-modified-since");
    take_off(headers, "if-match");
    take_off(headers, "if-unmodified-since");
    take_off(headers, "if-range");
}

/// Whether a request asks for a part of a file.
pub open spec fn asks_range(fields: Fields) -> bool {
    fields.contains_key("range"@) || fields.contains_key("if-range"@)
}

/// Tests whether a request asks for a part of a file.
pub fn has_range(headers: &HeaderMap<HeaderValue>) -> (r: bool)
    ensures
        r == asks_range(header_values(*headers)),
{
    proof {
        lemma_names();
    }
    first_value(headers, "range").is_some() || first_value(headers, "if-range").is_some()
}

/// Whether a byte is visible in ASCII, a space or a tab.
pub open spec fn is_visible(b: u8) -> bool {
    32 <= b < 127 || b == 9
}

/// The text of a value that is visible ASCII.
pub open spec fn visible_text(value: Seq<u8>) -> Option<Seq<char>> {
    if forall|i: int| 0 <= i < value.len() ==> is_visible(#[trigger] value[i]) {
        Some(ascii_text(value))
    } else {
        None
    }
}

/// The text of the first value of a header.
pub open spec fn field_text(fields: Fields, name: Seq<char>) -> Option<Seq<char>> {
    if fields.contains_key(name) {
        visible_text(fields[name][0])
    } else {
        None
    }
}

/// The text of a value.
pub fn value_text(value: &[u8]) -> (r: Option<String>)
    ensures
        opt_text(r) == visible_text(value@),
{
    let mut out: String = String::new();
    let mut i: usize = 0;
    while i < value.len()
        invariant
            i <= value@.len(),
            out@ =~= ascii_text(value@).take(i as int),
            forall|k: int| 0 <= k < i ==> is_visible(#[trigger] value@[k]),
        decreases value@.len() - i,
    {
        let b: u8 = value[i];
        if !((32 <= b && b < 127) || b == 9) {
            assert(!is_visible(value@[i as int]));
            return None;
        }
        out.push(b as char);
        i += 1;
    }
    assert(out@ =~= ascii_text(value@));
    Some(out)
}

/// The text of the first value of a header.
pub fn header_text(headers: &HeaderMap<HeaderValue>, name: &str) -> (r: Option<String>)
    requires
        is_plain_name(name@),
    ensures
        opt_text(r) == field_text(header_values(*headers), name@),
{
    match first_value(headers, name) {
        Some(value) => value_text(&value),
        None => None,
    }
}

/// Whether a text is visible ASCII.
pub open spec fn is_visible_text(text: Seq<char>) -> bool {
    forall|i: int|
        0 <= i < text.len() ==> (' ' <= #[trigger] text[i] <= '~' || text[i] == '\t')
}

/// Headers with one of them set to a text, if a header can have it as value.
pub open spec fn with_text(fields: Fields, name: Seq<char>, text: Seq<char>) -> Fields {
    if is_header_value(encode_utf8(text)) {
        fields.insert(name, seq![encode_utf8(text)])
    } else {
        fields
    }
}

/// Sets a header to a text, if a header can have it as value.
pub fn put_text(headers: &mut HeaderMap<HeaderValue>, name: &str, text: &str)
    requires
        is_plain_name(name@),
        has_room(*old(headers), 1),
    ensures
        header_values(*final(headers)) == with_text(header_values(*old(headers)), name@, text@),
{
    let bytes: &[u8] = text.as_bytes();
    let mut i: usize = 0;
    while i < bytes.len()
        invariant
            i <= bytes@.len(),
            forall|k: int|
                0 <= k < i ==> (#[trigger] bytes@[k]) >= 32 && bytes@[k] != 127 || bytes@[k] == 9,
            bytes@ == encode_utf8(text@),
            header_values(*headers) == header_values(*old(headers)),
        decreases bytes@.len() - i,
    {
        let b: u8 = bytes[i];
        if !((b >= 32 && b != 127) || b == 9) {
            assert(!is_header_value(bytes@));
            return;
        }
        i += 1;
    }
    put(headers, name, bytes);
}

/// Visible ASCII is encoded in bytes that a header can have as value.
proof fn lemma_visible(text: Seq<char>)
    requires
        is_visible_text(text),
    ensures
        is_header_value(encode_utf8(text)),
{
    assert(is_ascii_chars(text)) by {
        assert forall|i: int| 0 <= i < text.len() implies '\0' <= #[trigger] text[i] <= '\u{7f}' by {
        }
    }
    is_ascii_chars_encode_utf8(text);
    assert forall|i: int| 0 <= i < encode_utf8(text).len() implies (#[trigger] encode_utf8(text)[i])
        >= 32 && encode_utf8(text)[i] != 127 || encode_utf8(text)[i] == 9 by {
        assert(text[i] as u8 == encode_utf8(text)[i]);
    }
}

/// Headers with one of them set to a text.
pub open spec fn with_value(fields: Fields, name: Seq<char>, text: Seq<char>) -> Fields {
    fields.insert(name, seq![encode_utf8(text)])
}

/// Sets a header to a text that is visible ASCII.
pub fn set_header(headers: &mut HeaderMap<HeaderValue>, name: &str, text: &str)
    requires
        is_plain_name(name@),
        is_visible_text(text@),
        has_room(*old(headers), 1),
    ensures
        header_values(*final(headers)) == with_value(header_values(*old(headers)), name@, text@),
{
    proof {
        lemma_visible(text@);
    }
    put(headers, name, text.as_bytes());
}

/// A number is visible ASCII.
pub proof fn lemma_visible_decimal(n: nat)
    ensures
        is_visible_text(decimal(n)),
    decreases n,
{
    if n >= 10 {
        lemma_visible_decimal(n / 10);
    }
}

/// What is made of visible ASCII is visible ASCII.
pub proof fn lemma_visible_join(a: Seq<char>, b: Seq<char>)
    requires
        is_visible_text(a),
        is_visible_text(b),
    ensures
        is_visible_text(a + b),
{
    assert forall|i: int| 0 <= i < (a + b).len() implies (' ' <= #[trigger] (a + b)[i] <= '~' || (a
        + b)[i] == '\t') by {
        if i < a.len() {
            assert((a + b)[i] == a[i]);
        } else {
            assert((a + b)[i] == b[i - a.len()]);
        }
    }
}

/// The texts that the proxy sets headers to are visible ASCII.
pub proof fn lemma_texts()
    ensures
        is_visible_text("bytes=0-63"@),
        is_visible_text("bytes=0-0"@),
        is_visible_text("identity"@),
        is_visible_text("bytes"@),
        is_visible_text("bytes "@),
        is_visible_text("bytes="@),
        is_visible_text("bytes */"@),
        is_visible_text("-"@),
        is_visible_text("/"@),
        is_visible_text("Basic "@),
{
    reveal_strlit("bytes=0-63");
    reveal_strlit("bytes=0-0");
    reveal_strlit("identity");
    reveal_strlit("bytes");
    reveal_strlit("bytes ");
    reveal_strlit("bytes=");
    reveal_strlit("bytes */");
    reveal_strlit("-");
    reveal_strlit("/");
    reveal_strlit("Basic ");
}

/// The names that the proxy looks at are names of headers.
pub proof fn lemma_names()
    ensures
        is_plain_name("content-length"@),
        is_plain_name("transfer-encoding"@),
        is_plain_name("if-none-match"@),
        is_plain_name("if-modified-since"@),
        is_plain_name("if-match"@),
        is_plain_name("if-unmodified-since"@),
        is_plain_name("if-range"@),
        is_plain_name("range"@),
        is_plain_name("accept-encoding"@),
        is_plain_name("accept-ranges"@),
        is_plain_name("content-range"@),
        is_plain_name("content-type"@),
        is_plain_name("destination"@),
        is_plain_name("authorization"@),
{
    reveal_strlit("content-length");
    reveal_strlit("transfer-encoding");
    reveal_strlit("if-none-match");
    reveal_strlit("if-modified-since");
    reveal_strlit("if-match");
    reveal_strlit("if-unmodified-since");
    reveal_strlit("if-range");
    reveal_strlit("range");
    reveal_strlit("accept-encoding");
    reveal_strlit("accept-ranges");
    reveal_strlit("content-range");
    reveal_strlit("content-type");
    reveal_strlit("destination");
    reveal_strlit("authorization");
}

/// Tests whether `n` more headers can be added.
pub fn header_room(headers: &HeaderMap<HeaderValue>, n: usize) -> (r: bool)
    ensures
        r == has_room(*headers, n as nat),
{
    let count: usize = name_count(headers);
    count <= MAX_NAMES + 1 && n <= MAX_NAMES + 1 - count
}

/// The names of the headers that make a request conditional.
pub open spec fn condition_names() -> Set<Seq<char>> {
    set![
        "if-none-match"@,
        "if-modified-since"@,
        "if-match"@,
        "if-unmodified-since"@,
        "if-range"@,
    ]
}

/// The names of the headers that belong to the connection between two
/// neighbours, or are set anew for each request.
pub open spec fn connection_names() -> Set<Seq<char>> {
    set![
        "content-length"@,
        "transfer-encoding"@,
        "connection"@,
        "keep-alive"@,
        "te"@,
        "trailer"@,
        "upgrade"@,
        "host"@,
    ]
}

/// How long the names of headers are, and what they begin with. It tells them
/// apart.
pub proof fn lemma_name_shapes()
    ensures
        "content-length"@.len() == 14 && "content-length"@[0] == 'c',
        "transfer-encoding"@.len() == 17 && "transfer-encoding"@[0] == 't',
        "connection"@.len() == 10 && "connection"@[0] == 'c',
        "keep-alive"@.len() == 10 && "keep-alive"@[0] == 'k',
        "te"@.len() == 2,
        "trailer"@.len() == 7 && "trailer"@[0] == 't',
        "upgrade"@.len() == 7 && "upgrade"@[0] == 'u',
        "host"@.len() == 4,
        "if-none-match"@.len() == 13 && "if-none-match"@[0] == 'i',
        "if-modified-since"@.len() == 17 && "if-modified-since"@[0] == 'i',
        "if-match"@.len() == 8 && "if-match"@[3] == 'm',
        "if-unmodified-since"@.len() == 19,
        "if-range"@.len() == 8 && "if-range"@[3] == 'r',
        "range"@.len() == 5,
        "accept-encoding"@.len() == 15,
        "accept-ranges"@.len() == 13 && "accept-ranges"@[1] == 'c' && "accept-ranges"@[0] == 'a',
        "content-range"@.len() == 13 && "content-range"@[0] == 'c' && "content-range"@[1] == 'o',
        "content-type"@.len() == 12,
        "destination"@.len() == 11,
        "authorization"@.len() == 13 && "authorization"@[1] == 'u' && "authorization"@[0] == 'a',
        "if-none-match"@[1] == 'f',
{
    reveal_strlit("content-length");
    reveal_strlit("transfer-encoding");
    reveal_strlit("connection");
    reveal_strlit("keep-alive");
    reveal_strlit("te");
    reveal_strlit("trailer");
    reveal_strlit("upgrade");
    reveal_strlit("host");
    reveal_strlit("if-none-match");
    reveal_strlit("if-modified-since");
    reveal_strlit("if-match");
    reveal_strlit("if-unmodified-since");
    reveal_strlit("if-range");
    reveal_strlit("range");
    reveal_strlit("accept-encoding");
    reveal_strlit("accept-ranges");
    reveal_strlit("content-range");
    reveal_strlit("content-type");
    reveal_strlit("destination");
    reveal_strlit("authorization");
}

/// Whether headers have one header exactly as it is passed on: with the last of
/// its values, and only if it is among the given ones.
pub open spec fn passes_on(headers: Fields, fields: Fields, name: Seq<char>) -> bool {
    &&& headers.contains_key(name) <==> fields.contains_key(name)
    &&& fields.contains_key(name) ==> headers[name] == seq![fields[name].last()]
}

/// Every header is forwarded with its last value, but for those that belong to
/// the connection: they are not.
pub proof fn law_forwarded(fields: Fields, name: Seq<char>)
    ensures
        connection_names().contains(name) ==> !forwarded(fields).contains_key(name),
        !connection_names().contains(name) ==> passes_on(forwarded(fields), fields, name),
{
}

/// A request that is made unconditional has none of the headers that make it
/// conditional, and every other one as it was.
pub proof fn law_unconditional(fields: Fields, name: Seq<char>)
    ensures
        unconditional(fields).contains_key(name) <==> fields.contains_key(name)
            && !condition_names().contains(name),
        unconditional(fields).contains_key(name) ==> unconditional(fields)[name] == fields[name],
{
}

/// A response loses the two headers that give its length, and no other one.
pub proof fn law_without_length(fields: Fields, name: Seq<char>)
    ensures
        without_length(fields).contains_key(name) <==> fields.contains_key(name) && name
            != "content-length"@ && name != "transfer-encoding"@,
        without_length(fields).contains_key(name) ==> without_length(fields)[name] == fields[name],
{
}

/// A request asks for a part of a file exactly if it has one of the two headers
/// for that.
pub proof fn law_asks_range(fields: Fields)
    ensures
        asks_range(fields) <==> (exists|name: Seq<char>| #[trigger]
            fields.contains_key(name) && (name == "range"@ || name == "if-range"@)),
{
}

/// A header that is set to a text has that text as its only value, which can be
/// read back, and no other header changes.
pub proof fn law_set_header(fields: Fields, name: Seq<char>, text: Seq<char>, other: Seq<char>)
    requires
        is_visible_text(text),
    ensures
        with_value(fields, name, text) == fields.insert(name, seq![encode_utf8(text)]),
        with_text(fields, name, text) == fields.insert(name, seq![encode_utf8(text)]),
        field_text(with_value(fields, name, text), name) == Some(text),
        other != name ==> field_text(with_value(fields, name, text), other) == field_text(
            fields,
            other,
        ),
{
    law_visible_value(text);
    lemma_visible(text);
}

/// The text of a value of visible ASCII is the text that it encodes.
pub proof fn law_visible_value(text: Seq<char>)
    requires
        is_visible_text(text),
    ensures
        visible_text(encode_utf8(text)) == Some(text),
{
    assert(is_ascii_chars(text)) by {
        assert forall|i: int| 0 <= i < text.len() implies '\0' <= #[trigger] text[i] <= '\u{7f}' by {
        }
    }
    is_ascii_chars_encode_utf8(text);
    let value = encode_utf8(text);
    assert forall|i: int| 0 <= i < value.len() implies is_visible(#[trigger] value[i]) by {
        assert(text[i] as u8 == value[i]);
    }
    assert forall|i: int| 0 <= i < text.len() implies #[trigger] ascii_text(value)[i] == text[i] by {
        assert(text[i] as u8 == value[i]);
    }
    assert(ascii_text(value) =~= text);
}

/// A value with a byte that is not visible in ASCII has no text.
pub proof fn law_hidden_value(value: Seq<u8>, at: int)
    requires
        0 <= at < value.len(),
        value[at] < 32 && value[at] != 9 || value[at] >= 127,
    ensures
        visible_text(value) is None,
{
    assert(!is_visible(value[at]));
}

/// A header is set to a text unless a byte of it cannot stand in a header: a
/// control character other than the tab.
pub proof fn law_text_in_header(fields: Fields, name: Seq<char>, text: Seq<char>)
    ensures
        (forall|i: int|
            0 <= i < encode_utf8(text).len() ==> (#[trigger] encode_utf8(text)[i]) >= 32
                && encode_utf8(text)[i] != 127 || encode_utf8(text)[i] == 9) ==> with_text(
            fields,
            name,
            text,
        ) == fields.insert(name, seq![encode_utf8(text)]),
        (exists|i: int|
            0 <= i < encode_utf8(text).len() && ((#[trigger] encode_utf8(text)[i]) < 32
                && encode_utf8(text)[i] != 9 || encode_utf8(text)[i] == 127)) ==> with_text(
            fields,
            name,
            text,
        ) == fields,
{
}

} // verus!
