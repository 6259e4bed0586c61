//! The requests that the proxy sends upstream, and the headers of its answers.
use axum::http::header::{HeaderMap, HeaderValue};
use vstd::prelude::*;
use vstd::utf8::encode_utf8;

use crate::crypto::model::opt_bytes;
use crate::service::headers::{
    condition_names, connection_names, convert_headers, copy_of, forwarded, has_room,
    header_values, is_visible_text, is_header_value, lemma_name_shapes, lemma_visible_decimal,
    lemma_visible_join, lemma_names, lemma_room_insert, lemma_room_remove, lemma_texts, no_headers,
    no_values, passes_on, put, room_in, set_header, strip_conditional_headers,
    strip_content_length, take_off, unconditional, with_value, without_length, Fields,
};
use crate::service::proxy::{Request, RequestView};
use crate::text::{decimal, decimal_of, join2, join3};

verus! {

broadcast use {lemma_room_insert, lemma_room_remove};

/// Headers that ask for contents as they are stored.
pub open spec fn as_stored(fields: Fields) -> Fields {
    with_value(unconditional(fields), "accept-encoding"@, "identity"@)
}

/// The text of a range of bytes in a request.
pub open spec fn range_text(from: nat, to: nat) -> Seq<char> {
    "bytes="@ + decimal(from) + "-"@ + decimal(to)
}

/// The text of a part in an answer.
pub open spec fn part_text(start: nat, end: nat, file_len: nat) -> Seq<char> {
    "bytes "@ + decimal(start) + "-"@ + decimal(end) + "/"@ + decimal(file_len)
}

/// The text that announces the length of a file without a part of it.
pub open spec fn no_part_text(file_len: nat) -> Seq<char> {
    "bytes */"@ + decimal(file_len)
}

/// A request that only forwards what the client asks.
pub open spec fn plain_request(method: Seq<char>, url: Seq<char>, fields: Fields) -> RequestView {
    RequestView { method, url, headers: forwarded(fields) }
}

/// The request for the header of a file.
pub open spec fn probe_request(url: Seq<char>, fields: Fields) -> RequestView {
    RequestView {
        method: "GET"@,
        url,
        headers: forwarded(
            with_value(
                with_value(unconditional(fields), "range"@, "bytes=0-63"@),
                "accept-encoding"@,
                "identity"@,
            ),
        ),
    }
}

/// Headers that ask for the length of a file as it is stored.
pub open spec fn length_fields(fields: Fields) -> Fields {
    with_value(unconditional(fields).remove("range"@), "accept-encoding"@, "identity"@)
}

/// The request for the length of a file.
pub open spec fn length_request(url: Seq<char>, fields: Fields) -> RequestView {
    RequestView { method: "HEAD"@, url, headers: forwarded(length_fields(fields)) }
}

/// The request for the length of a file when the first one was of no use.
pub open spec fn first_byte_request(url: Seq<char>, fields: Fields) -> RequestView {
    RequestView {
        method: "GET"@,
        url,
        headers: with_value(forwarded(length_fields(fields)), "range"@, "bytes=0-0"@),
    }
}

/// The request for a whole file.
pub open spec fn whole_request(url: Seq<char>, fields: Fields) -> RequestView {
    RequestView {
        method: "GET"@,
        url,
        headers: forwarded(as_stored(fields).remove("range"@).remove("if-range"@)),
    }
}

/// The request for a part of a file.
pub open spec fn part_request(url: Seq<char>, fields: Fields, from: nat, to: nat) -> RequestView {
    RequestView {
        method: "GET"@,
        url,
        headers: forwarded(with_value(as_stored(fields), "range"@, range_text(from, to))),
    }
}

/// The request for the headers of a file.
pub open spec fn head_request(url: Seq<char>, fields: Fields) -> RequestView {
    RequestView {
        method: "HEAD"@,
        url,
        headers: forwarded(unconditional(fields).remove("range"@)),
    }
}

/// The text of a range is visible ASCII.
proof fn lemma_range_text(from: nat, to: nat)
    ensures
        is_visible_text(range_text(from, to)),
{
    lemma_texts();
    lemma_visible_decimal(from);
    lemma_visible_decimal(to);
    lemma_visible_join("bytes="@, decimal(from));
    lemma_visible_join("bytes="@ + decimal(from), "-"@);
    lemma_visible_join("bytes="@ + decimal(from) + "-"@, decimal(to));
}

/// The text of a part is visible ASCII.
proof fn lemma_part_text(start: nat, end: nat, file_len: nat)
    ensures
        is_visible_text(part_text(start, end, file_len)),
        is_visible_text(no_part_text(file_len)),
{
    lemma_texts();
    lemma_visible_decimal(start);
    lemma_visible_decimal(end);
    lemma_visible_decimal(file_len);
    let a = "bytes "@ + decimal(start);
    lemma_visible_join("bytes "@, decimal(start));
    lemma_visible_join(a, "-"@);
    lemma_visible_join(a + "-"@, decimal(end));
    lemma_visible_join(a + "-"@ + decimal(end), "/"@);
    lemma_visible_join(a + "-"@ + decimal(end) + "/"@, decimal(file_len));
    lemma_visible_join("bytes */"@, decimal(file_len));
}

/// Forwarding takes no room.
proof fn lemma_room_forwarded(fields: Fields, n: nat)
    requires
        room_in(fields, n),
    ensures
        room_in(forwarded(fields), n),
{
    let names = forwarded(fields).dom();
    assert(names.subset_of(fields.dom()));
    vstd::set_lib::lemma_set_subset_finite(fields.dom(), names);
    vstd::set_lib::lemma_len_subset(names, fields.dom());
}

/// A request that only forwards what the client asks.
pub fn forward(method: &str, url: &str, headers: &HeaderMap<HeaderValue>) -> (r: Request)
    requires
        has_room(*headers, 1),
    ensures
        r@ == plain_request(method@, url@, header_values(*headers)),
{
    Request {
        method: method.to_string(),
        url: url.to_string(),
        headers: convert_headers(headers),
    }
}

/// The request for the header of a file.
pub fn ask_header(url: &str, headers: &HeaderMap<HeaderValue>) -> (r: Request)
    requires
        has_room(*headers, 3),
    ensures
        r@ == probe_request(url@, header_values(*headers)),
{
    proof {
        lemma_names();
        lemma_texts();
    }
    let mut h: HeaderMap<HeaderValue> = copy_of(headers);
    strip_conditional_headers(&mut h);
    set_header(&mut h, "range", "bytes=0-63");
    set_header(&mut h, "accept-encoding", "identity");
    forward("GET", url, &h)
}

/// The request for the length of a file.
pub fn ask_length(url: &str, headers: &HeaderMap<HeaderValue>) -> (r: Request)
    requires
        has_room(*headers, 3),
    ensures
        r@ == length_request(url@, header_values(*headers)),
{
    proof {
        lemma_names();
        lemma_texts();
    }
    let mut h: HeaderMap<HeaderValue> = copy_of(headers);
    strip_conditional_headers(&mut h);
    take_off(&mut h, "range");
    set_header(&mut h, "accept-encoding", "identity");
    forward("HEAD", url, &h)
}

/// The request for the length of a file when the first one was of no use.
pub fn ask_first_byte(url: &str, headers: &HeaderMap<HeaderValue>) -> (r: Request)
    requires
        has_room(*headers, 3),
    ensures
        r@ == first_byte_request(url@, header_values(*headers)),
{
    proof {
        lemma_names();
        lemma_texts();
    }
    let mut h: HeaderMap<HeaderValue> = copy_of(headers);
    strip_conditional_headers(&mut h);
    take_off(&mut h, "range");
    set_header(&mut h, "accept-encoding", "identity");
    let mut request: Request = forward("GET", url, &h);
    proof {
        lemma_room_forwarded(header_values(h), 1);
    }
    set_header(&mut request.headers, "range", "bytes=0-0");
    request
}

/// The request for a whole file.
pub fn ask_whole(url: &str, headers: &HeaderMap<HeaderValue>) -> (r: Request)
    requires
        has_room(*headers, 3),
    ensures
        r@ == whole_request(url@, header_values(*headers)),
{
    proof {
        lemma_names();
        lemma_texts();
    }
    let mut h: HeaderMap<HeaderValue> = copy_of(headers);
    strip_conditional_headers(&mut h);
    set_header(&mut h, "accept-encoding", "identity");
    take_off(&mut h, "range");
    take_off(&mut h, "if-range");
    forward("GET", url, &h)
}

/// The request for a part of a file.
pub fn ask_part(url: &str, headers: &HeaderMap<HeaderValue>, from: u64, to: u64) -> (r: Request)
    requires
        has_room(*headers, 3),
    ensures
        r@ == part_request(url@, header_values(*headers), from as nat, to as nat),
{
    proof {
        lemma_names();
        lemma_texts();
        lemma_range_text(from as nat, to as nat);
    }
    let mut h: HeaderMap<HeaderValue> = copy_of(headers);
    strip_conditional_headers(&mut h);
    set_header(&mut h, "accept-encoding", "identity");
    let range: String = join3(&join2("bytes=", &decimal_of(from)), "-", &decimal_of(to));
    set_header(&mut h, "range", &range);
    forward("GET", url, &h)
}

/// The request for the headers of a file.
pub fn ask_head(url: &str, headers: &HeaderMap<HeaderValue>) -> (r: Request)
    requires
        has_room(*headers, 3),
    ensures
        r@ == head_request(url@, header_values(*headers)),
{
    proof {
        lemma_names();
    }
    let mut h: HeaderMap<HeaderValue> = copy_of(headers);
    strip_conditional_headers(&mut h);
    take_off(&mut h, "range");
    forward("HEAD", url, &h)
}

/// The headers of a whole file whose length is known.
pub open spec fn whole_fields(fields: Fields, plain_len: Option<u64>) -> Fields {
    match plain_len {
        Some(len) => with_value(
            with_value(without_length(fields), "content-length"@, decimal(len as nat)),
            "accept-ranges"@,
            "bytes"@,
        ),
        None => without_length(fields),
    }
}

/// Headers with an optional type of the contents.
pub open spec fn with_type(fields: Fields, content_type: Option<Seq<u8>>) -> Fields {
    match content_type {
        Some(value) => fields.insert("content-type"@, seq![value]),
        None => fields,
    }
}

/// The headers of a part of a file.
pub open spec fn part_fields(
    start: nat,
    end: nat,
    file_len: nat,
    content_type: Option<Seq<u8>>,
) -> Fields {
    with_type(
        with_value(
            with_value(
                with_value(no_values(), "content-range"@, part_text(start, end, file_len)),
                "content-length"@,
                decimal((end - start + 1) as nat),
            ),
            "accept-ranges"@,
            "bytes"@,
        ),
        content_type,
    )
}

/// The headers that say that a part is not in a file.
pub open spec fn no_part_fields(file_len: nat) -> Fields {
    with_value(no_values(), "content-range"@, no_part_text(file_len))
}

/// The headers of a file that is not sent.
pub open spec fn head_fields(file_len: nat, content_type: Option<Seq<u8>>) -> Fields {
    with_value(
        with_value(with_type(no_values(), content_type), "content-length"@, decimal(file_len)),
        "accept-ranges"@,
        "bytes"@,
    )
}

/// The headers of a whole file whose length is known.
pub fn whole_headers(headers: HeaderMap<HeaderValue>, plain_len: Option<u64>) -> (r: HeaderMap<
    HeaderValue,
>)
    requires
        has_room(headers, 2),
    ensures
        header_values(r) == whole_fields(header_values(headers), plain_len),
{
    proof {
        lemma_names();
        lemma_texts();
    }
    let mut h: HeaderMap<HeaderValue> = strip_content_length(headers);
    if let Some(len) = plain_len {
        proof {
            lemma_visible_decimal(len as nat);
        }
        set_header(&mut h, "content-length", &decimal_of(len));
        set_header(&mut h, "accept-ranges", "bytes");
    }
    h
}

/// Sets the type of the contents, if there is one.
fn set_type(headers: &mut HeaderMap<HeaderValue>, content_type: &Option<Vec<u8>>)
    requires
        has_room(*old(headers), 1),
        content_type matches Some(v) ==> is_header_value(v@),
    ensures
        header_values(*final(headers)) == with_type(
            header_values(*old(headers)),
            opt_bytes(*content_type),
        ),
{
    proof {
        lemma_names();
    }
    if let Some(value) = content_type {
        put(headers, "content-type", value);
    }
}

/// The headers of a part of a file.
pub fn part_headers(start: u64, end: u64, file_len: u64, content_type: &Option<Vec<u8>>) -> (r:
    HeaderMap<HeaderValue>)
    requires
        start <= end < file_len,
        content_type matches Some(v) ==> is_header_value(v@),
    ensures
        header_values(r) == part_fields(
            start as nat,
            end as nat,
            file_len as nat,
            opt_bytes(*content_type),
        ),
{
    proof {
        lemma_names();
        lemma_texts();
        lemma_part_text(start as nat, end as nat, file_len as nat);
        lemma_visible_decimal((end - start + 1) as nat);
    }
    let mut h: HeaderMap<HeaderValue> = no_headers();
    let first: String = join3(&join2("bytes ", &decimal_of(start)), "-", &decimal_of(end));
    let part: String = join3(&first, "/", &decimal_of(file_len));
    set_header(&mut h, "content-range", &part);
    set_header(&mut h, "content-length", &decimal_of(end - start + 1));
    set_header(&mut h, "accept-ranges", "bytes");
    set_type(&mut h, content_type);
    h
}

/// The headers that say that a part is not in a file.
pub fn no_part_headers(file_len: u64) -> (r: HeaderMap<HeaderValue>)
    ensures
        header_values(r) == no_part_fields(file_len as nat),
{
    proof {
        lemma_names();
        lemma_part_text(0, 0, file_len as nat);
    }
    let mut h: HeaderMap<HeaderValue> = no_headers();
    set_header(&mut h, "content-range", &join2("bytes */", &decimal_of(file_len)));
    h
}

/// The headers of a file that is not sent.
pub fn head_headers(file_len: u64, content_type: &Option<Vec<u8>>) -> (r: HeaderMap<HeaderValue>)
    requires
        content_type matches Some(v) ==> is_header_value(v@),
    ensures
        header_values(r) == head_fields(file_len as nat, opt_bytes(*content_type)),
{
    proof {
        lemma_names();
        lemma_texts();
        lemma_visible_decimal(file_len as nat);
    }
    let mut h: HeaderMap<HeaderValue> = no_headers();
    set_type(&mut h, content_type);
    set_header(&mut h, "content-length", &decimal_of(file_len));
    set_header(&mut h, "accept-ranges", "bytes");
    h
}

/// Whether headers have one header with one value, the given text.
pub open spec fn says(headers: Fields, name: Seq<char>, text: Seq<char>) -> bool {
    headers.contains_key(name) && headers[name] == seq![encode_utf8(text)]
}

/// Whether a request passes all headers of the client's request on, each with
/// its last value, and none of those that belong to the connection.
pub open spec fn is_passed_on(request: RequestView, fields: Fields) -> bool {
    forall|name: Seq<char>|
        if connection_names().contains(name) {
            !(#[trigger] request.headers.contains_key(name))
        } else {
            passes_on(request.headers, fields, name)
        }
}

/// Whether a request asks for a file as it is stored, on behalf of a client: it
/// is unconditional, it wants no encoding, and it passes every other header of
/// the client's request on, except the one for the range.
pub open spec fn asks_as_stored(request: RequestView, fields: Fields) -> bool {
    &&& says(request.headers, "accept-encoding"@, "identity"@)
    &&& forall|name: Seq<char>|
        if connection_names().contains(name) || condition_names().contains(name) {
            !(#[trigger] request.headers.contains_key(name))
        } else {
            name != "range"@ && name != "accept-encoding"@ ==> passes_on(
                request.headers,
                fields,
                name,
            )
        }
}

/// A request that is only forwarded has the method, the address and the headers
/// of the client's request.
pub proof fn law_plain_request(method: Seq<char>, url: Seq<char>, fields: Fields)
    ensures
        plain_request(method, url, fields).method == method,
        plain_request(method, url, fields).url == url,
        is_passed_on(plain_request(method, url, fields), fields),
{
}

/// Whatever is asked for of a file goes to its address, asks for the file as it
/// is stored, and says by its method and its range what is wanted: the first 64
/// bytes, the length, the first byte, the whole file, or a part of it.
pub proof fn law_file_requests(url: Seq<char>, fields: Fields, from: nat, to: nat)
    ensures
        ({
            let probe = probe_request(url, fields);
            let length = length_request(url, fields);
            let first = first_byte_request(url, fields);
            let whole = whole_request(url, fields);
            let part = part_request(url, fields, from, to);
            &&& probe.url == url && length.url == url && first.url == url && whole.url == url
            &&& part.url == url
            &&& probe.method == "GET"@ && first.method == "GET"@ && whole.method == "GET"@
            &&& part.method == "GET"@ && length.method == "HEAD"@
            &&& asks_as_stored(probe, fields) && asks_as_stored(length, fields)
            &&& asks_as_stored(first, fields) && asks_as_stored(whole, fields)
            &&& asks_as_stored(part, fields)
            &&& says(probe.headers, "range"@, "bytes="@ + decimal(0) + "-"@ + decimal(63))
            &&& says(first.headers, "range"@, "bytes="@ + decimal(0) + "-"@ + decimal(0))
            &&& says(part.headers, "range"@, "bytes="@ + decimal(from) + "-"@ + decimal(to))
            &&& !length.headers.contains_key("range"@) && !whole.headers.contains_key("range"@)
        }),
{
    lemma_name_shapes();
    reveal_strlit("bytes=");
    reveal_strlit("-");
    reveal_strlit("bytes=0-63");
    reveal_strlit("bytes=0-0");
    reveal_with_fuel(decimal, 2);
    assert("bytes="@ + decimal(0) + "-"@ + decimal(63) =~= "bytes=0-63"@);
    assert("bytes="@ + decimal(0) + "-"@ + decimal(0) =~= "bytes=0-0"@);
}

/// The headers of a file are asked for at its address, unconditionally and for
/// the whole of it, and every other header of the client's request is passed on.
pub proof fn law_head_request(url: Seq<char>, fields: Fields, name: Seq<char>)
    ensures
        ({
            let head = head_request(url, fields);
            &&& head.url == url
            &&& head.method == "HEAD"@
            &&& if connection_names().contains(name) || condition_names().contains(name) || name
                == "range"@ {
                !head.headers.contains_key(name)
            } else {
                passes_on(head.headers, fields, name)
            }
        }),
{
    lemma_name_shapes();
}

/// The answer with a whole file whose length is known says the length, and that
/// parts can be had; of one whose length is not known it says neither. Every
/// other header is that of the response.
pub proof fn law_whole_headers(fields: Fields, len: u64, name: Seq<char>)
    ensures
        says(whole_fields(fields, Some(len)), "content-length"@, decimal(len as nat)),
        says(whole_fields(fields, Some(len)), "accept-ranges"@, "bytes"@),
        !whole_fields(fields, None).contains_key("content-length"@),
        !whole_fields(fields, Some(len)).contains_key("transfer-encoding"@),
        !whole_fields(fields, None).contains_key("transfer-encoding"@),
        name != "content-length"@ && name != "transfer-encoding"@ ==> {
            &&& whole_fields(fields, None).contains_key(name) <==> fields.contains_key(name)
            &&& fields.contains_key(name) ==> whole_fields(fields, None)[name] == fields[name]
            &&& name != "accept-ranges"@ ==> (whole_fields(fields, Some(len)).contains_key(name)
                <==> fields.contains_key(name))
            &&& name != "accept-ranges"@ && fields.contains_key(name) ==> whole_fields(
                fields,
                Some(len),
            )[name] == fields[name]
        },
{
    lemma_name_shapes();
}

/// The answer with a part says which bytes of how many they are, how many there
/// are, that parts can be had, and the type of the contents if it is known. It
/// says nothing else.
pub proof fn law_part_headers(
    start: nat,
    end: nat,
    file_len: nat,
    content_type: Option<Seq<u8>>,
    name: Seq<char>,
)
    requires
        start <= end,
    ensures
        ({
            let h = part_fields(start, end, file_len, content_type);
            &&& says(
                h,
                "content-range"@,
                "bytes "@ + decimal(start) + "-"@ + decimal(end) + "/"@ + decimal(file_len),
            )
            &&& says(h, "content-length"@, decimal((end - start + 1) as nat))
            &&& says(h, "accept-ranges"@, "bytes"@)
            &&& content_type matches Some(value) ==> h.contains_key("content-type"@)
                && h["content-type"@] == seq![value]
            &&& content_type is None ==> !h.contains_key("content-type"@)
            &&& h.contains_key(name) ==> name == "content-range"@ || name == "content-length"@
                || name == "accept-ranges"@ || name == "content-type"@
        }),
{
    lemma_name_shapes();
}

/// The answer for a part that is not in a file says how long the file is, and
/// nothing else.
pub proof fn law_no_part_headers(file_len: nat, name: Seq<char>)
    ensures
        says(no_part_fields(file_len), "content-range"@, "bytes */"@ + decimal(file_len)),
        no_part_fields(file_len).contains_key(name) ==> name == "content-range"@,
{
}

/// The answer for a file that is not sent says how long it is, that parts can be
/// had, and the type of the contents if it is known. It says nothing else.
pub proof fn law_head_headers(file_len: nat, content_type: Option<Seq<u8>>, name: Seq<char>)
    ensures
        ({
            let h = head_fields(file_len, content_type);
            &&& says(h, "content-length"@, decimal(file_len))
            &&& says(h, "accept-ranges"@, "bytes"@)
            &&& content_type matches Some(value) ==> h.contains_key("content-type"@)
                && h["content-type"@] == seq![value]
            &&& content_type is None ==> !h.contains_key("content-type"@)
            &&& h.contains_key(name) ==> name == "content-length"@ || name == "accept-ranges"@
                || name == "content-type"@
        }),
{
    lemma_name_shapes();
}

} // verus!
