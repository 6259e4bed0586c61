//! What a client gets of a file when the upstream server is honest: the whole
//! exchange, from the first request to the answer.
use vstd::prelude::*;
use vstd::utf8::encode_utf8;

use crate::crypto::model::{cipher_offset, law_plaintext_len, plaintext_len, BLOCK_SIZE};
use crate::crypto::{law_algorithms, CipherKind, EncType, CYPTO_META_SIZE};
use crate::errors::ErrorView;
use crate::service::cipher_engine::{
    cipher_of_file, is_encrypted_file, law_file_range, law_file_round_trip,
};
use crate::service::download::{
    announced, hands_on, is_truthful, law_download_is_right, lemma_probed, part_end, probed,
    questions_left, request_label, type_of, FileContext, StageView, StepView,
};
use crate::service::flow::cipher_end;
use crate::service::head::{head_label, head_questions_left, HeadStageView, HeadStepView};
use crate::service::headers::{
    asks_range, is_visible_text, law_visible_value, lemma_name_shapes, lemma_texts,
    lemma_visible_decimal, lemma_visible_join, Fields,
};
use crate::service::proxy::{BodyView, Record, ReplyView, RequestView, ResponseView};
use crate::service::ranges::{
    law_no_total, law_range_is_read_back, law_resolved_range, law_total_is_read_back, length_of,
    range_of, range_value, resolvable, resolved, total_of, RangeReq,
};
use crate::service::requests::{
    asks_as_stored, first_byte_request, head_request, is_passed_on, law_file_requests,
    law_head_headers, law_head_request, law_no_part_headers, law_part_headers, law_plain_request,
    law_whole_headers, length_request, part_request, plain_request, probe_request, says,
    whole_request,
};
use crate::text::{decimal, law_number_is_read_back};

verus! {

/// An upstream server: its response to each request.
pub type Server = spec_fn(RequestView) -> ResponseView;

/// Whether a request asks for the bytes from one on up to another one.
pub open spec fn asks_bytes(request: RequestView, first: nat, last: nat) -> bool {
    says(request.headers, "range"@, "bytes="@ + decimal(first) + "-"@ + decimal(last))
}

/// Whether a request asks, on behalf of a client, for a file as it is stored at
/// an address.
pub open spec fn is_for(request: RequestView, url: Seq<char>, fields: Fields) -> bool {
    request.url == url && asks_as_stored(request, fields)
}

/// Whether a header that says which part of a file a response holds is right
/// about the length of the file, or leaves it open.
pub open spec fn total_is_right(headers: Fields, len: nat) -> bool {
    headers.contains_key("content-range"@) ==> exists|before: Seq<char>| #[trigger]
        is_visible_text(before) && {
            ||| headers["content-range"@] == seq![encode_utf8(before + "/"@ + decimal(len))]
            ||| headers["content-range"@] == seq![encode_utf8(before + "/*"@)]
        }
}

/// Whether a response holds the bytes of a file from one on up to another one,
/// or the whole file because the server knows no parts.
pub open spec fn is_part(resp: ResponseView, file: Seq<u8>, first: nat, last: nat) -> bool {
    ||| {
        &&& resp.status == 206
        &&& resp.body == file.subrange(
            first as int,
            if last < file.len() {
                last as int + 1
            } else {
                file.len() as int
            },
        )
        &&& total_is_right(resp.headers, file.len())
    }
    ||| {
        &&& resp.status == 200
        &&& resp.body == file
        &&& !resp.headers.contains_key("content-range"@)
    }
}

/// Whether a server has a file at an address: for requests on behalf of a client
/// that ask for it as it is stored, it gives the bytes that are asked for, and
/// does not lie about the length.
pub open spec fn has_file(server: Server, url: Seq<char>, fields: Fields, file: Seq<u8>) -> bool {
    &&& forall|request: RequestView| #[trigger]
        is_for(request, url, fields) && request.method == "GET"@ && !request.headers.contains_key(
            "range"@,
        ) ==> server(request).status == 200 && server(request).body == file
    &&& forall|request: RequestView, first: nat, last: nat| #[trigger]
        asks_bytes(request, first, last) && is_for(request, url, fields) && request.method
            == "GET"@ && first <= last && first < file.len() ==> is_part(
            server(request),
            file,
            first,
            last,
        )
    &&& forall|request: RequestView| #[trigger]
        is_for(request, url, fields) && request.method == "HEAD"@ && !request.headers.contains_key(
            "range"@,
        ) && 200 <= server(request).status < 300 && server(request).headers.contains_key(
            "content-length"@,
        ) ==> says(server(request).headers, "content-length"@, decimal(file.len()))
}

/// Whether a server that has a file tells its length when it is asked for it.
pub open spec fn tells_length(server: Server, url: Seq<char>, fields: Fields) -> bool {
    forall|request: RequestView| #[trigger]
        is_for(request, url, fields) && request.method == "HEAD"@ && !request.headers.contains_key(
            "range"@,
        ) ==> 200 <= server(request).status < 300 && server(request).headers.contains_key(
            "content-length"@,
        )
}

/// What an exchange comes to.
pub enum Outcome {
    /// An answer, and the response that it is made of.
    Answer(ReplyView, ResponseView),
    /// An error.
    Fail(ErrorView),
    /// Nothing, as a response cannot be dealt with, or no end is reached.
    Stuck,
}

/// What a download that has sent a request comes to.
pub open spec fn download_from(
    context: FileContext,
    stage: StageView,
    request: RequestView,
    server: Server,
) -> Outcome
    decreases questions_left(stage),
{
    let resp = server(request);
    if !context.accepts(stage, resp) {
        Outcome::Stuck
    } else {
        match context.next(stage, resp) {
            StepView::Ask(later, question) => if questions_left(later) < questions_left(stage) {
                download_from(context, later, question, server)
            } else {
                Outcome::Stuck
            },
            StepView::Fail(e) => Outcome::Fail(e),
            StepView::Answer(_, reply) => Outcome::Answer(reply, resp),
        }
    }
}

/// What a download comes to.
pub open spec fn download(context: FileContext, server: Server) -> Outcome {
    match context.first() {
        StepView::Ask(stage, request) => download_from(context, stage, request, server),
        StepView::Fail(e) => Outcome::Fail(e),
        StepView::Answer(..) => Outcome::Stuck,
    }
}

/// What a request for headers that has sent a request comes to.
pub open spec fn head_from(
    context: FileContext,
    stage: HeadStageView,
    request: RequestView,
    server: Server,
) -> Outcome
    decreases head_questions_left(stage),
{
    let resp = server(request);
    match context.head_next(stage, resp) {
        HeadStepView::Ask(later, question) => if head_questions_left(later) < head_questions_left(
            stage,
        ) {
            head_from(context, later, question, server)
        } else {
            Outcome::Stuck
        },
        HeadStepView::Fail(e) => Outcome::Fail(e),
        HeadStepView::Answer(reply) => Outcome::Answer(reply, resp),
    }
}

/// What a request for headers comes to.
pub open spec fn head(context: FileContext, server: Server) -> Outcome {
    match context.head_first() {
        HeadStepView::Ask(stage, request) => head_from(context, stage, request, server),
        HeadStepView::Fail(e) => Outcome::Fail(e),
        HeadStepView::Answer(_) => Outcome::Stuck,
    }
}

/// Whether a client that gets an answer receives exactly some contents: the body
/// of the response as it is or decrypted, or nothing.
pub open spec fn receives(reply: ReplyView, resp: ResponseView, contents: Seq<u8>) -> bool {
    match reply.body {
        BodyView::Empty => contents.len() == 0,
        BodyView::Copy => contents == resp.body,
        BodyView::Decrypt(job) => job.delivers(resp.body, contents),
    }
}

/// Whether an answer gives the type of the contents that a response gives, if it
/// gives one.
pub open spec fn keeps_type(reply: ReplyView, resp: ResponseView) -> bool {
    &&& reply.headers.contains_key("content-type"@) <==> resp.headers.contains_key(
        "content-type"@,
    )
    &&& resp.headers.contains_key("content-type"@) ==> reply.headers["content-type"@] == seq![
        resp.headers["content-type"@][0],
    ]
}

/// The bytes of some contents that a request asks for.
pub open spec fn part_of(plain: Seq<u8>, req: RangeReq) -> Seq<u8> {
    let len = plain.len() as int;
    match req {
        RangeReq::From(start, None) => if start < len {
            plain.skip(start as int)
        } else {
            Seq::empty()
        },
        RangeReq::From(start, Some(end)) => if start >= len || end < start {
            Seq::empty()
        } else if end < len {
            plain.subrange(start as int, end + 1)
        } else {
            plain.skip(start as int)
        },
        RangeReq::Suffix(n) => if n < len {
            plain.skip(len - n)
        } else {
            plain
        },
    }
}

/// Where in some contents the bytes begin that a request asks for.
pub open spec fn part_start(plain: Seq<u8>, req: RangeReq) -> int {
    match req {
        RangeReq::From(start, _) => start as int,
        RangeReq::Suffix(n) => plain.len() - part_of(plain, req).len(),
    }
}

/// Whether an answer is that with whole contents.
pub open spec fn is_whole_answer(reply: ReplyView, resp: ResponseView, plain: Seq<u8>) -> bool {
    &&& reply.status == 200
    &&& receives(reply, resp, plain)
    &&& forall|name: Seq<char>|
        name != "content-length"@ && name != "transfer-encoding"@ && name != "accept-ranges"@ ==> {
            &&& #[trigger] reply.headers.contains_key(name) <==> resp.headers.contains_key(name)
            &&& resp.headers.contains_key(name) ==> reply.headers[name] == resp.headers[name]
        }
    &&& reply.headers.contains_key("content-length"@) ==> says(
        reply.headers,
        "content-length"@,
        decimal(plain.len()),
    )
    &&& !reply.headers.contains_key("transfer-encoding"@)
}

/// Whether an answer is that to a request for a part of some contents: the bytes
/// that are asked for, with their place, their number and the number of all; or,
/// if there are none, a refusal that says how many there are.
pub open spec fn is_part_answer(
    reply: ReplyView,
    resp: ResponseView,
    plain: Seq<u8>,
    req: RangeReq,
) -> bool {
    let part = part_of(plain, req);
    let first = part_start(plain, req);
    if part.len() > 0 {
        &&& reply.status == 206
        &&& receives(reply, resp, part)
        &&& keeps_type(reply, resp)
        &&& says(reply.headers, "content-length"@, decimal(part.len()))
        &&& says(
            reply.headers,
            "content-range"@,
            "bytes "@ + decimal(first as nat) + "-"@ + decimal((first + part.len() - 1) as nat)
                + "/"@ + decimal(plain.len()),
        )
        &&& says(reply.headers, "accept-ranges"@, "bytes"@)
    } else {
        &&& reply.status == 416
        &&& reply.body is Empty
        &&& says(reply.headers, "content-range"@, "bytes */"@ + decimal(plain.len()))
        &&& forall|name: Seq<char>| #[trigger]
            reply.headers.contains_key(name) ==> name == "content-range"@
    }
}

/// Whether a file is of a size that the proxy can count: its blocks in 32 bits,
/// its bytes in 64 bits with a block to spare, and no more of a keystream than
/// there is.
pub open spec fn is_countable(t: EncType, plain: Seq<u8>, file: Seq<u8>) -> bool {
    &&& file.len() + 65552 < u64::MAX
    &&& t == EncType::ChaCha20 ==> file.len() <= 64 * 0xffff_ffff
    &&& t.spec_kind() == CipherKind::Block ==> plain.len() < 0xffff_ffff * 65536
}

/// What is read of a header that is right about the length of a file.
proof fn lemma_total(headers: Fields, len: u64)
    requires
        total_is_right(headers, len as nat),
    ensures
        total_of(headers) matches Some(n) ==> n == len,
{
    if headers.contains_key("content-range"@) {
        let before = choose|before: Seq<char>| #[trigger]
            is_visible_text(before) && {
                ||| headers["content-range"@] == seq![
                    encode_utf8(before + "/"@ + decimal(len as nat)),
                ]
                ||| headers["content-range"@] == seq![encode_utf8(before + "/*"@)]
            };
        lemma_texts();
        lemma_visible_decimal(len as nat);
        lemma_visible_join(before, "/"@);
        lemma_visible_join(before + "/"@, decimal(len as nat));
        law_visible_value(before + "/"@ + decimal(len as nat));
        law_total_is_read_back(before, len);
        reveal_strlit("/*");
        assert(is_visible_text("/*"@));
        lemma_visible_join(before, "/*"@);
        law_visible_value(before + "/*"@);
        law_no_total(before);
    }
}

/// What is read of a header that gives a length.
proof fn lemma_length(headers: Fields, len: u64)
    requires
        says(headers, "content-length"@, decimal(len as nat)),
    ensures
        length_of(headers) == Some(len),
{
    lemma_visible_decimal(len as nat);
    law_visible_value(decimal(len as nat));
    law_number_is_read_back(len);
}

/// The request that a download has sent when it waits at some stage.
spec fn pending(context: FileContext, stage: StageView, file_len: u64) -> RequestView {
    match stage {
        StageView::Plain => plain_request("GET"@, context.url, context.fields),
        StageView::Probe => probe_request(context.url, context.fields),
        StageView::Length { again, .. } => if again {
            first_byte_request(context.url, context.fields)
        } else {
            length_request(context.url, context.fields)
        },
        StageView::Whole { .. } => whole_request(context.url, context.fields),
        StageView::Part { cipher, start, end, .. } => part_request(
            context.url,
            context.fields,
            cipher_offset(cipher.enc_type, start as nat) as nat,
            part_end(cipher.enc_type, start, end, file_len) as nat,
        ),
    }
}

/// The part that a download at some stage is about.
spec fn wanted(context: FileContext, stage: StageView) -> Option<RangeReq> {
    match stage {
        StageView::Plain => None,
        StageView::Probe => if asks_range(context.fields) {
            range_of(context.fields)
        } else {
            None
        },
        StageView::Length { range, .. } => range,
        StageView::Whole { .. } => None,
        StageView::Part { .. } => range_of(context.fields),
    }
}

/// Whether a download at some stage knows the length of the file, or can get to
/// know it by asking.
spec fn can_know(stage: StageView) -> bool {
    match stage {
        StageView::Length { again, .. } => !again,
        StageView::Whole { plain_len, .. } => plain_len is Some,
        _ => true,
    }
}

/// Whether a download is one of an uploaded file that a server has.
spec fn is_of_file(
    context: FileContext,
    server: Server,
    t: EncType,
    plain: Seq<u8>,
    file: Seq<u8>,
) -> bool {
    &&& context.enc_type == Some(t)
    &&& is_encrypted_file(t, context.password, plain, file)
    &&& is_countable(t, plain, file)
    &&& has_file(server, context.url, context.fields, file)
    &&& range_of(context.fields) matches Some(req) ==> resolvable(req, plain.len() as u64)
}

/// The responses of an honest server tell the truth about a file.
proof fn lemma_truthful(
    context: FileContext,
    stage: StageView,
    server: Server,
    t: EncType,
    plain: Seq<u8>,
    file: Seq<u8>,
)
    requires
        is_of_file(context, server, t, plain, file),
        context.is_about(stage, plain, file),
    ensures
        is_truthful(stage, server(pending(context, stage, file.len() as u64)), file),
        stage is Length && can_know(stage) && tells_length(server, context.url, context.fields)
            ==> announced(false, server(pending(context, stage, file.len() as u64))) == Some(
            file.len() as u64,
        ),
{
    let request = pending(context, stage, file.len() as u64);
    let resp = server(request);
    law_file_round_trip(t, context.password, plain, file);
    law_file_requests(context.url, context.fields, 0, 0);
    lemma_file_size(t, context.password, plain, file);
    match stage {
        StageView::Probe => {
            assert(asks_bytes(request, 0, 63));
            assert(is_for(request, context.url, context.fields));
            assert(is_part(resp, file, 0, 63));
            lemma_name_shapes();
            lemma_total(resp.headers, file.len() as u64);
            assert(file.subrange(0, 64) =~= file.take(64));
            assert(file.take(file.len() as int) =~= file);
        },
        StageView::Length { again, .. } => {
            assert(is_for(request, context.url, context.fields));
            if again {
                assert(asks_bytes(request, 0, 0));
                assert(is_part(resp, file, 0, 0));
                lemma_total(resp.headers, file.len() as u64);
            } else if 200 <= resp.status < 300 && resp.headers.contains_key("content-length"@) {
                lemma_length(resp.headers, file.len() as u64);
            }
        },
        _ => {},
    }
}

/// An uploaded file begins with a header, and its length says how long its
/// contents are.
proof fn lemma_file_size(t: EncType, password: Seq<u8>, plain: Seq<u8>, file: Seq<u8>)
    requires
        is_encrypted_file(t, password, plain, file),
    ensures
        file.len() >= CYPTO_META_SIZE,
        t.spec_kind() == CipherKind::Stream ==> file.len() == CYPTO_META_SIZE + plain.len(),
        t.spec_kind() == CipherKind::Block ==> file.len() == CYPTO_META_SIZE + plain.len() + 16 * ((
        plain.len() + 65535) as nat / 65536),
{
    crate::service::cipher_engine::lemma_file_len(t, password, plain, file);
}

/// The responses of an honest server can be dealt with.
proof fn lemma_accepted(
    context: FileContext,
    stage: StageView,
    resp: ResponseView,
    server: Server,
    t: EncType,
    plain: Seq<u8>,
    file: Seq<u8>,
)
    requires
        is_of_file(context, server, t, plain, file),
        context.is_about(stage, plain, file),
        is_truthful(stage, resp, file),
    ensures
        context.accepts(stage, resp),
{
    law_file_round_trip(t, context.password, plain, file);
    lemma_file_size(t, context.password, plain, file);
    let cipher = cipher_of_file(file, context.password)->0;
    if let Some(req) = range_of(context.fields) {
        law_resolved_range(req, plain.len() as u64);
        if let Some((start, end)) = resolved(req, plain.len() as u64) {
            let n = plain.len();
            let k = end as nat / BLOCK_SIZE as nat;
            assert(cipher_end(t, start as nat, (end - start + 1) as nat) < u64::MAX);
        }
        assert(context.part_fits(cipher, req, file.len() as u64));
    }
    if stage is Probe {
        lemma_probed(file, resp.body.len() as int, context.password);
    }
}

/// Whether what a download at some stage comes to is right.
spec fn ends_right(
    context: FileContext,
    stage: StageView,
    tells: bool,
    plain: Seq<u8>,
    outcome: Outcome,
) -> bool {
    outcome matches Outcome::Answer(reply, resp) && match wanted(context, stage) {
        None => {
            &&& is_whole_answer(reply, resp, plain)
            &&& tells ==> reply.headers.contains_key("content-length"@) && says(
                reply.headers,
                "accept-ranges"@,
                "bytes"@,
            )
        },
        Some(req) => {
            ||| is_part_answer(reply, resp, plain, req)
            ||| !tells && is_whole_answer(reply, resp, plain)
        },
    }
}

/// The part of some contents between two bytes that a request gets.
proof fn lemma_part_of(plain: Seq<u8>, req: RangeReq)
    requires
        plain.len() <= u64::MAX,
        resolvable(req, plain.len() as u64),
    ensures
        match resolved(req, plain.len() as u64) {
            Some((start, end)) => {
                &&& start <= end < plain.len()
                &&& part_of(plain, req) == plain.subrange(start as int, end + 1)
                &&& part_start(plain, req) == start
            },
            None => part_of(plain, req).len() == 0,
        },
{
    law_resolved_range(req, plain.len() as u64);
    if let Some((start, end)) = resolved(req, plain.len() as u64) {
        assert(part_of(plain, req) =~= plain.subrange(start as int, end + 1));
    }
}

/// The answer to a request for a part of an uploaded file, when it comes.
proof fn lemma_part_comes(
    context: FileContext,
    stage: StageView,
    server: Server,
    t: EncType,
    plain: Seq<u8>,
    file: Seq<u8>,
)
    requires
        is_of_file(context, server, t, plain, file),
        context.is_about(stage, plain, file),
        stage is Part,
    ensures
        ({
            let resp = server(pending(context, stage, file.len() as u64));
            &&& context.next(stage, resp) matches StepView::Answer(_, reply) && is_part_answer(
                reply,
                resp,
                plain,
                range_of(context.fields)->0,
            )
        }),
{
    let request = pending(context, stage, file.len() as u64);
    let resp = server(request);
    let req = range_of(context.fields)->0;
    law_file_round_trip(t, context.password, plain, file);
    lemma_file_size(t, context.password, plain, file);
    law_download_is_right(context, stage, resp, t, plain, file);
    lemma_part_of(plain, req);
    if let StageView::Part { cipher, start, end, .. } = stage {
        law_file_range(t, context.password, plain, file, start as nat, (end - start + 1) as nat);
        let first = cipher_offset(t, start as nat) as nat;
        let last = part_end(t, start, end, file.len() as u64) as nat;
        law_file_requests(context.url, context.fields, first, last);
        assert(asks_bytes(request, first, last));
        assert(is_for(request, context.url, context.fields));
        assert(is_part(resp, file, first, last));
        if let StepView::Answer(_, reply) = context.next(stage, resp) {
            law_part_headers(
                start as nat,
                end as nat,
                plain.len(),
                type_of(resp.headers),
                "content-range"@,
            );
            assert(hands_on(reply.body, resp.body, plain.subrange(start as int, end + 1)));
        }
    }
}

/// The answer with a whole uploaded file, when it comes.
proof fn lemma_whole_comes(
    context: FileContext,
    stage: StageView,
    server: Server,
    t: EncType,
    plain: Seq<u8>,
    file: Seq<u8>,
)
    requires
        is_of_file(context, server, t, plain, file),
        context.is_about(stage, plain, file),
        stage is Whole,
    ensures
        ({
            let resp = server(pending(context, stage, file.len() as u64));
            &&& context.next(stage, resp) matches StepView::Answer(_, reply) && is_whole_answer(
                reply,
                resp,
                plain,
            ) && (can_know(stage) ==> reply.headers.contains_key("content-length"@) && says(
                reply.headers,
                "accept-ranges"@,
                "bytes"@,
            ))
        }),
{
    let request = pending(context, stage, file.len() as u64);
    let resp = server(request);
    law_file_requests(context.url, context.fields, 0, 0);
    assert(is_for(request, context.url, context.fields));
    law_file_round_trip(t, context.password, plain, file);
    law_download_is_right(context, stage, resp, t, plain, file);
    law_whole_headers(resp.headers, plain.len() as u64, "content-length"@);
    if let StepView::Answer(_, reply) = context.next(stage, resp) {
        assert forall|name: Seq<char>|
            name != "content-length"@ && name != "transfer-encoding"@ && name
                != "accept-ranges"@ implies {
            &&& #[trigger] reply.headers.contains_key(name) <==> resp.headers.contains_key(name)
            &&& resp.headers.contains_key(name) ==> reply.headers[name] == resp.headers[name]
        } by {
            law_whole_headers(resp.headers, plain.len() as u64, name);
        }
    }
}

/// The step after a response that is neither a whole file nor a part of it.
proof fn lemma_goes_on(
    context: FileContext,
    stage: StageView,
    server: Server,
    t: EncType,
    plain: Seq<u8>,
    file: Seq<u8>,
)
    requires
        is_of_file(context, server, t, plain, file),
        context.is_about(stage, plain, file),
        stage is Probe || stage is Length,
    ensures
        ({
            let tells = tells_length(server, context.url, context.fields);
            let resp = server(pending(context, stage, file.len() as u64));
            match context.next(stage, resp) {
                StepView::Ask(later, question) => {
                    &&& context.is_about(later, plain, file)
                    &&& question == pending(context, later, file.len() as u64)
                    &&& questions_left(later) < questions_left(stage)
                    &&& tells && can_know(stage) ==> can_know(later)
                    &&& wanted(context, later) == wanted(context, stage) || (wanted(context, later)
                        is None && !(tells && can_know(stage)))
                },
                StepView::Fail(_) => false,
                StepView::Answer(_, reply) => wanted(context, stage) matches Some(req)
                    && is_part_answer(reply, resp, plain, req),
            }
        }),
{
    let resp = server(pending(context, stage, file.len() as u64));
    law_file_round_trip(t, context.password, plain, file);
    lemma_truthful(context, stage, server, t, plain, file);
    law_download_is_right(context, stage, resp, t, plain, file);
    if stage is Probe {
        lemma_probed(file, resp.body.len() as int, context.password);
    }
    if let Some(req) = range_of(context.fields) {
        lemma_part_of(plain, req);
    }
    law_no_part_headers(plain.len(), "content-range"@);
}

/// A download of an uploaded file that an honest server has ends right.
proof fn lemma_download_from(
    context: FileContext,
    stage: StageView,
    server: Server,
    t: EncType,
    plain: Seq<u8>,
    file: Seq<u8>,
)
    requires
        is_of_file(context, server, t, plain, file),
        context.is_about(stage, plain, file),
    ensures
        ends_right(
            context,
            stage,
            tells_length(server, context.url, context.fields) && can_know(stage),
            plain,
            download_from(context, stage, pending(context, stage, file.len() as u64), server),
        ),
    decreases questions_left(stage),
{
    let resp = server(pending(context, stage, file.len() as u64));
    lemma_truthful(context, stage, server, t, plain, file);
    lemma_accepted(context, stage, resp, server, t, plain, file);
    if stage is Part {
        lemma_part_comes(context, stage, server, t, plain, file);
    } else if stage is Whole {
        lemma_whole_comes(context, stage, server, t, plain, file);
    } else {
        lemma_goes_on(context, stage, server, t, plain, file);
        if let StepView::Ask(later, _) = context.next(stage, resp) {
            lemma_download_from(context, later, server, t, plain, file);
        }
    }
}

/// A client that asks for a whole file gets the contents that were uploaded,
/// whatever the server tells of the length on the way, and their length if the
/// server tells that of the file. Every request goes to the address of the file:
/// of what stands at other addresses nothing is known.
pub proof fn law_whole_download(
    context: FileContext,
    server: Server,
    t: EncType,
    plain: Seq<u8>,
    file: Seq<u8>,
)
    requires
        context.enc_type == Some(t),
        is_encrypted_file(t, context.password, plain, file),
        is_countable(t, plain, file),
        has_file(server, context.url, context.fields, file),
        !context.fields.contains_key("range"@),
        !context.fields.contains_key("if-range"@),
    ensures
        download(context, server) matches Outcome::Answer(reply, resp) && {
            &&& is_whole_answer(reply, resp, plain)
            &&& tells_length(server, context.url, context.fields) ==> says(
                reply.headers,
                "content-length"@,
                decimal(plain.len()),
            ) && says(reply.headers, "accept-ranges"@, "bytes"@)
        },
{
    lemma_download_from(context, StageView::Probe, server, t, plain, file);
}

/// A client that asks for a part of a file gets exactly the bytes of the
/// contents that it asks for, with their place and the length of the contents:
/// out of those bytes of the file that the proxy's own request names, or out of
/// the whole file if the server sends it. If there are no such bytes it is told
/// so. Only if the server does not tell the length of the file may the client
/// get the whole contents instead.
pub proof fn law_part_download(
    context: FileContext,
    server: Server,
    t: EncType,
    plain: Seq<u8>,
    file: Seq<u8>,
    req: RangeReq,
)
    requires
        context.enc_type == Some(t),
        is_encrypted_file(t, context.password, plain, file),
        is_countable(t, plain, file),
        has_file(server, context.url, context.fields, file),
        says(context.fields, "range"@, range_value(req)),
        req is Suffix ==> plain.len() > 0,
    ensures
        download(context, server) matches Outcome::Answer(reply, resp) && {
            ||| is_part_answer(reply, resp, plain, req)
            ||| !tells_length(server, context.url, context.fields) && is_whole_answer(
                reply,
                resp,
                plain,
            )
        },
{
    lemma_range_value(req);
    law_visible_value(range_value(req));
    law_range_is_read_back(req);
    lemma_download_from(context, StageView::Probe, server, t, plain, file);
}

/// The value of a `Range` header is visible ASCII.
proof fn lemma_range_value(req: RangeReq)
    ensures
        is_visible_text(range_value(req)),
{
    lemma_texts();
    reveal_strlit("bytes=-");
    match req {
        RangeReq::From(start, end) => {
            lemma_visible_decimal(start as nat);
            lemma_visible_join("bytes="@, decimal(start as nat));
            lemma_visible_join("bytes="@ + decimal(start as nat), "-"@);
            if let Some(end) = end {
                lemma_visible_decimal(end as nat);
                lemma_visible_join(
                    "bytes="@ + decimal(start as nat) + "-"@,
                    decimal(end as nat),
                );
            }
        },
        RangeReq::Suffix(n) => {
            lemma_visible_decimal(n as nat);
            lemma_visible_join("bytes=-"@, decimal(n as nat));
        },
    }
}

/// Whether a request is that of a client, sent on to an address.
pub open spec fn is_clients(
    request: RequestView,
    method: Seq<char>,
    url: Seq<char>,
    fields: Fields,
) -> bool {
    request.method == method && request.url == url && is_passed_on(request, fields)
}

/// Whether the response to the request of a client is handed on to it as it is,
/// except for the headers that give its length.
pub open spec fn is_handed_on(reply: ReplyView, resp: ResponseView) -> bool {
    &&& reply.status == resp.status
    &&& reply.body is Copy
    &&& forall|name: Seq<char>|
        {
            &&& #[trigger] reply.headers.contains_key(name) <==> resp.headers.contains_key(name)
                && name != "content-length"@ && name != "transfer-encoding"@
            &&& reply.headers.contains_key(name) ==> reply.headers[name] == resp.headers[name]
        }
}

/// Whether no uploaded file is like a file: it is too short for a header, or
/// begins like none.
pub open spec fn is_foreign(file: Seq<u8>) -> bool {
    file.len() < 64 || forall|t: EncType| file.take(8) != #[trigger] encode_utf8(t.magic())
}

/// The first bytes of a file that was not uploaded give no cipher.
proof fn lemma_foreign(context: FileContext, server: Server, file: Seq<u8>)
    requires
        has_file(server, context.url, context.fields, file),
        file.len() > 0,
        is_foreign(file),
    ensures
        probed(
            server(probe_request(context.url, context.fields)).body,
            context.password,
        ) is None,
{
    let request = probe_request(context.url, context.fields);
    let resp = server(request);
    law_file_requests(context.url, context.fields, 0, 0);
    assert(asks_bytes(request, 0, 63));
    assert(is_for(request, context.url, context.fields));
    assert(is_part(resp, file, 0, 63));
    if file.len() >= 64 {
        assert(resp.body.take(8) =~= file.take(8));
        assert(file.take(8) != encode_utf8(EncType::AesCtr.magic()));
        assert(file.take(8) != encode_utf8(EncType::ChaCha20.magic()));
        assert(file.take(8) != encode_utf8(EncType::AesGcm.magic()));
        assert(file.take(8) != encode_utf8(EncType::ChaCha20Poly1305.magic()));
        assert(file.take(8) != encode_utf8(EncType::AesGcmSiv.magic()));
    }
}

/// A file that was not uploaded through the proxy is handed on as the server
/// sends it for the request of the client; and so is every file if the
/// configuration names no algorithm.
pub proof fn law_foreign_download(context: FileContext, server: Server, file: Seq<u8>)
    requires
        context.enc_type is None || has_file(server, context.url, context.fields, file)
            && file.len() > 0 && is_foreign(file),
    ensures
        exists|request: RequestView| #[trigger]
            is_clients(request, "GET"@, context.url, context.fields) && (download(context, server)
                matches Outcome::Answer(reply, resp) && resp == server(request) && is_handed_on(
                reply,
                resp,
            )),
{
    let request = plain_request("GET"@, context.url, context.fields);
    law_plain_request("GET"@, context.url, context.fields);
    assert(is_clients(request, "GET"@, context.url, context.fields));
    reveal_with_fuel(download_from, 2);
    if context.enc_type is Some {
        lemma_foreign(context, server, file);
    }
    assert(download(context, server) matches Outcome::Answer(reply, resp) && resp == server(
        request,
    ) && is_handed_on(reply, resp));
}

/// A file that was uploaded with another algorithm than that of the
/// configuration is not handed on.
pub proof fn law_other_algorithm_is_refused(
    context: FileContext,
    server: Server,
    t: EncType,
    plain: Seq<u8>,
    file: Seq<u8>,
)
    requires
        context.enc_type is Some,
        context.enc_type != Some(t),
        is_encrypted_file(t, context.password, plain, file),
        is_countable(t, plain, file),
        has_file(server, context.url, context.fields, file),
        range_of(context.fields) matches Some(req) ==> resolvable(req, plain.len() as u64),
    ensures
        download(context, server) == Outcome::Fail(ErrorView::Internal("加密类型不匹配"@)),
        head(context, server) == Outcome::Fail(ErrorView::Internal("加密类型不匹配"@)),
{
    let other = FileContext { enc_type: Some(t), ..context };
    let resp = server(probe_request(context.url, context.fields));
    lemma_truthful(other, StageView::Probe, server, t, plain, file);
    lemma_accepted(other, StageView::Probe, resp, server, t, plain, file);
    law_file_round_trip(t, context.password, plain, file);
    lemma_probed(file, resp.body.len() as int, context.password);
}

/// Every request of a download goes to the address of the file. It is that of
/// the client, or one that asks for the file as it is stored: with `GET`, or with
/// `HEAD` if only the length is wanted.
pub proof fn law_download_stays_at_address(
    context: FileContext,
    stage: StageView,
    resp: ResponseView,
)
    ensures
        context.first() matches StepView::Ask(_, request) && request.url == context.url && (
        is_clients(request, "GET"@, context.url, context.fields) || asks_as_stored(
            request,
            context.fields,
        )),
        context.next(stage, resp) matches StepView::Ask(later, request) ==> {
            &&& request.url == context.url
            &&& is_clients(request, "GET"@, context.url, context.fields) || asks_as_stored(
                request,
                context.fields,
            )
            &&& request.method == "GET"@ || request.method == "HEAD"@
            &&& later is Whole || later is Part ==> request.method == "GET"@
        },
{
    law_plain_request("GET"@, context.url, context.fields);
    law_file_requests(context.url, context.fields, 0, 0);
    if let StepView::Ask(StageView::Part { cipher, file_len, start, end }, request) = context.next(
        stage,
        resp,
    ) {
        lemma_part_request(context, stage, resp);
    }
}

/// The request for a part asks for the file as it is stored.
proof fn lemma_part_request(context: FileContext, stage: StageView, resp: ResponseView)
    requires
        context.next(stage, resp) matches StepView::Ask(later, _) && later is Part,
    ensures
        context.next(stage, resp) matches StepView::Ask(_, request) && request.url == context.url
            && request.method == "GET"@ && asks_as_stored(request, context.fields),
{
    let len = match stage {
        StageView::Probe => total_of(resp.headers)->0,
        StageView::Length { again, .. } => announced(again, resp)->0,
        _ => 0,
    };
    if let StepView::Ask(StageView::Part { cipher, start, end, .. }, request) = context.next(
        stage,
        resp,
    ) {
        let first = cipher_offset(cipher.enc_type, start as nat) as nat;
        let last = part_end(cipher.enc_type, start, end, len) as nat;
        law_file_requests(context.url, context.fields, first, last);
        assert(request == part_request(context.url, context.fields, first, last));
    }
}

/// Every request for headers goes to the address of the file.
pub proof fn law_head_stays_at_address(
    context: FileContext,
    stage: HeadStageView,
    resp: ResponseView,
)
    ensures
        context.head_first() matches HeadStepView::Ask(_, request) && request.url == context.url,
        context.head_next(stage, resp) matches HeadStepView::Ask(_, request) ==> {
            &&& request.url == context.url
            &&& request.method == "HEAD"@ || (request.method == "GET"@ && asks_as_stored(
                request,
                context.fields,
            ))
        },
{
    law_file_requests(context.url, context.fields, 0, 0);
    law_head_request(context.url, context.fields, "range"@);
}

/// A client that asks for the headers of an uploaded file gets the length of
/// the contents that were uploaded, the type of the contents if the server gives
/// one, that parts can be had, and nothing else.
pub proof fn law_head_of_file(
    context: FileContext,
    server: Server,
    t: EncType,
    plain: Seq<u8>,
    file: Seq<u8>,
)
    requires
        context.enc_type == Some(t),
        is_encrypted_file(t, context.password, plain, file),
        file.len() <= u64::MAX,
        has_file(server, context.url, context.fields, file),
        tells_length(server, context.url, context.fields),
    ensures
        head(context, server) matches Outcome::Answer(reply, resp) && {
            &&& reply.status == 200
            &&& reply.body is Empty
            &&& says(reply.headers, "content-length"@, decimal(plain.len()))
            &&& says(reply.headers, "accept-ranges"@, "bytes"@)
            &&& keeps_type(reply, resp)
            &&& forall|name: Seq<char>| #[trigger]
                reply.headers.contains_key(name) ==> name == "content-length"@ || name
                    == "accept-ranges"@ || name == "content-type"@
        },
{
    let request = probe_request(context.url, context.fields);
    let resp = server(request);
    reveal_with_fuel(head_from, 2);
    law_file_round_trip(t, context.password, plain, file);
    lemma_file_size(t, context.password, plain, file);
    law_file_requests(context.url, context.fields, 0, 0);
    assert(asks_bytes(request, 0, 63));
    assert(is_for(request, context.url, context.fields));
    assert(is_part(resp, file, 0, 63));
    lemma_total(resp.headers, file.len() as u64);
    assert(file.subrange(0, 64) =~= file.take(64));
    assert(file.take(file.len() as int) =~= file);
    lemma_probed(file, resp.body.len() as int, context.password);
    let question = length_request(context.url, context.fields);
    let answer = server(question);
    assert(is_for(question, context.url, context.fields));
    lemma_length(answer.headers, file.len() as u64);
    if let Outcome::Answer(reply, _) = head(context, server) {
        assert forall|name: Seq<char>| #[trigger] reply.headers.contains_key(name) implies name
            == "content-length"@ || name == "accept-ranges"@ || name == "content-type"@ by {
            law_head_headers(plain.len(), type_of(resp.headers), name);
            law_head_headers(plain.len(), type_of(answer.headers), name);
        }
    }
    law_head_headers(plain.len(), type_of(resp.headers), "range"@);
    law_head_headers(plain.len(), type_of(answer.headers), "range"@);
}

/// The headers of a file that was not uploaded through the proxy are those that
/// the server gives, all of them; and so are those of every file if the
/// configuration names no algorithm.
pub proof fn law_foreign_head(context: FileContext, server: Server, file: Seq<u8>)
    requires
        context.enc_type is None || has_file(server, context.url, context.fields, file)
            && file.len() > 0 && is_foreign(file),
    ensures
        head(context, server) matches Outcome::Answer(reply, resp) && resp == server(
            head_request(context.url, context.fields),
        ) && reply.status == resp.status && reply.headers == resp.headers && reply.body is Empty,
{
    reveal_with_fuel(head_from, 2);
    if context.enc_type is Some {
        lemma_foreign(context, server, file);
    }
}

/// The length of a file that a response at some stage tells.
pub open spec fn told_length(stage: StageView, resp: ResponseView) -> Option<u64> {
    match stage {
        StageView::Probe => total_of(resp.headers),
        StageView::Length { again, .. } => announced(again, resp),
        _ => None,
    }
}

/// Whether a byte of an encrypted file is needed for the bytes of its contents
/// from one on up to another one: with a stream cipher it is the code of one of
/// them, with a block cipher it is in the frame of a block that holds one of them.
pub open spec fn is_needed(t: EncType, start: int, end: int, len: int, at: int) -> bool {
    if t == EncType::AesCtr || t == EncType::ChaCha20 {
        64 + start <= at <= 64 + end
    } else {
        64 <= at < len && start / 65536 <= (at - 64) / 65552 <= end / 65536
    }
}

/// For a part of a file exactly those bytes of the file are asked for that are
/// needed to decrypt it.
pub proof fn law_part_asks_for_needed_bytes(
    context: FileContext,
    stage: StageView,
    resp: ResponseView,
)
    requires
        context.accepts(stage, resp),
    ensures
        context.next(stage, resp) matches StepView::Ask(
            StageView::Part { cipher, file_len, start, end },
            request,
        ) ==> exists|first: nat, last: nat| #[trigger]
            asks_bytes(request, first, last) && forall|at: int|
                #![trigger is_needed(
                    cipher.enc_type,
                    start as int,
                    end as int,
                    told_length(stage, resp)->0 as int,
                    at,
                )]
                first <= at <= last <==> is_needed(
                    cipher.enc_type,
                    start as int,
                    end as int,
                    told_length(stage, resp)->0 as int,
                    at,
                ),
{
    if let StepView::Ask(StageView::Part { cipher, file_len, start, end }, request) = context.next(
        stage,
        resp,
    ) {
        let t = cipher.enc_type;
        let len = told_length(stage, resp)->0;
        let req = match stage {
            StageView::Length { range, .. } => range->0,
            _ => range_of(context.fields)->0,
        };
        law_resolved_range(req, file_len);
        let first = cipher_offset(t, start as nat) as nat;
        let last = part_end(t, start, end, len) as nat;
        law_file_requests(context.url, context.fields, first, last);
        law_algorithms("range"@);
        assert(request == part_request(context.url, context.fields, first, last));
        assert(asks_bytes(request, first, last));
        assert forall|at: int| first <= at <= last <==> #[trigger] is_needed(
            t,
            start as int,
            end as int,
            len as int,
            at,
        ) by {
            lemma_needed(t, file_len, start, end, len, at);
        }
    }
}

/// The bytes between the first and the last one that are asked for.
proof fn lemma_needed(t: EncType, file_len: u64, start: u64, end: u64, len: u64, at: int)
    requires
        plaintext_len(t, len) == Some(file_len),
        start <= end < file_len,
    ensures
        cipher_offset(t, start as nat) <= at <= part_end(t, start, end, len) <==> is_needed(
            t,
            start as int,
            end as int,
            len as int,
            at,
        ),
{
    law_algorithms("range"@);
    law_plaintext_len(t, len);
}

/// The answer to the request of a client is noted as a failure of the server
/// exactly if the status of the response is one of 500 to 599, and as its health
/// otherwise. A refusal of the proxy itself is not noted.
pub proof fn law_download_is_noted(context: FileContext, stage: StageView, resp: ResponseView)
    ensures
        context.next(stage, resp) matches StepView::Answer(record, reply) ==> {
            &&& stage is Plain || stage is Whole || stage is Part ==> record == if 500
                <= resp.status < 600 {
                Record::Failure
            } else {
                Record::Success
            }
            &&& stage is Probe || stage is Length ==> record == Record::Nothing && reply.status
                == 416
        },
{
}

/// A response that is no success is handed on with its status and its headers, but
/// for those that give its length. Of one for a part nothing else is handed on.
pub proof fn law_failures_are_handed_on(
    context: FileContext,
    stage: StageView,
    resp: ResponseView,
    name: Seq<char>,
)
    requires
        resp.status < 200 || 300 <= resp.status,
        stage is Part || stage is Plain || stage is Whole,
    ensures
        context.next(stage, resp) matches StepView::Answer(_, reply) && {
            &&& reply.status == resp.status
            &&& stage is Part ==> reply.body is Empty
            &&& stage is Plain ==> reply.body is Copy
            &&& stage is Part || stage is Plain ==> (reply.headers.contains_key(name)
                <==> resp.headers.contains_key(name) && name != "content-length"@ && name
                != "transfer-encoding"@)
            &&& name != "content-length"@ && name != "transfer-encoding"@ && name
                != "accept-ranges"@ ==> {
                &&& reply.headers.contains_key(name) <==> resp.headers.contains_key(name)
                &&& resp.headers.contains_key(name) ==> reply.headers[name] == resp.headers[name]
            }
        },
{
    lemma_name_shapes();
}

/// An error says which request had no response.
pub proof fn law_labels(stage: StageView, head_stage: HeadStageView)
    ensures
        request_label(stage) == match stage {
            StageView::Plain | StageView::Whole { .. } => "download: "@,
            StageView::Probe => "header probe: "@,
            StageView::Length { again: false, .. } => "head probe: "@,
            StageView::Length { again: true, .. } => "length probe: "@,
            StageView::Part { .. } => "range download: "@,
        },
        head_label(head_stage) == match head_stage {
            HeadStageView::Plain => "head: "@,
            HeadStageView::Probe => "header probe: "@,
            HeadStageView::Length { again: false, .. } => "head probe: "@,
            HeadStageView::Length { again: true, .. } => "length probe: "@,
        },
{
}

/// Whether no encrypted file has a length: it is shorter than the header, or ends
/// within the tag of a frame.
pub open spec fn is_damaged(t: EncType, len: int) -> bool {
    ||| len < 64
    ||| t != EncType::AesCtr && t != EncType::ChaCha20 && 1 <= (len - 64) % 65552 < 16
}

/// Nobody is told a length of the contents of a damaged file.
proof fn lemma_damaged(t: EncType, len: u64)
    requires
        is_damaged(t, len as int),
    ensures
        plaintext_len(t, len) is None,
{
    law_plaintext_len(t, len);
}

/// A file that cannot be complete, going by its length, is asked for as a whole,
/// whatever the client asked for, and the client is told no length.
pub proof fn law_damaged_download(
    context: FileContext,
    stage: StageView,
    t: EncType,
    resp: ResponseView,
    later: ResponseView,
)
    requires
        context.enc_type == Some(t),
        match stage {
            StageView::Probe => probed(resp.body, context.password) matches Some(c) && c.enc_type
                == t,
            StageView::Length { cipher, .. } => cipher.enc_type == t,
            _ => false,
        },
        told_length(stage, resp) matches Some(len) && is_damaged(t, len as int),
    ensures
        context.next(stage, resp) matches StepView::Ask(waits, request) && {
            &&& request.method == "GET"@
            &&& is_for(request, context.url, context.fields)
            &&& !request.headers.contains_key("range"@)
            &&& context.next(waits, later) matches StepView::Answer(_, reply)
                && !reply.headers.contains_key("content-length"@) && reply.status == later.status
                && reply.body is Decrypt
        },
{
    lemma_damaged(t, told_length(stage, resp)->0);
    law_file_requests(context.url, context.fields, 0, 0);
    law_whole_headers(later.headers, 0, "content-length"@);
}

/// The length of an uploaded file that a server tells: with the first bytes, else
/// when it is asked for the length, else with the first byte.
pub open spec fn length_told(context: FileContext, server: Server) -> Option<u64> {
    match total_of(server(probe_request(context.url, context.fields)).headers) {
        Some(len) => Some(len),
        None => match announced(false, server(length_request(context.url, context.fields))) {
            Some(len) => Some(len),
            None => announced(true, server(first_byte_request(context.url, context.fields))),
        },
    }
}

/// If a server does not tell the length of an uploaded file, or the file cannot be
/// complete, going by its length, the headers of the file are those that the
/// server gives, all of them.
pub proof fn law_head_of_unknown_length(context: FileContext, server: Server, t: EncType)
    requires
        context.enc_type == Some(t),
        probed(
            server(probe_request(context.url, context.fields)).body,
            context.password,
        ) matches Some(c) && c.enc_type == t,
        length_told(context, server) matches Some(len) ==> is_damaged(t, len as int),
    ensures
        head(context, server) matches Outcome::Answer(reply, resp) && resp == server(
            head_request(context.url, context.fields),
        ) && reply.status == resp.status && reply.headers == resp.headers && reply.body is Empty,
{
    reveal_with_fuel(head_from, 4);
    if let Some(len) = length_told(context, server) {
        lemma_damaged(t, len);
    }
}

/// If a server tells the length of an uploaded file at all, be it only when it is
/// asked for the first byte, the client is told the length of the contents.
pub proof fn law_head_of_told_length(
    context: FileContext,
    server: Server,
    t: EncType,
    plain: Seq<u8>,
    file: Seq<u8>,
)
    requires
        context.enc_type == Some(t),
        is_encrypted_file(t, context.password, plain, file),
        file.len() <= u64::MAX,
        has_file(server, context.url, context.fields, file),
        length_told(context, server) is Some,
    ensures
        head(context, server) matches Outcome::Answer(reply, _) && reply.status == 200 && says(
            reply.headers,
            "content-length"@,
            decimal(plain.len()),
        ),
{
    let request = probe_request(context.url, context.fields);
    let resp = server(request);
    reveal_with_fuel(head_from, 4);
    law_file_round_trip(t, context.password, plain, file);
    lemma_file_size(t, context.password, plain, file);
    law_file_requests(context.url, context.fields, 0, 0);
    assert(asks_bytes(request, 0, 63));
    assert(is_for(request, context.url, context.fields));
    assert(is_part(resp, file, 0, 63));
    lemma_total(resp.headers, file.len() as u64);
    assert(file.subrange(0, 64) =~= file.take(64));
    assert(file.take(file.len() as int) =~= file);
    lemma_probed(file, resp.body.len() as int, context.password);
    let question = length_request(context.url, context.fields);
    let answer = server(question);
    assert(is_for(question, context.url, context.fields));
    if 200 <= answer.status < 300 && answer.headers.contains_key("content-length"@) {
        lemma_length(answer.headers, file.len() as u64);
    }
    let again = first_byte_request(context.url, context.fields);
    let last = server(again);
    assert(asks_bytes(again, 0, 0));
    assert(is_for(again, context.url, context.fields));
    assert(is_part(last, file, 0, 0));
    lemma_total(last.headers, file.len() as u64);
    law_head_headers(plain.len(), type_of(resp.headers), "range"@);
    law_head_headers(plain.len(), type_of(answer.headers), "range"@);
    law_head_headers(plain.len(), type_of(last.headers), "range"@);
}

} // verus!
