use axum::http::header::{HeaderMap, HeaderName, HeaderValue};
use whim_dav_proxy::config::{BackendConfig, EncryptionConfig, ListenConfig, WebdavHostConfig};
use whim_dav_proxy::crypto::EncType;
use whim_dav_proxy::service::cipher_engine::{CipherBox, CipherEngine};
use whim_dav_proxy::service::download::{DownloadFlow, Step};
use whim_dav_proxy::service::head::{HeadFlow, HeadStep};
use whim_dav_proxy::service::headers::{
    convert_headers, has_range, header_room, put_text, strip_conditional_headers,
    strip_content_length, value_text, MAX_NAMES,
};
use whim_dav_proxy::service::proxy::{
    ProxyEngine, Record, Reply, ReplyBody, Request, Response,
};
use whim_dav_proxy::service::ranges::{
    content_length, content_range_total, parse_range, parse_range_text, parse_total, resolve_range,
    RangeReq,
};
use whim_dav_proxy::service::upload::forwarded_reply;

fn headers(list: &[(&str, &str)]) -> HeaderMap {
    let mut h = HeaderMap::new();
    for (k, v) in list {
        h.append(HeaderName::from_bytes(k.as_bytes()).unwrap(), HeaderValue::from_str(v).unwrap());
    }
    h
}

fn sorted(h: &HeaderMap) -> Vec<(String, String)> {
    let mut v: Vec<(String, String)> =
        h.iter().map(|(k, v)| (k.to_string(), v.to_str().unwrap().to_string())).collect();
    v.sort();
    v
}

fn pairs(list: &[(&str, &str)]) -> Vec<(String, String)> {
    list.iter().map(|(k, v)| (k.to_string(), v.to_string())).collect()
}

fn response(status: u16, list: &[(&str, &str)], body: &[u8]) -> Response {
    Response { status, headers: headers(list), body: body.to_vec() }
}

fn encryption(enc_type: &str) -> EncryptionConfig {
    EncryptionConfig {
        enable: true,
        password: "pw".to_string(),
        enc_type: enc_type.to_string(),
        enc_name: false,
        enc_suffix: None,
    }
}

fn backend(url: &str) -> BackendConfig {
    BackendConfig {
        name: "a".to_string(),
        listen: ListenConfig { port: 80 },
        webdav_host: WebdavHostConfig {
            url: url.to_string(),
            insecure_skip_verify: true,
            username: None,
            password: None,
        },
        encryption: None,
    }
}

fn encrypted_file(t: EncType, plain: &[u8]) -> Vec<u8> {
    let (cipher, mut file) = CipherBox::new_for_upload(t, b"pw");
    let mut job = CipherEngine::for_type(t).encrypt_job(cipher);
    file.extend(job.push(plain).concat());
    file.extend(job.finish().concat());
    file
}

fn body_of(reply: Reply, body: &[u8]) -> Vec<u8> {
    match reply.body {
        ReplyBody::Decrypt(mut job) => {
            let mut out = job.push(body);
            out.extend(job.finish());
            out.concat()
        }
        ReplyBody::Copy => body.to_vec(),
        ReplyBody::Empty => Vec::new(),
    }
}

fn ask(step: Step) -> (DownloadFlow, Request) {
    match step {
        Step::Ask(flow, request) => (flow, request),
        Step::Fail(e) => panic!("{}", e.message()),
        Step::Answer(_, reply) => panic!("{}", reply.status),
    }
}

fn answer(step: Step) -> (Record, Reply) {
    match step {
        Step::Answer(record, reply) => (record, reply),
        Step::Fail(e) => panic!("{}", e.message()),
        Step::Ask(_, request) => panic!("{}", request.method),
    }
}

#[test]
fn headers_of_a_connection_are_not_forwarded() {
    let h = headers(&[
        ("Content-Length", "5"),
        ("transfer-encoding", "chunked"),
        ("connection", "close"),
        ("keep-alive", "1"),
        ("te", "x"),
        ("trailer", "x"),
        ("upgrade", "x"),
        ("host", "x"),
        ("Accept", "a"),
        ("Accept", "b"),
        ("depth", "1"),
    ]);
    assert_eq!(sorted(&convert_headers(&h)), pairs(&[("accept", "b"), ("depth", "1")]));
}

#[test]
fn odd_header_names_are_forwarded() {
    let mut h = HeaderMap::new();
    h.insert(HeaderName::from_lowercase(b"x-\"odd\"").unwrap(), HeaderValue::from_bytes(&[200]).unwrap());
    let out = convert_headers(&h);
    assert_eq!(out.len(), 1);
    assert_eq!(out.iter().next().unwrap().1.as_bytes(), &[200]);
}

#[test]
fn headers_that_are_taken_off() {
    let h = headers(&[("content-length", "5"), ("transfer-encoding", "x"), ("etag", "e")]);
    assert_eq!(sorted(&strip_content_length(h)), pairs(&[("etag", "e")]));
    let mut h = headers(&[
        ("if-none-match", "a"),
        ("if-modified-since", "a"),
        ("if-match", "a"),
        ("if-unmodified-since", "a"),
        ("if-range", "a"),
        ("range", "bytes=0-1"),
    ]);
    strip_conditional_headers(&mut h);
    assert_eq!(sorted(&h), pairs(&[("range", "bytes=0-1")]));
    assert!(has_range(&h));
    assert!(has_range(&headers(&[("if-range", "x")])));
    assert!(!has_range(&headers(&[("depth", "x")])));
}

#[test]
fn values_of_headers() {
    assert_eq!(value_text(b"a b\tc"), Some("a b\tc".to_string()));
    assert_eq!(value_text(&[97, 200]), None);
    let mut h = HeaderMap::new();
    put_text(&mut h, "destination", "/a");
    put_text(&mut h, "destination", "/b\n");
    put_text(&mut h, "destination", "/b\u{7f}");
    assert_eq!(sorted(&h), pairs(&[("destination", "/a")]));
    for text in ["/a b\t~", "/\u{e9}", "a\u{0}", "a\u{1f}", "\u{80}"] {
        let mut h = HeaderMap::new();
        put_text(&mut h, "destination", text);
        assert_eq!(h.get("destination").cloned(), HeaderValue::from_str(text).ok());
    }
}

#[test]
fn room_for_headers() {
    let mut h = HeaderMap::new();
    for i in 0..MAX_NAMES {
        h.insert(HeaderName::from_bytes(format!("x-{}", i).as_bytes()).unwrap(), HeaderValue::from_static("v"));
    }
    assert!(header_room(&h, 1));
    assert!(!header_room(&h, 2));
    assert_eq!(convert_headers(&h).len(), MAX_NAMES);
    put_text(&mut h, "last", "v");
    assert!(!header_room(&h, 1));
    assert!(header_room(&h, 0));
}

#[test]
fn ranges_are_read() {
    assert_eq!(parse_range_text("bytes=0-499"), Some(RangeReq::From(0, Some(499))));
    assert_eq!(parse_range_text("bytes=500-"), Some(RangeReq::From(500, None)));
    assert_eq!(parse_range_text("bytes=-500"), Some(RangeReq::Suffix(500)));
    assert_eq!(parse_range_text("bytes=+5-+7"), Some(RangeReq::From(5, Some(7))));
    assert_eq!(
        parse_range_text("bytes=18446744073709551615-"),
        Some(RangeReq::From(u64::MAX, None))
    );
    for text in [
        "bytes=18446744073709551616-",
        "bytes=1-2,3-4",
        "bytes=",
        "bytes=-",
        "bytes=5",
        "bytes=a-b",
        "bytes= 1-2",
        "bytes=1-2-3",
        "items=1-2",
        "",
    ] {
        assert_eq!(parse_range_text(text), None);
    }
    assert_eq!(parse_range(&headers(&[("range", "bytes=1-2")])), Some(RangeReq::From(1, Some(2))));
    assert_eq!(parse_range(&headers(&[])), None);
}

#[test]
fn ranges_are_resolved() {
    assert_eq!(resolve_range(RangeReq::From(0, None), 10), Some((0, 9)));
    assert_eq!(resolve_range(RangeReq::From(3, Some(5)), 10), Some((3, 5)));
    assert_eq!(resolve_range(RangeReq::From(3, Some(50)), 10), Some((3, 9)));
    assert_eq!(resolve_range(RangeReq::From(10, None), 10), None);
    assert_eq!(resolve_range(RangeReq::From(5, Some(4)), 10), None);
    assert_eq!(resolve_range(RangeReq::From(0, None), 0), None);
    assert_eq!(resolve_range(RangeReq::Suffix(3), 10), Some((7, 9)));
    assert_eq!(resolve_range(RangeReq::Suffix(30), 10), Some((0, 9)));
    assert_eq!(resolve_range(RangeReq::Suffix(0), 10), None);
}

#[test]
fn announced_lengths() {
    assert_eq!(parse_total("bytes 0-63/1000"), Some(1000));
    assert_eq!(parse_total("bytes 0-63/ 1000 "), Some(1000));
    assert_eq!(parse_total("1000"), Some(1000));
    assert_eq!(parse_total("bytes 0-63/*"), None);
    assert_eq!(parse_total(""), None);
    assert_eq!(content_range_total(&headers(&[("content-range", "bytes */7")])), Some(7));
    assert_eq!(content_range_total(&headers(&[])), None);
    assert_eq!(content_length(&headers(&[("content-length", "7")])), Some(7));
    assert_eq!(content_length(&headers(&[("content-length", " 7")])), None);
}

#[test]
fn addresses() {
    let be = backend("http://h/dav//");
    assert_eq!(ProxyEngine::upstream_url(&be, "/a"), "http://h/dav/a");
    assert_eq!(ProxyEngine::upstream_url(&be, "a"), "http://h/dav/a");
    assert_eq!(ProxyEngine::upstream_url(&be, ""), "http://h/dav/");
}

#[test]
fn engines_and_the_health_of_the_server() {
    let mut engine = ProxyEngine::new(&backend("http://h"));
    assert!(engine.insecure);
    assert_eq!(engine.max_retries, 2);
    for _ in 0..5 {
        assert!(engine.check_circuit(1000).is_none());
        engine.settle(Record::Failure, 1000);
    }
    assert_eq!(engine.check_circuit(30_999).unwrap().message(), "bad gateway: circuit open");
    engine.settle(Record::Nothing, 2000);
    assert!(engine.begin_request(30_999, "GET", "http://h/a", &HeaderMap::new()).is_err());
    assert!(engine.check_circuit(31_000).is_none());
    engine.settle(Record::Failure, 40_000);
    engine.settle(Record::Success, 40_000);
    assert!(engine.check_circuit(40_000).is_none());
}

#[test]
fn requests_are_forwarded() {
    let mut engine = ProxyEngine::new(&backend("http://h"));
    let h = headers(&[("host", "x"), ("depth", "1")]);
    let request = engine.begin_request(1, "MKCOL", "http://h/a", &h).ok().unwrap();
    assert_eq!((request.method.as_str(), request.url.as_str()), ("MKCOL", "http://h/a"));
    assert_eq!(sorted(&request.headers), pairs(&[("depth", "1")]));
    let (record, reply) = forwarded_reply(response(503, &[("content-length", "5"), ("etag", "e")], b""));
    assert_eq!(record, Record::Failure);
    assert_eq!(reply.status, 503);
    assert_eq!(sorted(&reply.headers), pairs(&[("etag", "e")]));
    assert!(matches!(reply.body, ReplyBody::Copy));
    assert_eq!(forwarded_reply(response(499, &[], b"")).0, Record::Success);
}

#[test]
fn uploads_begin() {
    let mut engine = ProxyEngine::new(&backend("http://h"));
    let up = engine.begin_upload(1, "http://h/a", &headers(&[("x", "y")]), &encryption("AesGcm"));
    let up = up.ok().unwrap();
    assert_eq!(up.request.method, "PUT");
    assert_eq!(&up.header[..8], b"AES-GCM1");
    let e = engine.begin_upload(1, "http://h/a", &headers(&[]), &encryption("rot13")).err().unwrap();
    assert_eq!(e.message(), "internal error: unknown enc_type: rot13");
    for _ in 0..5 {
        engine.settle(Record::Failure, 1);
    }
    let e = engine.begin_upload(2, "http://h/a", &headers(&[]), &encryption("rot13")).err().unwrap();
    assert_eq!(e.message(), "bad gateway: circuit open");
}

#[test]
fn an_unknown_algorithm_downloads_plainly() {
    let (flow, request) = DownloadFlow::begin("u", &headers(&[("range", "bytes=1-2")]), &encryption("rot13"));
    assert_eq!(request.method, "GET");
    assert_eq!(sorted(&request.headers), pairs(&[("range", "bytes=1-2")]));
    assert_eq!(flow.transport_error("x").message(), "proxy error: download: x");
    let (record, reply) = answer(flow.respond(response(200, &[("content-length", "5"), ("etag", "e")], b"")));
    assert_eq!(record, Record::Success);
    assert_eq!(sorted(&reply.headers), pairs(&[("etag", "e")]));
    assert_eq!(body_of(reply, b"plain"), b"plain");
}

#[test]
fn files_that_are_not_encrypted_are_downloaded_plainly() {
    let (flow, request) = DownloadFlow::begin("u", &headers(&[("if-match", "x")]), &encryption("aesctr"));
    assert_eq!(
        sorted(&request.headers),
        pairs(&[("accept-encoding", "identity"), ("range", "bytes=0-63")])
    );
    assert_eq!(flow.transport_error("x").message(), "proxy error: header probe: x");
    assert!(flow.reads_body());
    let probe = response(206, &[], &[1; 64]);
    assert!(flow.accepts(&probe));
    let (flow, request) = ask(flow.respond(probe));
    assert!(!flow.reads_body());
    assert_eq!(sorted(&request.headers), pairs(&[("if-match", "x")]));
}

#[test]
fn another_algorithm_is_refused() {
    let file = encrypted_file(EncType::AesCtr, b"contents");
    let (flow, _) = DownloadFlow::begin("u", &headers(&[]), &encryption("aesgcm"));
    match flow.respond(response(206, &[], &file[..64])) {
        Step::Fail(e) => assert_eq!(e.message(), "internal error: 加密类型不匹配"),
        _ => panic!("the download must fail"),
    }
    let (flow, _) = HeadFlow::begin("u", &headers(&[]), &encryption("aesgcm"));
    match flow.respond(response(206, &[], &file[..64])) {
        HeadStep::Fail(e) => assert_eq!(e.message(), "internal error: 加密类型不匹配"),
        _ => panic!("the request must fail"),
    }
}

#[test]
fn whole_files_are_downloaded() {
    for name in ["aesctr", "chacha20", "aesgcm", "chacha20-poly1305", "aesgcmsiv"] {
        let plain = vec![7u8; 70000];
        let file = encrypted_file(EncType::from_str(name).unwrap(), &plain);
        let total = format!("bytes 0-63/{}", file.len());
        let (flow, _) = DownloadFlow::begin("u", &headers(&[("if-none-match", "x")]), &encryption(name));
        let (flow, request) =
            ask(flow.respond(response(206, &[("content-range", total.as_str())], &file[..64])));
        assert_eq!(request.method, "GET");
        assert_eq!(sorted(&request.headers), pairs(&[("accept-encoding", "identity")]));
        let (record, reply) =
            answer(flow.respond(response(200, &[("content-length", "1"), ("etag", "e")], b"")));
        assert_eq!(record, Record::Success);
        assert_eq!(reply.status, 200);
        assert_eq!(
            sorted(&reply.headers),
            pairs(&[("accept-ranges", "bytes"), ("content-length", "70000"), ("etag", "e")])
        );
        assert_eq!(body_of(reply, &file), plain);
    }
}

#[test]
fn lengths_are_asked_for() {
    let file = encrypted_file(EncType::AesGcm, b"contents");
    let (flow, _) = DownloadFlow::begin("u", &headers(&[]), &encryption("aesgcm"));
    let (flow, request) = ask(flow.respond(response(200, &[], &file)));
    assert_eq!(request.method, "HEAD");
    assert_eq!(flow.transport_error("x").message(), "proxy error: head probe: x");
    let (flow, request) = ask(flow.respond(response(405, &[("content-length", "9")], b"")));
    assert_eq!(request.method, "GET");
    assert_eq!(
        sorted(&request.headers),
        pairs(&[("accept-encoding", "identity"), ("range", "bytes=0-0")])
    );
    assert_eq!(flow.transport_error("x").message(), "proxy error: length probe: x");
    let (flow, request) = ask(flow.respond(response(200, &[], b"")));
    assert_eq!(sorted(&request.headers), pairs(&[("accept-encoding", "identity")]));
    let (record, reply) = answer(flow.respond(response(500, &[], b"")));
    assert_eq!(record, Record::Failure);
    assert!(reply.headers.is_empty());
    assert_eq!(body_of(reply, &file), b"contents");
}

#[test]
fn parts_are_downloaded() {
    for name in ["aesctr", "chacha20", "aesgcm", "chacha20poly1305", "aes-gcm-siv"] {
        let plain: Vec<u8> = (0..200000).map(|i| (i % 253) as u8).collect();
        let file = encrypted_file(EncType::from_str(name).unwrap(), &plain);
        let total = format!("bytes 0-63/{}", file.len());
        let client = headers(&[("range", "bytes=70000-70009"), ("if-range", "x")]);
        let (flow, _) = DownloadFlow::begin("u", &client, &encryption(name));
        let (flow, request) =
            ask(flow.respond(response(206, &[("content-range", total.as_str())], &file[..64])));
        let asked = request.headers.get("range").unwrap().to_str().unwrap().to_string();
        let (from, to) = asked.strip_prefix("bytes=").unwrap().split_once('-').unwrap();
        let part = &file[from.parse().unwrap()..=to.parse().unwrap()];
        assert!(part.len() < 70000);
        assert_eq!(flow.transport_error("x").message(), "proxy error: range download: x");
        let resp = response(206, &[("content-type", "text/plain"), ("etag", "e")], b"");
        assert!(flow.accepts(&resp));
        let (_, reply) = answer(flow.respond(resp));
        assert_eq!(reply.status, 206);
        assert_eq!(
            sorted(&reply.headers),
            pairs(&[
                ("accept-ranges", "bytes"),
                ("content-length", "10"),
                ("content-range", "bytes 70000-70009/200000"),
                ("content-type", "text/plain"),
            ])
        );
        assert_eq!(body_of(reply, part), &plain[70000..70010]);
    }
}

#[test]
fn parts_of_servers_without_ranges() {
    let plain: Vec<u8> = (0..100000).map(|i| (i % 253) as u8).collect();
    let file = encrypted_file(EncType::AesGcm, &plain);
    let (flow, _) = DownloadFlow::begin("u", &headers(&[("range", "bytes=-10")]), &encryption("aesgcm"));
    let (flow, request) = ask(flow.respond(response(200, &[], &file)));
    assert_eq!(request.method, "HEAD");
    let len = file.len().to_string();
    let (flow, _) = ask(flow.respond(response(200, &[("content-length", len.as_str())], b"")));
    let (_, reply) = answer(flow.respond(response(200, &[], b"")));
    assert_eq!(reply.status, 206);
    assert_eq!(body_of(reply, &file), &plain[99990..]);
}

#[test]
fn parts_that_are_refused() {
    let file = encrypted_file(EncType::AesCtr, b"0123456789");
    let total = format!("bytes 0-63/{}", file.len());
    let probe = || response(206, &[("content-range", total.as_str())], &file[..64]);
    let (flow, _) = DownloadFlow::begin("u", &headers(&[("range", "bytes=10-")]), &encryption("aesctr"));
    let (record, reply) = answer(flow.respond(probe()));
    assert_eq!(record, Record::Nothing);
    assert_eq!(reply.status, 416);
    assert_eq!(sorted(&reply.headers), pairs(&[("content-range", "bytes */10")]));
    let (flow, _) = DownloadFlow::begin("u", &headers(&[("range", "bytes=1-")]), &encryption("aesctr"));
    let (flow, _) = ask(flow.respond(probe()));
    let (record, reply) = answer(flow.respond(response(404, &[("content-length", "3"), ("x", "y")], b"")));
    assert_eq!(record, Record::Success);
    assert_eq!(reply.status, 404);
    assert_eq!(sorted(&reply.headers), pairs(&[("x", "y")]));
    assert!(body_of(reply, b"abc").is_empty());
}

#[test]
fn ranges_that_are_not_understood_give_the_whole() {
    let file = encrypted_file(EncType::AesCtr, b"0123456789");
    let total = format!("bytes 0-63/{}", file.len());
    let client = headers(&[("range", "bytes=1-2,4-5")]);
    let (flow, _) = DownloadFlow::begin("u", &client, &encryption("aesctr"));
    let (flow, request) =
        ask(flow.respond(response(206, &[("content-range", total.as_str())], &file[..64])));
    assert!(request.headers.get("range").is_none());
    let (_, reply) = answer(flow.respond(response(200, &[], b"")));
    assert_eq!(body_of(reply, &file), b"0123456789");
}

#[test]
fn what_cannot_be_counted_is_not_accepted() {
    let file = encrypted_file(EncType::AesCtr, b"");
    let (flow, _) = DownloadFlow::begin("u", &headers(&[("range", "bytes=-5")]), &encryption("aesctr"));
    assert!(!flow.accepts(&response(206, &[("content-range", "bytes 0-63/64")], &file)));
    assert!(flow.accepts(&response(206, &[("content-range", "bytes 0-63/65")], &file)));
    let file = encrypted_file(EncType::AesGcm, b"");
    let (flow, _) = DownloadFlow::begin("u", &headers(&[("range", "bytes=-5")]), &encryption("aesgcm"));
    let huge = format!("bytes 0-63/{}", u64::MAX - 100);
    assert!(!flow.accepts(&response(206, &[("content-range", huge.as_str())], &file)));
    let file = encrypted_file(EncType::ChaCha20, b"");
    let (flow, _) = DownloadFlow::begin(
        "u",
        &headers(&[("range", "bytes=300000000000-")]),
        &encryption("chacha20"),
    );
    let probe = response(206, &[("content-range", "bytes 0-63/400000000000")], &file);
    assert!(flow.accepts(&probe));
    let (flow, _) = ask(flow.respond(probe));
    assert!(!flow.accepts(&response(206, &[], b"")));
    assert!(flow.accepts(&response(200, &[], b"")));
}

#[test]
fn headers_of_encrypted_files() {
    let file = encrypted_file(EncType::AesGcm, b"contents");
    let total = format!("bytes 0-63/{}", file.len());
    let (flow, request) = HeadFlow::begin("u", &headers(&[]), &encryption("aesgcm"));
    assert_eq!(request.method, "GET");
    assert_eq!(flow.transport_error("x").message(), "proxy error: header probe: x");
    let probe = response(206, &[("content-range", total.as_str()), ("content-type", "t/x")], &file[..64]);
    match flow.respond(probe) {
        HeadStep::Answer(reply) => {
            assert_eq!(reply.status, 200);
            assert_eq!(
                sorted(&reply.headers),
                pairs(&[("accept-ranges", "bytes"), ("content-length", "8"), ("content-type", "t/x")])
            );
        }
        _ => panic!("there must be an answer"),
    }
    let (flow, _) = HeadFlow::begin("u", &headers(&[]), &encryption("aesgcm"));
    let flow = match flow.respond(response(200, &[], &file)) {
        HeadStep::Ask(flow, request) => {
            assert_eq!(request.method, "HEAD");
            flow
        }
        _ => panic!("there must be a question"),
    };
    assert_eq!(flow.transport_error("x").message(), "proxy error: head probe: x");
    let flow = match flow.respond(response(200, &[], b"")) {
        HeadStep::Ask(flow, request) => {
            assert_eq!(request.method, "GET");
            flow
        }
        _ => panic!("there must be a question"),
    };
    match flow.respond(response(206, &[("content-range", "bytes 0-0/80")], b"")) {
        HeadStep::Answer(reply) => assert_eq!(
            sorted(&reply.headers),
            pairs(&[("accept-ranges", "bytes"), ("content-length", "0")])
        ),
        _ => panic!("there must be an answer"),
    }
}

#[test]
fn headers_of_plain_files() {
    let client = headers(&[("range", "bytes=0-1"), ("if-match", "x"), ("y", "z")]);
    let (flow, request) = HeadFlow::begin_plain("u", &client);
    assert_eq!(request.method, "HEAD");
    assert!(!flow.reads_body());
    assert_eq!(sorted(&request.headers), pairs(&[("y", "z")]));
    assert_eq!(flow.transport_error("x").message(), "proxy error: head: x");
    match flow.respond(response(200, &[("content-length", "5")], b"")) {
        HeadStep::Answer(reply) => {
            assert_eq!(sorted(&reply.headers), pairs(&[("content-length", "5")]))
        }
        _ => panic!("there must be an answer"),
    }
}
