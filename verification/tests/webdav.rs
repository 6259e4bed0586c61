use axum::http::header::{HeaderMap, HeaderName, HeaderValue};
use whim_dav_proxy::config::{BackendConfig, EncryptionConfig, ListenConfig, WebdavHostConfig};
use whim_dav_proxy::crypto::filename::FileNameConverter;
use whim_dav_proxy::service::proxy::Response;
use whim_dav_proxy::service::webdav_handler::{
    decrypt_propfind_xml, destination_from, is_missing_resource, strip_hrefs, strip_prefix_from,
    After, Next, Plan, WebDavHandler,
};

fn headers(list: &[(&str, &str)]) -> HeaderMap {
    let mut h = HeaderMap::new();
    for (k, v) in list {
        h.append(HeaderName::from_bytes(k.as_bytes()).unwrap(), HeaderValue::from_str(v).unwrap());
    }
    h
}

fn handler(enable: bool, enc_name: bool) -> WebDavHandler {
    WebDavHandler::new(BackendConfig {
        name: "a".to_string(),
        listen: ListenConfig { port: 80 },
        webdav_host: WebdavHostConfig {
            url: "https://h/dav".to_string(),
            insecure_skip_verify: false,
            username: Some("user".to_string()),
            password: Some("pass".to_string()),
        },
        encryption: Some(EncryptionConfig {
            enable,
            password: "123456".to_string(),
            enc_type: "aesctr".to_string(),
            enc_name,
            enc_suffix: None,
        }),
    })
}

fn forward(plan: Plan) -> (String, String, HeaderMap, bool, After) {
    match plan {
        Plan::Forward { method, url, headers, with_body, after } => {
            (method, url, headers, with_body, after)
        }
        _ => panic!("the request must be forwarded"),
    }
}

fn answered(next: Next) -> Response {
    match next {
        Next::Answer(answer) => answer,
        Next::Forward { .. } => panic!("there must be an answer"),
    }
}

fn response(status: u16, list: &[(&str, &str)], body: &str) -> Response {
    Response { status, headers: headers(list), body: body.as_bytes().to_vec() }
}

#[test]
fn files_are_stored_under_encrypted_names() {
    let h = handler(true, true);
    assert!(matches!(
        h.handle("PUT", "/docs/abc", &headers(&[])),
        Plan::Upload { url } if url == "https://h/dav/docs/vaDk"
    ));
    assert!(matches!(
        h.handle("GET", "/docs/abc", &headers(&[])),
        Plan::Download { url } if url == "https://h/dav/docs/vaDk"
    ));
    assert!(matches!(
        h.handle("HEAD", "/docs/abc", &headers(&[])),
        Plan::Head { url, decrypt: true } if url == "https://h/dav/docs/vaDk"
    ));
}

#[test]
fn names_can_stay_plain() {
    let h = handler(true, false);
    assert!(matches!(
        h.handle("GET", "/docs/abc", &headers(&[])),
        Plan::Download { url } if url == "https://h/dav/docs/abc"
    ));
    let (_, url, _, _, after) = forward(h.handle("DELETE", "/docs/abc", &headers(&[])));
    assert_eq!(url, "https://h/dav/docs/abc");
    assert!(matches!(after, After::Reply));
}

#[test]
fn without_encryption_requests_are_forwarded() {
    let h = handler(false, true);
    for (method, body) in [("GET", false), ("PUT", true), ("DELETE", false), ("MKCOL", true)] {
        let (m, url, _, with_body, after) = forward(h.handle(method, "/a/b", &headers(&[])));
        assert_eq!((m.as_str(), url.as_str(), with_body), (method, "https://h/dav/a/b", body));
        assert!(matches!(after, After::Reply));
    }
    assert!(matches!(
        h.handle("HEAD", "/a/b", &headers(&[])),
        Plan::Head { url, decrypt: false } if url == "https://h/dav/a/b"
    ));
}

#[test]
fn prefixes_of_paths() {
    let h = handler(false, false);
    let url = |method: &str, path: &str| forward(h.handle(method, path, &headers(&[]))).1;
    assert_eq!(url("GET", "/dav/a"), "https://h/dav/a");
    assert_eq!(url("GET", "/dav"), "https://h/dav/");
    assert_eq!(url("GET", ""), "https://h/dav/");
    assert_eq!(url("MKCOL", "/dav/a"), "https://h/dav/dav/a");
    assert_eq!(strip_prefix_from("/dav", "/dav/x"), "/x");
    assert_eq!(strip_prefix_from("/dav", "/other"), "/other");
    assert_eq!(strip_prefix_from("", "/x"), "/x");
    assert_eq!(strip_prefix_from("/", "/x"), "/x");
}

#[test]
fn deletions_fall_back_to_the_plain_name() {
    let h = handler(true, true);
    let (_, url, _, with_body, after) = forward(h.handle("DELETE", "/docs/abc", &headers(&[("x", "y")])));
    assert_eq!(url, "https://h/dav/docs/vaDk");
    assert!(!with_body);
    match h.follow(after, response(404, &[], "")) {
        Next::Forward { method, url, headers } => {
            assert_eq!((method.as_str(), url.as_str()), ("DELETE", "https://h/dav/docs/abc"));
            assert_eq!(headers.get("x").unwrap(), "y");
        }
        Next::Answer(_) => panic!("the request must be repeated"),
    }
    let (.., after) = forward(h.handle("DELETE", "/docs/abc", &headers(&[])));
    assert_eq!(answered(h.follow(after, response(204, &[], ""))).status, 204);
    for (status, missing) in [(404, true), (405, true), (410, true), (403, false), (200, false)] {
        assert_eq!(is_missing_resource(status), missing);
    }
}

#[test]
fn files_are_moved_and_copied() {
    let h = handler(true, true);
    let client = headers(&[("destination", "http://proxy:411/dav/new/abc"), ("overwrite", "T")]);
    for method in ["MOVE", "COPY"] {
        let (m, url, sent, with_body, after) = forward(h.handle(method, "/docs/abc", &client));
        assert_eq!((m.as_str(), url.as_str(), with_body), (method, "https://h/dav/docs/vaDk", false));
        assert_eq!(sent.get("destination").unwrap(), "https://h/dav/new/vaDk");
        assert_eq!(sent.get("overwrite").unwrap(), "T");
        match (method, h.follow(after, response(404, &[], "no"))) {
            ("MOVE", Next::Forward { url, headers, .. }) => {
                assert_eq!(url, "https://h/dav/docs/abc");
                assert_eq!(headers.get("destination").unwrap(), "https://h/dav/new/abc");
            }
            ("COPY", Next::Answer(answer)) => assert_eq!((answer.status, answer.body), (404, b"no".to_vec())),
            _ => panic!("only a move falls back"),
        }
    }
}

#[test]
fn destinations() {
    let h = handler(true, true);
    assert_eq!(h.destination_path("/dav/x"), Some("/x".to_string()));
    assert_eq!(h.destination_path("https://p/dav/a b"), Some("/a%20b".to_string()));
    assert_eq!(h.destination_path("http://"), None);
    assert_eq!(h.destination_path("/dav"), None);
    assert_eq!(h.destination_path("x"), Some("x".to_string()));
    assert_eq!(destination_from("/dav", Some("/dav/y".to_string())), Some("/y".to_string()));
    assert_eq!(destination_from("/dav", None), None);
    let (.., sent, _, _) = forward(h.handle("COPY", "/a", &headers(&[("destination", "http://")])));
    assert_eq!(sent.get("destination").unwrap(), "http://");
}

#[test]
fn listings_show_plain_names() {
    let h = handler(true, true);
    let xml = "<D:r><D:href>/dav/docs/vaDk</D:href><x/><D:href>/dav/docs/</D:href>\
               <D:href>/dav/docs/vaDk.txt</D:href></D:r><D:href>rest";
    let (m, url, _, with_body, after) = forward(h.handle("PROPFIND", "/dav/docs/", &headers(&[])));
    assert_eq!((m.as_str(), url.as_str(), with_body), ("PROPFIND", "https://h/dav/docs/", true));
    let answer = answered(h.follow(
        after,
        response(207, &[("content-length", "1"), ("transfer-encoding", "x"), ("dav", "1")], xml),
    ));
    assert_eq!(answer.status, 207);
    assert_eq!(answer.headers.len(), 1);
    assert_eq!(
        String::from_utf8(answer.body).unwrap(),
        "<D:r><D:href>/docs/abc</D:href><x/><D:href>/docs/</D:href>\
         <D:href>/docs/abc</D:href></D:r><D:href>rest"
    );
}

#[test]
fn listings_show_the_paths_that_clients_gave() {
    let enc = handler(true, true).cfg.encryption.unwrap();
    let names = FileNameConverter::new("123456", "aesctr", None);
    let paths = ["/a.txt", "/docs/abc", "/docs/x y.tar.gz", "/d/e/f"];
    let texts = ["<D:r>", "<D:hre", "</D:href>", "", "</D:r><D:href>rest"];
    let listing = |show: &dyn Fn(&str) -> String| {
        let mut all = String::new();
        for (text, path) in texts.iter().zip(paths) {
            all += &format!("{}<D:href>{}</D:href>", text, show(path));
        }
        all + texts[4]
    };
    let stored = listing(&|path| names.encrypt_path(path));
    assert!(paths.iter().all(|path| !stored.contains(path)));
    let shown = decrypt_propfind_xml(stored.into_bytes(), &enc);
    assert_eq!(String::from_utf8(shown).unwrap(), listing(&|path| path.to_string()));
}

#[test]
fn listings_of_other_kinds() {
    let h = handler(true, true);
    let body = "<D:href>/dav/docs/vaDk</D:href>";
    let listing = |h: &WebDavHandler, status: u16, body: &[u8]| {
        let resp = Response { status, headers: HeaderMap::new(), body: body.to_vec() };
        answered(h.follow(After::Listing, resp)).body
    };
    assert_eq!(listing(&h, 200, body.as_bytes()), b"<D:href>/docs/vaDk</D:href>");
    assert_eq!(listing(&handler(true, false), 207, body.as_bytes()), b"<D:href>/docs/vaDk</D:href>");
    assert_eq!(listing(&h, 207, &[0xff, b'/', b'd']), &[0xff, b'/', b'd']);
    assert_eq!(listing(&h, 207, b""), b"");
    let resp = response(207, &[], body);
    let answer = answered(h.follow_with("", After::Listing, resp));
    assert_eq!(answer.body, b"<D:href>/dav/docs/abc</D:href>");
    assert_eq!(strip_hrefs("/dav", b"/dav/dav/x".to_vec()), b"/dav/x");
    assert_eq!(strip_hrefs("/", b"//x".to_vec()), b"//x");
}

#[test]
fn credentials_are_sent() {
    let h = handler(true, true);
    let mut client = headers(&[("authorization", "Basic other")]);
    WebDavHandler::inject_auth(&mut client, &h.cfg);
    assert_eq!(client.get("authorization").unwrap(), "Basic dXNlcjpwYXNz");
    let mut cfg = h.cfg.clone();
    cfg.webdav_host.password = None;
    let mut client = headers(&[("authorization", "Basic other")]);
    WebDavHandler::inject_auth(&mut client, &cfg);
    assert_eq!(client.get("authorization").unwrap(), "Basic other");
}
