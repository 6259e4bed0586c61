//! What is done for a request of a WebDAV client.
use axum::http::header::{HeaderMap, HeaderValue};
use vstd::prelude::*;
use vstd::utf8::{
    decode_utf8, encode_utf8, encode_utf8_decode_utf8, encode_utf8_valid_utf8, valid_utf8,
};

use crate::config::{
    opt_text, parsed_url_path, standard_alphabet, url_path, BackendConfig, EncryptionConfig,
    WebdavHostConfig,
};
use crate::crypto::filename::{
    is_plain_path, law_plain_path_round_trip, law_prefix_stays, normal_suffix, FileNameConverter,
    NameScheme,
};
use crate::crypto::mix64::{ascii_text, encode64, lemma_encode64};
use crate::service::headers::{
    copy_of, field_text, has_room, header_text, header_values, is_header_value, is_hop_header,
    is_visible_text, law_visible_value, lemma_names, lemma_texts, lemma_visible_join, no_values,
    put_text, set_header, strip_content_length, with_text, with_value, without_length, Fields,
};
use crate::service::proxy::{address, law_address, ProxyEngine, Response, ResponseView};
use crate::service::requests::{
    first_byte_request, head_request, length_request, part_request, plain_request, probe_request,
    whole_request,
};
use crate::text::{
    chars_of, find, find_from, has_prefix, join2, lacks, lemma_find_behind, lemma_find_first,
    lemma_find_from, lemma_find_none, lemma_lacks_across, occurs_at, starts_with, str_eq,
    string_of, sub_string,
};

verus! {

/// `std::str::from_utf8`: the text of bytes that are UTF-8, and of no others.
#[verifier::external_body]
fn text_of_utf8(bytes: &[u8]) -> (r: Option<String>)
    ensures
        r is Some <==> valid_utf8(bytes@),
        r matches Some(s) ==> s@ == decode_utf8(bytes@),
{
    std::str::from_utf8(bytes).ok().map(|s| s.to_string())
}

/// A path without a prefix. An empty prefix, or one that the path has not got,
/// changes nothing.
pub open spec fn stripped(prefix: Seq<char>, path: Seq<char>) -> Seq<char> {
    if prefix.len() == 0 || prefix == "/"@ || !starts_with(path, prefix) {
        path
    } else {
        path.skip(prefix.len() as int)
    }
}

/// Takes a prefix off a path.
pub fn strip_prefix_from(prefix: &str, path: &str) -> (r: String)
    ensures
        r@ == stripped(prefix@, path@),
{
    if prefix.unicode_len() == 0 || str_eq(prefix, "/") || !has_prefix(path, prefix) {
        path.to_string()
    } else {
        let chars: Vec<char> = chars_of(path);
        let n: usize = prefix.unicode_len();
        assert(chars@.subrange(n as int, chars@.len() as int) =~= path@.skip(n as int));
        sub_string(&chars, n, chars.len())
    }
}

/// Whether files are encrypted.
pub open spec fn encrypts(cfg: BackendConfig) -> bool {
    cfg.encryption matches Some(enc) && enc.enable
}

/// Whether names of files are encrypted.
pub open spec fn encrypts_names(cfg: BackendConfig) -> bool {
    cfg.encryption matches Some(enc) && enc.enable && enc.enc_name
}

/// How names of files are encrypted.
pub open spec fn name_scheme(enc: EncryptionConfig) -> NameScheme {
    NameScheme {
        password: enc.password@,
        enc_type: enc.enc_type@,
        enc_suffix: normal_suffix(opt_text(enc.enc_suffix)),
    }
}

/// The path under which a file is stored.
pub open spec fn stored_path(cfg: BackendConfig, path: Seq<char>) -> Seq<char> {
    if encrypts_names(cfg) {
        name_scheme(cfg.encryption->0).encrypted_path(path)
    } else {
        path
    }
}

/// The address at which a file is stored.
pub open spec fn stored_url(cfg: BackendConfig, path: Seq<char>) -> Seq<char> {
    address(cfg.webdav_host.url@, stored_path(cfg, path))
}

/// The address of a path.
pub open spec fn plain_url(cfg: BackendConfig, path: Seq<char>) -> Seq<char> {
    address(cfg.webdav_host.url@, path)
}

/// Whether a status says that there is no such file.
pub open spec fn is_missing(status: u16) -> bool {
    status == 404 || status == 405 || status == 410
}

/// Tests whether a status says that there is no such file.
pub fn is_missing_resource(status: u16) -> (r: bool)
    ensures
        r == is_missing(status),
{
    matches!(status, 404 | 405 | 410)
}

/// What becomes of the response to a forwarded request.
pub enum AfterView {
    /// It is the answer.
    Reply,
    /// It is the answer, unless it says that there is no such file: then the
    /// request is repeated for another address.
    OrElse { method: Seq<char>, url: Seq<char>, headers: Fields },
    /// It is the answer, with the names in it made readable.
    Listing,
}

/// What is done for a request of a client.
pub enum PlanView {
    /// It is forwarded, with or without its body.
    Forward {
        method: Seq<char>,
        url: Seq<char>,
        headers: Fields,
        with_body: bool,
        after: AfterView,
    },
    /// An encrypted file is downloaded.
    Download { url: Seq<char> },
    /// The headers of a file are asked for; `decrypt` if it is encrypted.
    Head { url: Seq<char>, decrypt: bool },
    /// A file is uploaded and encrypted.
    Upload { url: Seq<char> },
}

/// Headers in which the destination is an address upstream.
pub open spec fn with_destination(fields: Fields, url: Option<Seq<char>>) -> Fields {
    match url {
        Some(url) => with_text(fields, "destination"@, url),
        None => fields,
    }
}

/// What is done to move or copy a file.
pub open spec fn move_or_copy(
    cfg: BackendConfig,
    method: Seq<char>,
    dav_path: Seq<char>,
    fields: Fields,
    destination: Option<Seq<char>>,
) -> PlanView {
    PlanView::Forward {
        method,
        url: stored_url(cfg, dav_path),
        headers: with_destination(
            fields,
            match destination {
                Some(path) => Some(stored_url(cfg, path)),
                None => None,
            },
        ),
        with_body: false,
        after: if method == "MOVE"@ {
            AfterView::OrElse {
                method,
                url: plain_url(cfg, dav_path),
                headers: with_destination(
                    fields,
                    match destination {
                        Some(path) => Some(plain_url(cfg, path)),
                        None => None,
                    },
                ),
            }
        } else {
            AfterView::Reply
        },
    }
}

/// What is done to delete a file.
pub open spec fn deletion(cfg: BackendConfig, dav_path: Seq<char>, fields: Fields) -> PlanView {
    PlanView::Forward {
        method: "DELETE"@,
        url: stored_url(cfg, dav_path),
        headers: fields,
        with_body: false,
        after: if encrypts_names(cfg) {
            AfterView::OrElse {
                method: "DELETE"@,
                url: plain_url(cfg, dav_path),
                headers: fields,
            }
        } else {
            AfterView::Reply
        },
    }
}

/// A request that is forwarded, and whose response is the answer.
pub open spec fn passed(
    method: Seq<char>,
    url: Seq<char>,
    fields: Fields,
    with_body: bool,
) -> PlanView {
    PlanView::Forward { method, url, headers: fields, with_body, after: AfterView::Reply }
}

/// What is done for a request: its method, its path, the path without the
/// prefix of the upstream server, its headers, and the path of its destination
/// without that prefix.
pub open spec fn planned(
    cfg: BackendConfig,
    method: Seq<char>,
    path: Seq<char>,
    dav_path: Seq<char>,
    fields: Fields,
    destination: Option<Seq<char>>,
) -> PlanView {
    if method == "PUT"@ {
        if encrypts(cfg) {
            PlanView::Upload { url: stored_url(cfg, dav_path) }
        } else {
            passed(method, plain_url(cfg, dav_path), fields, true)
        }
    } else if method == "GET"@ {
        if encrypts(cfg) {
            PlanView::Download { url: stored_url(cfg, dav_path) }
        } else {
            passed(method, plain_url(cfg, dav_path), fields, false)
        }
    } else if method == "HEAD"@ {
        PlanView::Head { url: stored_url(cfg, dav_path), decrypt: encrypts(cfg) }
    } else if method == "PROPFIND"@ {
        PlanView::Forward {
            method,
            url: plain_url(cfg, dav_path),
            headers: fields,
            with_body: true,
            after: AfterView::Listing,
        }
    } else if method == "DELETE"@ {
        deletion(cfg, dav_path, fields)
    } else if method == "MOVE"@ || method == "COPY"@ {
        move_or_copy(cfg, method, dav_path, fields, destination)
    } else {
        passed(method, plain_url(cfg, path), fields, true)
    }
}

/// What becomes of the response to a forwarded request.
pub enum After {
    Reply,
    OrElse { method: String, url: String, headers: HeaderMap<HeaderValue> },
    Listing,
}

impl View for After {
    type V = AfterView;

    open spec fn view(&self) -> AfterView {
        match self {
            After::Reply => AfterView::Reply,
            After::OrElse { method, url, headers } => AfterView::OrElse {
                method: method@,
                url: url@,
                headers: header_values(*headers),
            },
            After::Listing => AfterView::Listing,
        }
    }
}

/// What is done for a request of a client.
pub enum Plan {
    Forward {
        method: String,
        url: String,
        headers: HeaderMap<HeaderValue>,
        with_body: bool,
        after: After,
    },
    Download { url: String },
    Head { url: String, decrypt: bool },
    Upload { url: String },
}

impl View for Plan {
    type V = PlanView;

    open spec fn view(&self) -> PlanView {
        match self {
            Plan::Forward { method, url, headers, with_body, after } => PlanView::Forward {
                method: method@,
                url: url@,
                headers: header_values(*headers),
                with_body: *with_body,
                after: after@,
            },
            Plan::Download { url } => PlanView::Download { url: url@ },
            Plan::Head { url, decrypt } => PlanView::Head { url: url@, decrypt: *decrypt },
            Plan::Upload { url } => PlanView::Upload { url: url@ },
        }
    }
}

/// Decides what is done for the requests to a backend.
pub struct WebDavHandler {
    pub cfg: BackendConfig,
}

/// The converter of an encryption.
fn converter_of(enc: &EncryptionConfig) -> (r: FileNameConverter)
    ensures
        r@ == name_scheme(*enc),
{
    let suffix: Option<&str> = match &enc.enc_suffix {
        Some(s) => Some(s.as_str()),
        None => None,
    };
    FileNameConverter::new(&enc.password, &enc.enc_type, suffix)
}

impl WebDavHandler {
    pub fn new(cfg: BackendConfig) -> (r: Self)
        ensures
            r.cfg == cfg,
    {
        WebDavHandler { cfg }
    }

    /// Whether files are encrypted.
    pub fn encryption_enabled(&self) -> (r: bool)
        ensures
            r == encrypts(self.cfg),
    {
        match &self.cfg.encryption {
            Some(enc) => enc.enable,
            None => false,
        }
    }

    /// Whether names of files are encrypted.
    fn names_encrypted(&self) -> (r: bool)
        ensures
            r == encrypts_names(self.cfg),
    {
        match &self.cfg.encryption {
            Some(enc) => enc.enable && enc.enc_name,
            None => false,
        }
    }

    /// Takes the prefix of the upstream server off a path.
    pub fn strip_upstream_prefix(&self, path: &str) -> (r: String)
        ensures
            r@ == stripped(self.cfg.webdav_host.prefix(), path@),
    {
        strip_prefix_from(&self.cfg.webdav_host.path_prefix(), path)
    }

    /// The path under which a file is stored.
    pub fn encrypt_path(&self, path: &str) -> (r: String)
        ensures
            r@ == stored_path(self.cfg, path@),
    {
        match &self.cfg.encryption {
            Some(enc) => if enc.enable && enc.enc_name {
                converter_of(enc).encrypt_path(path)
            } else {
                path.to_string()
            },
            None => path.to_string(),
        }
    }

    /// The address at which a file is stored.
    fn stored_address(&self, path: &str) -> (r: String)
        ensures
            r@ == stored_url(self.cfg, path@),
    {
        ProxyEngine::upstream_url(&self.cfg, &self.encrypt_path(path))
    }

    /// The address of a path.
    fn plain_address(&self, path: &str) -> (r: String)
        ensures
            r@ == plain_url(self.cfg, path@),
    {
        ProxyEngine::upstream_url(&self.cfg, path)
    }

    /// A copy of headers in which the destination is an address upstream.
    fn destination_headers(&self, headers: &HeaderMap<HeaderValue>, url: Option<String>) -> (r:
        HeaderMap<HeaderValue>)
        requires
            has_room(*headers, 1),
        ensures
            header_values(r) == with_destination(header_values(*headers), opt_text(url)),
    {
        proof {
            lemma_names();
        }
        let mut copy: HeaderMap<HeaderValue> = copy_of(headers);
        if let Some(url) = url {
            put_text(&mut copy, "destination", &url);
        }
        copy
    }

    /// Decides how a file is moved or copied.
    fn handle_move_or_copy(
        &self,
        dav_path: &str,
        headers: &HeaderMap<HeaderValue>,
        method: &str,
        destination: &Option<String>,
    ) -> (r: Plan)
        requires
            has_room(*headers, 1),
        ensures
            r@ == move_or_copy(
                self.cfg,
                method@,
                dav_path@,
                header_values(*headers),
                opt_text(*destination),
            ),
    {
        let stored: Option<String> = match destination {
            Some(path) => Some(self.stored_address(path)),
            None => None,
        };
        let new_headers: HeaderMap<HeaderValue> = self.destination_headers(headers, stored);
        let after: After = if str_eq(method, "MOVE") {
            let plain: Option<String> = match destination {
                Some(path) => Some(self.plain_address(path)),
                None => None,
            };
            After::OrElse {
                method: method.to_string(),
                url: self.plain_address(dav_path),
                headers: self.destination_headers(headers, plain),
            }
        } else {
            After::Reply
        };
        Plan::Forward {
            method: method.to_string(),
            url: self.stored_address(dav_path),
            headers: new_headers,
            with_body: false,
            after,
        }
    }

    /// Decides how a file is deleted.
    fn handle_delete(&self, dav_path: &str, headers: &HeaderMap<HeaderValue>) -> (r: Plan)
        ensures
            r@ == deletion(self.cfg, dav_path@, header_values(*headers)),
    {
        let after: After = if self.names_encrypted() {
            After::OrElse {
                method: "DELETE".to_string(),
                url: self.plain_address(dav_path),
                headers: copy_of(headers),
            }
        } else {
            After::Reply
        };
        Plan::Forward {
            method: "DELETE".to_string(),
            url: self.stored_address(dav_path),
            headers: copy_of(headers),
            with_body: false,
            after,
        }
    }

    /// Forwards a request whose response is the answer.
    fn pass(&self, method: &str, url: String, headers: &HeaderMap<HeaderValue>, with_body: bool) -> (r:
        Plan)
        ensures
            r@ == passed(method@, url@, header_values(*headers), with_body),
    {
        Plan::Forward {
            method: method.to_string(),
            url,
            headers: copy_of(headers),
            with_body,
            after: After::Reply,
        }
    }

    /// Decides what is done for a request when its paths are known.
    pub fn plan(
        &self,
        method: &str,
        path: &str,
        dav_path: &str,
        headers: &HeaderMap<HeaderValue>,
        destination: &Option<String>,
    ) -> (r: Plan)
        requires
            has_room(*headers, 1),
        ensures
            r@ == planned(
                self.cfg,
                method@,
                path@,
                dav_path@,
                header_values(*headers),
                opt_text(*destination),
            ),
    {
        if str_eq(method, "PUT") {
            if self.encryption_enabled() {
                Plan::Upload { url: self.stored_address(dav_path) }
            } else {
                self.pass(method, self.plain_address(dav_path), headers, true)
            }
        } else if str_eq(method, "GET") {
            if self.encryption_enabled() {
                Plan::Download { url: self.stored_address(dav_path) }
            } else {
                self.pass(method, self.plain_address(dav_path), headers, false)
            }
        } else if str_eq(method, "HEAD") {
            Plan::Head {
                url: self.stored_address(dav_path),
                decrypt: self.encryption_enabled(),
            }
        } else if str_eq(method, "PROPFIND") {
            Plan::Forward {
                method: method.to_string(),
                url: self.plain_address(dav_path),
                headers: copy_of(headers),
                with_body: true,
                after: After::Listing,
            }
        } else if str_eq(method, "DELETE") {
            self.handle_delete(dav_path, headers)
        } else if str_eq(method, "MOVE") || str_eq(method, "COPY") {
            self.handle_move_or_copy(dav_path, headers, method, destination)
        } else {
            self.pass(method, self.plain_address(path), headers, true)
        }
    }
}

/// Whether a text begins as an address.
pub open spec fn is_address(s: Seq<char>) -> bool {
    starts_with(s, "http://"@) || starts_with(s, "https://"@)
}

/// The path that a destination names: that of the address, or the text itself.
/// There is none if the address is no URL.
pub open spec fn named_path(dest: Seq<char>) -> Option<Seq<char>> {
    if is_address(dest) {
        parsed_url_path(dest)
    } else {
        Some(dest)
    }
}

/// A path without the prefix of the upstream server, if something is left.
pub open spec fn destination_of(prefix: Seq<char>, named: Option<Seq<char>>) -> Option<Seq<char>> {
    match named {
        Some(path) => if stripped(prefix, path).len() > 0 {
            Some(stripped(prefix, path))
        } else {
            None
        },
        None => None,
    }
}

/// Takes the prefix of the upstream server off the path of a destination.
pub fn destination_from(prefix: &str, named: Option<String>) -> (r: Option<String>)
    ensures
        opt_text(r) == destination_of(prefix@, opt_text(named)),
{
    match named {
        Some(path) => {
            let rest: String = strip_prefix_from(prefix, &path);
            if rest.as_str().unicode_len() == 0 {
                None
            } else {
                Some(rest)
            }
        },
        None => None,
    }
}

/// A path, or the root if there is none.
pub open spec fn or_root(path: Seq<char>) -> Seq<char> {
    if path.len() == 0 {
        "/"@
    } else {
        path
    }
}

impl WebDavHandler {
    /// The path that a destination names, without the prefix of the upstream
    /// server.
    pub fn destination_path(&self, dest: &str) -> (r: Option<String>)
        ensures
            opt_text(r) == destination_of(self.cfg.webdav_host.prefix(), named_path(dest@)),
    {
        let named: Option<String> = if has_prefix(dest, "http://") || has_prefix(dest, "https://") {
            url_path(dest)
        } else {
            Some(dest.to_string())
        };
        destination_from(&self.cfg.webdav_host.path_prefix(), named)
    }

    /// The path to which a request moves or copies a file.
    pub open spec fn destination_in(&self, fields: Fields) -> Option<Seq<char>> {
        match field_text(fields, "destination"@) {
            Some(dest) => destination_of(self.cfg.webdav_host.prefix(), named_path(dest)),
            None => None,
        }
    }

    /// Decides what is done for a request.
    pub fn handle(&self, method: &str, path: &str, headers: &HeaderMap<HeaderValue>) -> (r: Plan)
        requires
            has_room(*headers, 1),
        ensures
            r@ == planned(
                self.cfg,
                method@,
                path@,
                stripped(self.cfg.webdav_host.prefix(), or_root(path@)),
                header_values(*headers),
                self.destination_in(header_values(*headers)),
            ),
    {
        proof {
            lemma_names();
        }
        let dav_path: String = if path.unicode_len() == 0 {
            self.strip_upstream_prefix("/")
        } else {
            self.strip_upstream_prefix(path)
        };
        let destination: Option<String> = match header_text(headers, "destination") {
            Some(dest) => self.destination_path(&dest),
            None => None,
        };
        self.plan(method, path, &dav_path, headers, &destination)
    }

    /// Sends the credentials of the configuration with a request.
    pub fn inject_auth(headers: &mut HeaderMap<HeaderValue>, cfg: &BackendConfig)
        requires
            has_room(*old(headers), 1),
            cfg.webdav_host.credentials_fit(),
        ensures
            header_values(*final(headers)) == match cfg.webdav_host.credentials() {
                Some(auth) => with_value(
                    header_values(*old(headers)),
                    "authorization"@,
                    WebdavHostConfig::auth_value(auth),
                ),
                None => header_values(*old(headers)),
            },
    {
        proof {
            lemma_names();
        }
        if let Some(auth) = cfg.webdav_host.basic_auth_header() {
            proof {
                lemma_auth_visible(cfg.webdav_host.credentials()->0);
            }
            set_header(headers, "authorization", &auth);
        }
    }
}

/// The header for credentials is visible ASCII.
proof fn lemma_auth_visible(auth: Seq<char>)
    ensures
        is_visible_text(WebdavHostConfig::auth_value(auth)),
{
    let chars = standard_alphabet();
    let code = encode64(chars, encode_utf8(auth));
    lemma_encode64(chars, encode_utf8(auth));
    lemma_texts();
    assert forall|i: int| 0 <= i < code.len() implies 43 <= #[trigger] code[i] <= 122 by {
        assert(chars.contains(code[i]));
        let k = choose|k: int| 0 <= k < chars.len() && chars[k] == code[i];
        assert(43 <= chars[k] <= 122);
    }
    assert(is_visible_text(ascii_text(code)));
    lemma_visible_join("Basic "@, ascii_text(code));
}

/// Where the first path in a listing begins and ends: between `<D:href>` and
/// the next `</D:href>`.
pub open spec fn first_href(text: Seq<char>) -> Option<(int, int)> {
    match find_from(text, "<D:href>"@, 0) {
        None => None,
        Some(i) => {
            let start = i + "<D:href>"@.len();
            match find_from(text.skip(start), "</D:href>"@, 0) {
                None => None,
                Some(j) => Some((start, start + j)),
            }
        },
    }
}

/// The first path in a listing, and the text that ends it, are in the listing.
pub proof fn lemma_first_href(text: Seq<char>)
    ensures
        first_href(text) matches Some((start, end)) ==> 0 <= start <= end && end + "</D:href>"@.len()
            <= text.len(),
        "</D:href>"@.len() == 9,
        "<D:href>"@.len() == 8,
{
    reveal_strlit("</D:href>");
    reveal_strlit("<D:href>");
    lemma_find_from(text, "<D:href>"@, 0);
    if let Some(i) = find_from(text, "<D:href>"@, 0) {
        lemma_find_from(text.skip(i + "<D:href>"@.len()), "</D:href>"@, 0);
    }
}

/// A listing in which the paths are those that clients see: each path between
/// `<D:href>` and `</D:href>` is decrypted, everything else stays.
pub open spec fn readable_listing(scheme: NameScheme, text: Seq<char>) -> Seq<char>
    decreases text.len(),
{
    match first_href(text) {
        None => text,
        Some((start, end)) => {
            proof {
                lemma_first_href(text);
            }
            text.take(start) + scheme.decrypted_path(text.subrange(start, end)) + "</D:href>"@
                + readable_listing(scheme, text.skip(end + "</D:href>"@.len()))
        },
    }
}

/// A text in which each place where another one, which is not empty, stands is
/// replaced, from the beginning on.
pub open spec fn replaced(text: Seq<char>, part: Seq<char>, by: Seq<char>) -> Seq<char>
    decreases text.len(),
{
    if part.len() == 0 {
        text
    } else {
        match find_from(text, part, 0) {
            None => text,
            Some(i) => {
                proof {
                    lemma_find_from(text, part, 0);
                }
                text.take(i) + by + replaced(text.skip(i + part.len()), part, by)
            },
        }
    }
}

/// Finds where the first path in a listing begins and ends.
fn find_href(text: &[char]) -> (r: Option<(usize, usize)>)
    ensures
        match r {
            Some((start, end)) => first_href(text@) == Some((start as int, end as int)) && start
                <= end && end + 9 <= text@.len(),
            None => first_href(text@) is None,
        },
{
    proof {
        lemma_first_href(text@);
    }
    let open: Vec<char> = chars_of("<D:href>");
    let close: Vec<char> = chars_of("</D:href>");
    let len: usize = text.len();
    let start: usize = match find(text, &open, 0) {
        Some(i) => i + open.len(),
        None => return None,
    };
    let rest: &[char] = vstd::slice::slice_subrange(text, start, len);
    assert(rest@ =~= text@.skip(start as int));
    match find(rest, &close, 0) {
        Some(j) => Some((start, start + j)),
        None => None,
    }
}

/// Makes the paths in a listing readable.
fn read_listing(converter: &FileNameConverter, text: &str) -> (r: String)
    ensures
        r@ == readable_listing(converter@, text@),
{
    let chars: Vec<char> = chars_of(text);
    let mut out: String = String::new();
    let mut i: usize = 0;
    let ghost all = readable_listing(converter@, text@);
    proof {
        assert(chars@.skip(0) =~= chars@);
        assert(out@ + all =~= all);
    }
    loop
        invariant
            i <= chars@.len(),
            all == readable_listing(converter@, text@),
            out@ + readable_listing(converter@, chars@.skip(i as int)) == all,
        decreases chars@.len() - i,
    {
        let left: &[char] = vstd::slice::slice_subrange(chars.as_slice(), i, chars.len());
        let ghost before = out@;
        assert(left@ =~= chars@.skip(i as int));
        match find_href(left) {
            Some((start, end)) => {
                proof {
                    lemma_first_href(left@);
                    assert(left@.subrange(0, start as int) =~= left@.take(start as int));
                    assert(left@.skip(end + 9) =~= chars@.skip(i + end + 9));
                }
                let shown: String = converter.decrypt_path(&sub_string(left, start, end));
                out.append(&sub_string(left, 0, start));
                out.append(&shown);
                out.append("</D:href>");
                proof {
                    let tail = readable_listing(converter@, left@.skip(end + 9));
                    assert(out@ + tail =~= before + (left@.take(start as int) + shown@
                        + "</D:href>"@ + tail));
                }
                i = i + end + 9;
            },
            None => {
                out.append(&string_of(left));
                return out;
            },
        }
    }
}

/// Replaces each place where a text stands.
fn replace_all(text: &str, part: &str, by: &str) -> (r: String)
    requires
        part@.len() > 0,
    ensures
        r@ == replaced(text@, part@, by@),
{
    let chars: Vec<char> = chars_of(text);
    let pattern: Vec<char> = chars_of(part);
    let mut out: String = String::new();
    let mut i: usize = 0;
    proof {
        assert(chars@.skip(0) =~= chars@);
        assert(out@ + replaced(chars@, part@, by@) =~= replaced(chars@, part@, by@));
    }
    loop
        invariant
            i <= chars@.len(),
            chars@ == text@,
            pattern@ == part@,
            part@.len() > 0,
            out@ + replaced(chars@.skip(i as int), part@, by@) == replaced(text@, part@, by@),
        decreases chars@.len() - i,
    {
        let left: &[char] = vstd::slice::slice_subrange(chars.as_slice(), i, chars.len());
        let ghost before = out@;
        assert(left@ =~= chars@.skip(i as int));
        let at: usize = match find(left, &pattern, 0) {
            Some(at) => at,
            None => {
                out.append(&string_of(left));
                return out;
            },
        };
        assert(left@.subrange(0, at as int) =~= left@.take(at as int));
        out.append(&sub_string(left, 0, at));
        out.append(by);
        let next: usize = i + at + pattern.len();
        proof {
            let tail = left@.skip(at + part@.len());
            assert(tail =~= chars@.skip(next as int));
            assert(out@ + replaced(tail, part@, by@) =~= before + (left@.take(at as int) + by@
                + replaced(tail, part@, by@)));
        }
        i = next;
    }
}

/// What becomes of the body of a listing once its paths are readable. A body
/// that is no text stays as it is.
pub open spec fn readable_body(scheme: NameScheme, body: Seq<u8>) -> Seq<u8> {
    if valid_utf8(body) {
        encode_utf8(readable_listing(scheme, decode_utf8(body)))
    } else {
        body
    }
}

/// What becomes of the body of a listing once the prefix of the upstream server
/// is taken off the paths in it. A body that is no text stays as it is.
pub open spec fn unprefixed_body(prefix: Seq<char>, body: Seq<u8>) -> Seq<u8> {
    if prefix.len() == 0 || prefix == "/"@ || !valid_utf8(body) {
        body
    } else {
        encode_utf8(replaced(decode_utf8(body), prefix + "/"@, "/"@))
    }
}

/// The bytes of a string.
fn bytes_of(s: &str) -> (r: Vec<u8>)
    ensures
        r@ == encode_utf8(s@),
{
    let mut out: Vec<u8> = Vec::new();
    out.extend_from_slice(s.as_bytes());
    assert(out@ =~= encode_utf8(s@));
    out
}

/// Makes the paths in the body of a listing readable.
pub fn decrypt_propfind_xml(body: Vec<u8>, enc: &EncryptionConfig) -> (r: Vec<u8>)
    ensures
        r@ == readable_body(name_scheme(*enc), body@),
{
    match text_of_utf8(&body) {
        Some(text) => bytes_of(&read_listing(&converter_of(enc), &text)),
        None => body,
    }
}

/// Takes a prefix off the paths in the body of a listing.
pub fn strip_hrefs(prefix: &str, body: Vec<u8>) -> (r: Vec<u8>)
    ensures
        r@ == unprefixed_body(prefix@, body@),
{
    if prefix.unicode_len() == 0 || str_eq(prefix, "/") {
        return body;
    }
    match text_of_utf8(&body) {
        Some(text) => bytes_of(&replace_all(&text, &join2(prefix, "/"), "/")),
        None => body,
    }
}

/// What follows the response to a forwarded request.
pub enum Next {
    /// An answer, with its body.
    Answer(Response),
    /// Another request, without a body, whose response is the answer.
    Forward { method: String, url: String, headers: HeaderMap<HeaderValue> },
}

/// The view of what follows.
pub enum NextView {
    Answer(ResponseView),
    Forward { method: Seq<char>, url: Seq<char>, headers: Fields },
}

impl View for Next {
    type V = NextView;

    open spec fn view(&self) -> NextView {
        match self {
            Next::Answer(answer) => NextView::Answer(answer@),
            Next::Forward { method, url, headers } => NextView::Forward {
                method: method@,
                url: url@,
                headers: header_values(*headers),
            },
        }
    }
}

/// The body of a listing as clients see it.
pub open spec fn listing_body(
    cfg: BackendConfig,
    prefix: Seq<char>,
    status: u16,
    body: Seq<u8>,
) -> Seq<u8> {
    unprefixed_body(
        prefix,
        if encrypts_names(cfg) && status == 207 {
            readable_body(name_scheme(cfg.encryption->0), body)
        } else {
            body
        },
    )
}

/// What follows the response to a forwarded request, the headers that give its
/// length taken off.
pub open spec fn followed(
    cfg: BackendConfig,
    prefix: Seq<char>,
    after: AfterView,
    resp: ResponseView,
) -> NextView {
    match after {
        AfterView::Reply => NextView::Answer(resp),
        AfterView::OrElse { method, url, headers } => if is_missing(resp.status) {
            NextView::Forward { method, url, headers }
        } else {
            NextView::Answer(resp)
        },
        AfterView::Listing => NextView::Answer(
            ResponseView {
                status: resp.status,
                headers: without_length(resp.headers),
                body: listing_body(cfg, prefix, resp.status, resp.body),
            },
        ),
    }
}

impl WebDavHandler {
    /// Decides what follows the response to a forwarded request.
    pub fn follow(&self, after: After, resp: Response) -> (r: Next)
        ensures
            r@ == followed(self.cfg, self.cfg.webdav_host.prefix(), after@, resp@),
    {
        self.follow_with(&self.cfg.webdav_host.path_prefix(), after, resp)
    }

    /// Decides what follows the response to a forwarded request, when the
    /// prefix of the upstream server is known.
    pub fn follow_with(&self, prefix: &str, after: After, resp: Response) -> (r: Next)
        ensures
            r@ == followed(self.cfg, prefix@, after@, resp@),
    {
        match after {
            After::Reply => Next::Answer(resp),
            After::OrElse { method, url, headers } => if is_missing_resource(resp.status) {
                Next::Forward { method, url, headers }
            } else {
                Next::Answer(resp)
            },
            After::Listing => {
                let body: Vec<u8> = match &self.cfg.encryption {
                    Some(enc) => if enc.enable && enc.enc_name && resp.status == 207 {
                        decrypt_propfind_xml(resp.body, enc)
                    } else {
                        resp.body
                    },
                    None => resp.body,
                };
                Next::Answer(
                    Response {
                        status: resp.status,
                        headers: strip_content_length(resp.headers),
                        body: strip_hrefs(prefix, body),
                    },
                )
            },
        }
    }
}

/// A file is asked for at the address at which it was stored.
pub proof fn law_same_address(
    cfg: BackendConfig,
    path: Seq<char>,
    dav_path: Seq<char>,
    fields: Fields,
    other_fields: Fields,
)
    requires
        encrypts(cfg),
    ensures
        planned(cfg, "PUT"@, path, dav_path, fields, None) == (PlanView::Upload {
            url: stored_url(cfg, dav_path),
        }),
        planned(cfg, "GET"@, path, dav_path, other_fields, None) == (PlanView::Download {
            url: stored_url(cfg, dav_path),
        }),
        planned(cfg, "HEAD"@, path, dav_path, other_fields, None) == (PlanView::Head {
            url: stored_url(cfg, dav_path),
            decrypt: true,
        }),
{
    reveal_strlit("PUT");
    reveal_strlit("GET");
    reveal_strlit("HEAD");
    assert("GET"@[0] != "PUT"@[0]);
    assert("HEAD"@[0] != "PUT"@[0]);
    assert("HEAD"@[0] != "GET"@[0]);
}

/// Without encryption the proxy only forwards: no file is decrypted or
/// encrypted, and every address is that of the path which was asked for.
pub proof fn law_plain_without_encryption(
    cfg: BackendConfig,
    method: Seq<char>,
    path: Seq<char>,
    dav_path: Seq<char>,
    fields: Fields,
    destination: Option<Seq<char>>,
)
    requires
        !encrypts(cfg),
    ensures
        match planned(cfg, method, path, dav_path, fields, destination) {
            PlanView::Forward { method: m, url, headers, .. } => {
                &&& m == method
                &&& url == plain_url(cfg, dav_path) || url == plain_url(cfg, path)
                &&& method != "MOVE"@ && method != "COPY"@ ==> headers == fields
                &&& method == "MOVE"@ || method == "COPY"@ ==> headers == with_destination(
                    fields,
                    match destination {
                        Some(to) => Some(plain_url(cfg, to)),
                        None => None,
                    },
                )
            },
            PlanView::Head { url, decrypt } => url == plain_url(cfg, dav_path) && !decrypt,
            _ => false,
        },
{
    reveal_strlit("PUT");
    reveal_strlit("GET");
    reveal_strlit("HEAD");
    reveal_strlit("PROPFIND");
    reveal_strlit("DELETE");
    reveal_strlit("MOVE");
    reveal_strlit("COPY");
    assert("PUT"@[0] == 'P' && "GET"@[0] == 'G' && "HEAD"@[0] == 'H' && "PROPFIND"@[0] == 'P'
        && "DELETE"@[0] == 'D' && "MOVE"@[0] == 'M' && "COPY"@[0] == 'C');
}

/// A listing: texts with paths between them, each path between `<D:href>` and
/// `</D:href>`. There is a text before each path and one behind the last.
pub open spec fn listing_of(texts: Seq<Seq<char>>, paths: Seq<Seq<char>>) -> Seq<char>
    decreases paths.len(),
{
    if paths.len() == 0 {
        texts.first()
    } else {
        texts.first() + "<D:href>"@ + paths.first() + "</D:href>"@ + listing_of(
            texts.drop_first(),
            paths.drop_first(),
        )
    }
}

/// In a listing every path is decrypted and everything else stays. The texts
/// before the paths must not hold the mark at which a path begins, the paths not
/// that at which one ends, and the text behind them no path.
pub proof fn law_listing_decrypts_paths(
    scheme: NameScheme,
    texts: Seq<Seq<char>>,
    paths: Seq<Seq<char>>,
)
    requires
        texts.len() == paths.len() + 1,
        forall|i: int| 0 <= i < paths.len() ==> lacks(#[trigger] texts[i], "<D:href>"@),
        first_href(texts.last()) is None,
        forall|i: int| 0 <= i < paths.len() ==> lacks(#[trigger] paths[i], "</D:href>"@),
    ensures
        readable_listing(scheme, listing_of(texts, paths)) == listing_of(
            texts,
            paths.map_values(|path: Seq<char>| scheme.decrypted_path(path)),
        ),
    decreases paths.len(),
{
    let shown = paths.map_values(|path: Seq<char>| scheme.decrypted_path(path));
    let before = texts.first();
    assert(before == texts[0]);
    if paths.len() == 0 {
        assert(before == texts.last());
    } else {
        let open = "<D:href>"@;
        let close = "</D:href>"@;
        let path = paths.first();
        assert(path == paths[0]);
        assert(texts.drop_first().last() == texts.last());
        assert forall|i: int| 0 <= i < paths.drop_first().len() implies lacks(
            #[trigger] texts.drop_first()[i],
            open,
        ) by {
            assert(texts.drop_first()[i] == texts[i + 1]);
        }
        assert forall|i: int| 0 <= i < paths.drop_first().len() implies lacks(
            #[trigger] paths.drop_first()[i],
            close,
        ) by {
            assert(paths.drop_first()[i] == paths[i + 1]);
        }
        law_listing_decrypts_paths(scheme, texts.drop_first(), paths.drop_first());
        assert(shown.drop_first() =~= paths.drop_first().map_values(
            |path: Seq<char>| scheme.decrypted_path(path),
        ));
        let behind = listing_of(texts.drop_first(), paths.drop_first());
        let rest = path + close + behind;
        let text = listing_of(texts, paths);
        reveal_strlit("<D:href>");
        reveal_strlit("</D:href>");
        lemma_find_behind(before, open, rest, 0);
        lemma_find_behind(path, close, behind, 0);
        assert(text =~= before + open + rest);
        let start = (before.len() + open.len()) as int;
        let end = start + path.len();
        assert(text.skip(start) =~= rest);
        assert(text.take(start) =~= before + open);
        assert(text.subrange(start, end) =~= path);
        assert(text.skip(end + close.len()) =~= behind);
    }
}

/// A listing shows for every stored file the path that the client gave it, and
/// everything else as it is.
pub proof fn law_listing_shows_paths(
    scheme: NameScheme,
    texts: Seq<Seq<char>>,
    paths: Seq<Seq<char>>,
)
    requires
        texts.len() == paths.len() + 1,
        scheme.enc_suffix matches Some(suffix) ==> suffix.len() > 0 && !suffix.contains('/'),
        forall|i: int| 0 <= i < paths.len() ==> lacks(#[trigger] texts[i], "<D:href>"@),
        first_href(texts.last()) is None,
        forall|i: int|
            0 <= i < paths.len() ==> is_plain_path(#[trigger] paths[i]) && lacks(
                scheme.encrypted_path(paths[i]),
                "</D:href>"@,
            ),
    ensures
        readable_listing(
            scheme,
            listing_of(
                texts,
                paths.map_values(|path: Seq<char>| scheme.encrypted_path(path)),
            ),
        ) == listing_of(texts, paths),
{
    let stored = paths.map_values(|path: Seq<char>| scheme.encrypted_path(path));
    law_listing_decrypts_paths(scheme, texts, stored);
    let shown = stored.map_values(|path: Seq<char>| scheme.decrypted_path(path));
    assert forall|i: int| 0 <= i < paths.len() implies shown[i] == paths[i] by {
        law_plain_path_round_trip(scheme, paths[i]);
    }
    assert(shown =~= paths);
}

/// The header for credentials is none of those that are set or taken off.
proof fn lemma_auth_name()
    ensures
        !is_hop_header("authorization"@),
        "authorization"@ != "if-none-match"@,
        "authorization"@ != "if-modified-since"@,
        "authorization"@ != "if-match"@,
        "authorization"@ != "if-unmodified-since"@,
        "authorization"@ != "if-range"@,
        "authorization"@ != "range"@,
        "authorization"@ != "accept-encoding"@,
{
    reveal_strlit("authorization");
    reveal_strlit("content-length");
    reveal_strlit("transfer-encoding");
    reveal_strlit("connection");
    reveal_strlit("keep-alive");
    reveal_strlit("te");
    reveal_strlit("trailer");
    reveal_strlit("upgrade");
    reveal_strlit("host");
    reveal_strlit("if-none-match");
    reveal_strlit("if-modified-since");
    reveal_strlit("if-match");
    reveal_strlit("if-unmodified-since");
    reveal_strlit("if-range");
    reveal_strlit("range");
    reveal_strlit("accept-encoding");
    assert("authorization"@[1] == 'u');
    assert("accept-encoding"@[1] == 'c');
    assert("authorization"@[0] == 'a');
    assert("content-length"@[0] == 'c');
    assert("transfer-encoding"@[0] == 't');
    assert("connection"@[0] == 'c');
    assert("keep-alive"@[0] == 'k');
    assert("te"@[0] == 't');
    assert("trailer"@[0] == 't');
    assert("upgrade"@[0] == 'u');
    assert("host"@[0] == 'h');
    assert("if-none-match"@[0] == 'i');
    assert("if-modified-since"@[0] == 'i');
    assert("if-match"@[0] == 'i');
    assert("if-unmodified-since"@[0] == 'i');
    assert("if-range"@[0] == 'i');
    assert("range"@[0] == 'r');
}

/// The credentials of the configuration are sent with every request that goes
/// upstream, whatever it is for.
pub proof fn law_credentials_in_every_request(
    client: Fields,
    auth: Seq<char>,
    method: Seq<char>,
    url: Seq<char>,
    from: nat,
    to: nat,
)
    ensures
        ({
            let name = "authorization"@;
            let value = WebdavHostConfig::auth_value(auth);
            let fields = with_value(client, name, value);
            let sent = seq![encode_utf8(value)];
            &&& plain_request(method, url, fields).headers.contains_pair(name, sent)
            &&& probe_request(url, fields).headers.contains_pair(name, sent)
            &&& length_request(url, fields).headers.contains_pair(name, sent)
            &&& first_byte_request(url, fields).headers.contains_pair(name, sent)
            &&& whole_request(url, fields).headers.contains_pair(name, sent)
            &&& part_request(url, fields, from, to).headers.contains_pair(name, sent)
            &&& head_request(url, fields).headers.contains_pair(name, sent)
        }),
{
    lemma_auth_name();
}

/// Which method a literal is tells its length and its first letter.
proof fn lemma_methods()
    ensures
        "PUT"@.len() == 3 && "PUT"@[0] == 'P',
        "GET"@.len() == 3 && "GET"@[0] == 'G',
        "HEAD"@.len() == 4 && "HEAD"@[0] == 'H',
        "PROPFIND"@.len() == 8,
        "DELETE"@.len() == 6,
        "MOVE"@.len() == 4 && "MOVE"@[0] == 'M',
        "COPY"@.len() == 4 && "COPY"@[0] == 'C',
        "OPTIONS"@.len() == 7,
{
    reveal_strlit("PUT");
    reveal_strlit("GET");
    reveal_strlit("HEAD");
    reveal_strlit("PROPFIND");
    reveal_strlit("DELETE");
    reveal_strlit("MOVE");
    reveal_strlit("COPY");
    reveal_strlit("OPTIONS");
}

/// The address to which a request of a client leads.
pub open spec fn target(plan: PlanView) -> Seq<char> {
    match plan {
        PlanView::Forward { url, .. } => url,
        PlanView::Download { url } => url,
        PlanView::Head { url, .. } => url,
        PlanView::Upload { url } => url,
    }
}

/// The address to which an upload to a path leads.
pub open spec fn upload_target(cfg: BackendConfig, dav_path: Seq<char>) -> Seq<char> {
    target(planned(cfg, "PUT"@, dav_path, dav_path, no_values(), None))
}

/// The address to which a request with a method that is only forwarded leads.
pub open spec fn plain_target(cfg: BackendConfig, path: Seq<char>) -> Seq<char> {
    target(planned(cfg, "OPTIONS"@, path, path, no_values(), None))
}

/// The address of the upstream server for a path: that of the configuration,
/// without slashes at its end, and the path behind a slash.
pub proof fn law_plain_target(cfg: BackendConfig, base: Seq<char>, slashes: nat, path: Seq<char>)
    requires
        cfg.webdav_host.url@ == base + Seq::new(slashes, |i: int| '/'),
        base.len() > 0 ==> base.last() != '/',
        path.len() > 0 ==> path[0] != '/',
    ensures
        plain_target(cfg, "/"@ + path) == base + "/"@ + path,
        plain_target(cfg, path) == base + "/"@ + path,
{
    lemma_methods();
    law_address(base, slashes, path);
}

/// A file is stored at the address of its path; if names are encrypted, at that
/// of another path, which clients see as the path of the file.
pub proof fn law_upload_target(cfg: BackendConfig, path: Seq<char>)
    ensures
        !(cfg.encryption matches Some(enc) && enc.enable && enc.enc_name) ==> upload_target(
            cfg,
            path,
        ) == plain_target(cfg, path),
        cfg.encryption matches Some(enc) ==> (enc.enable && enc.enc_name && is_plain_path(path) && (
        name_scheme(enc).enc_suffix matches Some(suffix) ==> suffix.len() > 0 && !suffix.contains(
            '/',
        )) ==> exists|stored: Seq<char>|
            #![trigger plain_target(cfg, stored)]
            plain_target(cfg, stored) == upload_target(cfg, path) && name_scheme(
                enc,
            ).decrypted_path(stored) == path),
        path.len() > 0 && path.last() == '/' ==> upload_target(cfg, path) == plain_target(cfg, path),
{
    lemma_methods();
    if let Some(enc) = cfg.encryption {
        if enc.enable && enc.enc_name && is_plain_path(path) && (name_scheme(
            enc,
        ).enc_suffix matches Some(suffix) ==> suffix.len() > 0 && !suffix.contains('/')) {
            law_plain_path_round_trip(name_scheme(enc), path);
            let stored = name_scheme(enc).encrypted_path(path);
            assert(plain_target(cfg, stored) == upload_target(cfg, path));
        }
    }
}

/// Names are encrypted with the password, the algorithm and the suffix of the
/// configuration.
pub proof fn law_name_scheme(enc: EncryptionConfig)
    ensures
        name_scheme(enc).password == enc.password@,
        name_scheme(enc).enc_type == enc.enc_type@,
        enc.enc_suffix is None ==> name_scheme(enc).enc_suffix is None,
        enc.enc_suffix matches Some(s) ==> name_scheme(enc).enc_suffix == normal_suffix(
            Some(s@),
        ),
{
}

/// What is uploaded, downloaded and asked for with a path stands at one address.
/// Contents are encrypted and decrypted exactly if the configuration says so;
/// otherwise the request of the client is sent on with its method, its headers
/// and, for an upload, its body.
pub proof fn law_contents_at_one_address(
    cfg: BackendConfig,
    path: Seq<char>,
    dav_path: Seq<char>,
    fields: Fields,
    destination: Option<Seq<char>>,
)
    ensures
        ({
            let url = upload_target(cfg, dav_path);
            let on = cfg.encryption matches Some(enc) && enc.enable;
            let put = planned(cfg, "PUT"@, path, dav_path, fields, destination);
            let get = planned(cfg, "GET"@, path, dav_path, fields, destination);
            let head = planned(cfg, "HEAD"@, path, dav_path, fields, destination);
            &&& put == if on {
                PlanView::Upload { url }
            } else {
                PlanView::Forward {
                    method: "PUT"@,
                    url,
                    headers: fields,
                    with_body: true,
                    after: AfterView::Reply,
                }
            }
            &&& get == if on {
                PlanView::Download { url }
            } else {
                PlanView::Forward {
                    method: "GET"@,
                    url,
                    headers: fields,
                    with_body: false,
                    after: AfterView::Reply,
                }
            }
            &&& head == PlanView::Head { url, decrypt: on }
        }),
{
    lemma_methods();
}

/// Every method without a rule of its own is forwarded to the address of the
/// path as the client gave it, with its headers and its body, and its response
/// is the answer.
pub proof fn law_other_methods(
    cfg: BackendConfig,
    method: Seq<char>,
    path: Seq<char>,
    dav_path: Seq<char>,
    fields: Fields,
    destination: Option<Seq<char>>,
)
    requires
        method != "PUT"@ && method != "GET"@ && method != "HEAD"@ && method != "PROPFIND"@,
        method != "DELETE"@ && method != "MOVE"@ && method != "COPY"@,
    ensures
        planned(cfg, method, path, dav_path, fields, destination) == (PlanView::Forward {
            method,
            url: plain_target(cfg, path),
            headers: fields,
            with_body: true,
            after: AfterView::Reply,
        }),
{
    lemma_methods();
}

/// Whether headers are others with one of them set to a text that is the value
/// of a header.
pub open spec fn only_sets(new: Fields, old_fields: Fields, name: Seq<char>, text: Seq<char>) -> bool {
    &&& new.contains_key(name) && new[name] == seq![encode_utf8(text)]
    &&& forall|other: Seq<char>|
        other != name ==> {
            &&& #[trigger] new.contains_key(other) <==> old_fields.contains_key(other)
            &&& old_fields.contains_key(other) ==> new[other] == old_fields[other]
        }
}

/// A file is moved or copied from the address at which an upload to its path
/// stores it to that at which an upload to the path of the destination does.
/// If there is no file at that address, a move, and no copy, is repeated with the
/// addresses of the two paths as they are.
pub proof fn law_move_or_copy(
    cfg: BackendConfig,
    method: Seq<char>,
    path: Seq<char>,
    dav_path: Seq<char>,
    fields: Fields,
    dest: Seq<char>,
)
    requires
        method == "MOVE"@ || method == "COPY"@,
        is_header_value(encode_utf8(upload_target(cfg, dest))),
        is_header_value(encode_utf8(plain_target(cfg, dest))),
    ensures
        planned(cfg, method, path, dav_path, fields, Some(dest)) matches PlanView::Forward {
            method: m,
            url,
            headers,
            with_body,
            after,
        } && {
            &&& m == method
            &&& url == upload_target(cfg, dav_path)
            &&& only_sets(headers, fields, "destination"@, upload_target(cfg, dest))
            &&& !with_body
            &&& method == "COPY"@ ==> after is Reply
            &&& method == "MOVE"@ ==> (after matches AfterView::OrElse {
                method: m,
                url,
                headers,
            } && m == method && url == plain_target(cfg, dav_path) && only_sets(
                headers,
                fields,
                "destination"@,
                plain_target(cfg, dest),
            ))
        },
        planned(cfg, method, path, dav_path, fields, None) matches PlanView::Forward {
            method: m,
            url,
            headers,
            with_body,
            after,
        } && {
            &&& m == method
            &&& url == upload_target(cfg, dav_path)
            &&& headers == fields
            &&& !with_body
            &&& method == "COPY"@ ==> after is Reply
            &&& method == "MOVE"@ ==> after == (AfterView::OrElse {
                method,
                url: plain_target(cfg, dav_path),
                headers: fields,
            })
        },
{
    lemma_methods();
}

/// A file is deleted at the address at which an upload to its path stores it.
/// Only if names are encrypted and there is no file at that address, the deletion
/// is repeated with the address of the path as it is.
pub proof fn law_delete(
    cfg: BackendConfig,
    path: Seq<char>,
    dav_path: Seq<char>,
    fields: Fields,
    destination: Option<Seq<char>>,
)
    ensures
        planned(cfg, "DELETE"@, path, dav_path, fields, destination) == (PlanView::Forward {
            method: "DELETE"@,
            url: upload_target(cfg, dav_path),
            headers: fields,
            with_body: false,
            after: if cfg.encryption matches Some(enc) && enc.enable && enc.enc_name {
                AfterView::OrElse {
                    method: "DELETE"@,
                    url: plain_target(cfg, dav_path),
                    headers: fields,
                }
            } else {
                AfterView::Reply
            },
        }),
{
    lemma_methods();
}

/// A response is the answer to a forwarded request as it is; but if there is a
/// second address and the status is one of 404, 405 and 410, the request is
/// repeated there.
pub proof fn law_follow(
    cfg: BackendConfig,
    prefix: Seq<char>,
    method: Seq<char>,
    url: Seq<char>,
    headers: Fields,
    resp: ResponseView,
)
    ensures
        followed(cfg, prefix, AfterView::Reply, resp) == NextView::Answer(resp),
        followed(cfg, prefix, AfterView::OrElse { method, url, headers }, resp) == if resp.status
            == 404 || resp.status == 405 || resp.status == 410 {
            NextView::Forward { method, url, headers }
        } else {
            NextView::Answer(resp)
        },
{
}

/// The prefix of the upstream server is taken off a path that begins with it, and
/// another path stays as it is.
pub proof fn law_prefix_is_taken_off(prefix: Seq<char>, path: Seq<char>)
    ensures
        prefix.len() > 0 && prefix != "/"@ ==> stripped(prefix, prefix + path) == path,
        (path.len() < prefix.len() || path.take(prefix.len() as int) != prefix) ==> stripped(
            prefix,
            path,
        ) == path,
        stripped(Seq::empty(), path) == path,
        stripped("/"@, path) == path,
{
    assert((prefix + path).subrange(0, prefix.len() as int) =~= prefix);
    assert((prefix + path).skip(prefix.len() as int) =~= path);
    if path.len() >= prefix.len() {
        assert(path.subrange(0, prefix.len() as int) =~= path.take(prefix.len() as int));
    }
}

/// A destination is the path of an address, or the path itself, without the
/// prefix of the upstream server. There is none if nothing is left, or the
/// address is no URL.
pub proof fn law_destination(prefix: Seq<char>, path: Seq<char>, dest: Seq<char>)
    requires
        prefix.len() > 0,
        prefix != "/"@,
    ensures
        path.len() > 0 ==> destination_of(prefix, Some(prefix + path)) == Some(path),
        destination_of(prefix, Some(prefix)) is None,
        destination_of(prefix, None) is None,
        path.len() > 0 && (path.len() < prefix.len() || path.take(prefix.len() as int) != prefix)
            ==> destination_of(prefix, Some(path)) == Some(path),
        named_path("http://"@ + dest) == parsed_url_path("http://"@ + dest),
        named_path("https://"@ + dest) == parsed_url_path("https://"@ + dest),
        dest.len() > 0 && dest[0] == '/' ==> named_path(dest) == Some(dest),
{
    law_prefix_is_taken_off(prefix, path);
    law_prefix_is_taken_off(prefix, Seq::empty());
    assert(prefix + Seq::<char>::empty() =~= prefix);
    reveal_strlit("http://");
    reveal_strlit("https://");
    assert(("http://"@ + dest).subrange(0, 7) =~= "http://"@);
    assert(("https://"@ + dest).subrange(0, 8) =~= "https://"@);
    if dest.len() > 0 && dest[0] == '/' {
        if starts_with(dest, "http://"@) {
            assert(dest.subrange(0, 7)[0] == '/');
        }
        if starts_with(dest, "https://"@) {
            assert(dest.subrange(0, 8)[0] == '/');
        }
    }
}

impl WebDavHandler {
    /// The destination of a request is that of its header.
    pub proof fn law_destination_header(&self, fields: Fields, dest: Seq<char>)
        requires
            is_visible_text(dest),
        ensures
            fields.contains_key("destination"@) && fields["destination"@].len() > 0
                && fields["destination"@][0] == encode_utf8(dest) ==> self.destination_in(fields)
                == destination_of(self.cfg.webdav_host.prefix(), named_path(dest)),
            !fields.contains_key("destination"@) ==> self.destination_in(fields) is None,
    {
        law_visible_value(dest);
    }
}

/// Some texts with another one between each two of them.
pub open spec fn interleaved(chunks: Seq<Seq<char>>, between: Seq<char>) -> Seq<char>
    decreases chunks.len(),
{
    if chunks.len() <= 1 {
        chunks.first()
    } else {
        chunks.first() + between + interleaved(chunks.drop_first(), between)
    }
}

/// A text is replaced wherever it stands, from the beginning on, and nothing else
/// changes.
pub proof fn law_replaced(chunks: Seq<Seq<char>>, part: Seq<char>, by: Seq<char>)
    requires
        chunks.len() > 0,
        part.len() > 0,
        forall|i: int|
            0 <= i < chunks.len() - 1 ==> lacks(#[trigger] chunks[i] + part.drop_last(), part),
        lacks(chunks.last(), part),
    ensures
        replaced(interleaved(chunks, part), part, by) == interleaved(chunks, by),
    decreases chunks.len(),
{
    if chunks.len() == 1 {
        lemma_find_none(chunks[0], part, 0);
    } else {
        let first = chunks.first();
        let rest = chunks.drop_first();
        assert(first == chunks[0]);
        assert(rest.last() == chunks.last());
        assert forall|i: int| 0 <= i < rest.len() - 1 implies lacks(
            #[trigger] rest[i] + part.drop_last(),
            part,
        ) by {
            assert(rest[i] == chunks[i + 1]);
        }
        law_replaced(rest, part, by);
        let behind = interleaved(rest, part);
        let text = first + part + behind;
        lemma_find_first(first, part, behind, 0);
        assert(text.take(first.len() as int) =~= first);
        assert(text.skip((first.len() + part.len()) as int) =~= behind);
    }
}

/// Whether a response is answered with another body, and without the headers that
/// give its length.
pub open spec fn is_answered(next: NextView, resp: ResponseView, body: Seq<u8>) -> bool {
    next matches NextView::Answer(answer) && {
        &&& answer.status == resp.status
        &&& answer.body == body
        &&& forall|name: Seq<char>|
            {
                &&& #[trigger] answer.headers.contains_key(name) <==> resp.headers.contains_key(
                    name,
                ) && name != "content-length"@ && name != "transfer-encoding"@
                &&& answer.headers.contains_key(name) ==> answer.headers[name]
                    == resp.headers[name]
            }
    }
}

/// A listing is asked for at the address of the path, with the headers and the
/// body of the client's request, whatever the configuration. Of the response each
/// place is changed at which the prefix of the upstream server stands before a
/// slash: the prefix is taken off. Nothing else changes, unless names are
/// encrypted.
pub proof fn law_listing_without_prefix(
    cfg: BackendConfig,
    path: Seq<char>,
    dav_path: Seq<char>,
    fields: Fields,
    destination: Option<Seq<char>>,
    prefix: Seq<char>,
    resp: ResponseView,
    chunks: Seq<Seq<char>>,
)
    requires
        prefix.len() > 0 && prefix != "/"@,
        chunks.len() > 0,
        forall|i: int|
            0 <= i < chunks.len() - 1 ==> lacks(#[trigger] chunks[i] + prefix, prefix.push('/')),
        lacks(chunks.last(), prefix.push('/')),
        resp.body == encode_utf8(interleaved(chunks, prefix.push('/'))),
        (cfg.encryption matches Some(enc) && enc.enable && enc.enc_name) ==> resp.status != 207,
    ensures
        planned(cfg, "PROPFIND"@, path, dav_path, fields, destination) matches PlanView::Forward {
            method,
            url,
            headers,
            with_body,
            after,
        } && {
            &&& method == "PROPFIND"@
            &&& url == plain_target(cfg, dav_path)
            &&& headers == fields
            &&& with_body
            &&& is_answered(
                followed(cfg, prefix, after, resp),
                resp,
                encode_utf8(interleaved(chunks, "/"@)),
            )
        },
{
    lemma_methods();
    reveal_strlit("/");
    let part = prefix.push('/');
    let text = interleaved(chunks, part);
    assert(part =~= prefix + "/"@);
    assert(part.drop_last() =~= prefix);
    law_replaced(chunks, part, "/"@);
    encode_utf8_valid_utf8(text);
    encode_utf8_decode_utf8(text);
}

/// A listing that is no text, or of an upstream server without a prefix, is
/// answered as it is, unless names are encrypted.
pub proof fn law_listing_as_it_is(
    cfg: BackendConfig,
    path: Seq<char>,
    dav_path: Seq<char>,
    fields: Fields,
    destination: Option<Seq<char>>,
    prefix: Seq<char>,
    resp: ResponseView,
)
    requires
        !valid_utf8(resp.body) || (prefix.len() == 0 || prefix == "/"@) && ((cfg.encryption
            matches Some(enc) && enc.enable && enc.enc_name) ==> resp.status != 207),
    ensures
        planned(cfg, "PROPFIND"@, path, dav_path, fields, destination) matches PlanView::Forward {
            after,
            ..
        } && is_answered(followed(cfg, prefix, after, resp), resp, resp.body),
{
    lemma_methods();
}

/// Some paths behind a prefix.
pub open spec fn prefixed(prefix: Seq<char>, paths: Seq<Seq<char>>) -> Seq<Seq<char>> {
    paths.map_values(|path: Seq<char>| prefix + path)
}

/// The mark before a path, and the prefix behind it, hold the prefix before a
/// slash nowhere if what stands before the mark does not.
proof fn lemma_marks_lack(before: Seq<char>, text: Seq<char>, prefix: Seq<char>)
    requires
        prefix.len() > 0,
        !prefix.contains('<') && !prefix.contains('>'),
        before.len() > 0 ==> before.last() == '>',
        lacks(before, prefix.push('/')),
        lacks(text, prefix.push('/')),
    ensures
        lacks(before + text, prefix.push('/')),
        lacks(before + text + "<D:href>"@ + prefix, prefix.push('/')),
{
    let part = prefix.push('/');
    reveal_strlit("<D:href>");
    let word = "<D:href>"@.subrange(1, 7);
    assert(!part.contains('<') && !part.contains('>')) by {
        assert forall|k: int| 0 <= k < part.len() implies part[k] != '<' && part[k] != '>' by {
            if k < prefix.len() {
                assert(prefix.contains(prefix[k]));
            }
        }
    }
    if before.len() > 0 {
        let head = before.drop_last();
        assert forall|k: int| !(#[trigger] occurs_at(head, part, k)) by {
            if occurs_at(head, part, k) {
                assert(before.subrange(k, k + part.len()) =~= head.subrange(k, k + part.len()));
                assert(occurs_at(before, part, k));
            }
        }
        lemma_lacks_across(head, '>', text, part);
        assert(head + seq!['>'] + text =~= before + text);
    } else {
        assert(before + text =~= text);
    }
    assert forall|k: int| !(#[trigger] occurs_at(word, part, k)) by {
        if occurs_at(word, part, k) {
            assert(word.subrange(k, k + part.len()).last() == '/');
        }
    }
    assert(lacks(prefix, part));
    lemma_lacks_across(before + text, '<', word, part);
    lemma_lacks_across(before + text + seq!['<'] + word, '>', prefix, part);
    assert(before + text + seq!['<'] + word + seq!['>'] + prefix =~= before + text + "<D:href>"@
        + prefix);
}

/// The mark behind a path holds the prefix before a slash nowhere.
proof fn lemma_end_mark_lacks(text: Seq<char>, prefix: Seq<char>)
    requires
        prefix.len() > 0,
        !prefix.contains('<') && !prefix.contains('>'),
        lacks(text, prefix.push('/')),
    ensures
        lacks(text + "</D:href>"@, prefix.push('/')),
{
    let part = prefix.push('/');
    let none = Seq::<char>::empty();
    reveal_strlit("</D:href>");
    let word = "</D:href>"@.subrange(1, 8);
    assert(!part.contains('<') && !part.contains('>')) by {
        assert forall|k: int| 0 <= k < part.len() implies part[k] != '<' && part[k] != '>' by {
            if k < prefix.len() {
                assert(prefix.contains(prefix[k]));
            }
        }
    }
    assert forall|k: int| !(#[trigger] occurs_at(word, part, k)) by {
        if occurs_at(word, part, k) {
            assert(word.subrange(k, k + part.len()).last() == '/');
            assert(word[k + part.len() - 1] == '/');
        }
    }
    assert(lacks(none, part));
    lemma_lacks_across(text, '<', word, part);
    lemma_lacks_across(text + seq!['<'] + word, '>', none, part);
    assert(text + seq!['<'] + word + seq!['>'] + none =~= text + "</D:href>"@);
}

/// A text is replaced where it is found first, and then in what follows.
proof fn lemma_replaced_first(
    head: Seq<char>,
    part: Seq<char>,
    behind: Seq<char>,
    by: Seq<char>,
)
    requires
        part.len() > 0,
        lacks(head + part.drop_last(), part),
    ensures
        replaced(head + part + behind, part, by) == head + by + replaced(behind, part, by),
{
    let all = head + part + behind;
    lemma_find_first(head, part, behind, 0);
    assert(all.take(head.len() as int) =~= head);
    assert(all.skip((head.len() + part.len()) as int) =~= behind);
}

/// A listing whose first path begins with a prefix and a slash.
proof fn lemma_first_path(
    before: Seq<char>,
    text: Seq<char>,
    prefix: Seq<char>,
    tail: Seq<char>,
    rest: Seq<char>,
    shown: Seq<char>,
)
    ensures
        before + (text + "<D:href>"@ + (prefix + (seq!['/'] + tail)) + "</D:href>"@ + rest) == (
        before + text + "<D:href>"@) + prefix.push('/') + (tail + "</D:href>"@ + rest),
        (before + text + "<D:href>"@) + "/"@ + (tail + "</D:href>"@ + shown) == before + (text
            + "<D:href>"@ + (seq!['/'] + tail) + "</D:href>"@ + shown),
{
    reveal_strlit("/");
    assert("/"@ =~= seq!['/']);
    assert(before + (text + "<D:href>"@ + (prefix + (seq!['/'] + tail)) + "</D:href>"@ + rest) =~= (
    before + text + "<D:href>"@) + prefix.push('/') + (tail + "</D:href>"@ + rest));
    assert((before + text + "<D:href>"@) + "/"@ + (tail + "</D:href>"@ + shown) =~= before + (text
        + "<D:href>"@ + (seq!['/'] + tail) + "</D:href>"@ + shown));
}

/// The prefix is taken off the paths in a listing.
proof fn lemma_paths_without_prefix(
    before: Seq<char>,
    texts: Seq<Seq<char>>,
    paths: Seq<Seq<char>>,
    prefix: Seq<char>,
)
    requires
        texts.len() == paths.len() + 1,
        prefix.len() > 0,
        !prefix.contains('<') && !prefix.contains('>'),
        before.len() > 0 ==> before.last() == '>',
        lacks(before, prefix.push('/')),
        forall|i: int| 0 <= i < texts.len() ==> lacks(#[trigger] texts[i], prefix.push('/')),
        forall|i: int|
            0 <= i < paths.len() ==> (#[trigger] paths[i]).len() > 0 && paths[i][0] == '/' && lacks(
                paths[i].skip(1),
                prefix.push('/'),
            ),
    ensures
        replaced(
            before + listing_of(texts, prefixed(prefix, paths)),
            prefix.push('/'),
            "/"@,
        ) == before + listing_of(texts, paths),
    decreases paths.len(),
{
    let part = prefix.push('/');
    let hrefs = prefixed(prefix, paths);
    let text = texts.first();
    assert(text == texts[0]);
    lemma_marks_lack(before, text, prefix);
    if paths.len() == 0 {
        lemma_find_none(before + text, part, 0);
    } else {
        let path = paths.first();
        let tail = path.skip(1);
        let more_texts = texts.drop_first();
        let more_paths = paths.drop_first();
        assert(path == paths[0]);
        assert(path =~= seq!['/'] + tail);
        assert(hrefs.first() == prefix + path);
        assert(hrefs.drop_first() =~= prefixed(prefix, more_paths));
        assert forall|i: int| 0 <= i < more_texts.len() implies lacks(
            #[trigger] more_texts[i],
            part,
        ) by {
            assert(more_texts[i] == texts[i + 1]);
        }
        assert forall|i: int| 0 <= i < more_paths.len() implies (#[trigger] more_paths[i]).len() > 0
            && more_paths[i][0] == '/' && lacks(more_paths[i].skip(1), part) by {
            assert(more_paths[i] == paths[i + 1]);
        }
        lemma_end_mark_lacks(tail, prefix);
        let next = tail + "</D:href>"@;
        assert(next.last() == '>') by {
            reveal_strlit("</D:href>");
        }
        lemma_paths_without_prefix(next, more_texts, more_paths, prefix);
        let head = before + text + "<D:href>"@;
        let rest = listing_of(more_texts, prefixed(prefix, more_paths));
        let shown = listing_of(more_texts, more_paths);
        assert(part.drop_last() =~= prefix);
        lemma_replaced_first(head, part, next + rest, "/"@);
        lemma_first_path(before, text, prefix, tail, rest, shown);
    }
}

/// A client that asks for a listing sees for every file the path that clients
/// give it, whatever the configuration: without the prefix of the upstream
/// server, and with its own name if names are encrypted. Everything else in the
/// listing stays. The marks around paths must stand only there, and the prefix
/// before a slash only at the beginning of paths.
pub proof fn law_listing_as_clients_see_it(
    cfg: BackendConfig,
    path: Seq<char>,
    dav_path: Seq<char>,
    fields: Fields,
    destination: Option<Seq<char>>,
    prefix: Seq<char>,
    resp: ResponseView,
    texts: Seq<Seq<char>>,
    paths: Seq<Seq<char>>,
)
    requires
        texts.len() == paths.len() + 1,
        prefix != "/"@,
        !prefix.contains('<') && !prefix.contains('>'),
        resp.status == 207,
        resp.body == encode_utf8(
            listing_of(
                texts,
                prefixed(prefix, paths.map_values(|path: Seq<char>| stored_path(cfg, path))),
            ),
        ),
        forall|i: int| 0 <= i < texts.len() ==> lacks(#[trigger] texts[i], prefix.push('/')),
        forall|i: int|
            0 <= i < paths.len() ==> (#[trigger] paths[i]).len() > 0 && paths[i][0] == '/' && lacks(
                paths[i].skip(1),
                prefix.push('/'),
            ),
        cfg.encryption matches Some(enc) ==> (enc.enable && enc.enc_name ==> {
            &&& name_scheme(enc).enc_suffix matches Some(suffix) ==> suffix.len() > 0
                && !suffix.contains('/')
            &&& forall|i: int| 0 <= i < paths.len() ==> lacks(#[trigger] texts[i], "<D:href>"@)
            &&& first_href(texts.last()) is None
            &&& forall|i: int|
                0 <= i < paths.len() ==> is_plain_path(#[trigger] paths[i]) && is_plain_path(
                    prefix + paths[i],
                ) && lacks(prefix + stored_path(cfg, paths[i]), "</D:href>"@)
        }),
    ensures
        planned(cfg, "PROPFIND"@, path, dav_path, fields, destination) matches PlanView::Forward {
            method,
            url,
            headers,
            with_body,
            after,
        } && {
            &&& method == "PROPFIND"@
            &&& url == plain_target(cfg, dav_path)
            &&& headers == fields
            &&& with_body
            &&& is_answered(
                followed(cfg, prefix, after, resp),
                resp,
                encode_utf8(listing_of(texts, paths)),
            )
        },
{
    lemma_methods();
    let stored = paths.map_values(|path: Seq<char>| stored_path(cfg, path));
    let hrefs = prefixed(prefix, stored);
    let shown = prefixed(prefix, paths);
    let text = listing_of(texts, hrefs);
    let readable = listing_of(texts, shown);
    encode_utf8_valid_utf8(text);
    encode_utf8_decode_utf8(text);
    encode_utf8_valid_utf8(readable);
    encode_utf8_decode_utf8(readable);
    if encrypts_names(cfg) {
        let scheme = name_scheme(cfg.encryption->0);
        assert forall|i: int| 0 <= i < shown.len() implies is_plain_path(#[trigger] shown[i])
            && lacks(scheme.encrypted_path(shown[i]), "</D:href>"@) && hrefs[i]
            == scheme.encrypted_path(shown[i]) by {
            assert(is_plain_path(paths[i]));
            law_prefix_stays(scheme, prefix, paths[i]);
            assert(lacks(prefix + stored_path(cfg, paths[i]), "</D:href>"@));
        }
        assert(hrefs =~= shown.map_values(|path: Seq<char>| scheme.encrypted_path(path)));
        law_listing_shows_paths(scheme, texts, shown);
    } else {
        assert(stored =~= paths);
    }
    if prefix.len() > 0 {
        let none = Seq::<char>::empty();
        assert(lacks(none, prefix.push('/')));
        lemma_paths_without_prefix(none, texts, paths, prefix);
        reveal_strlit("/");
        assert(prefix + "/"@ =~= prefix.push('/'));
        assert(none + readable =~= readable);
        assert(none + listing_of(texts, paths) =~= listing_of(texts, paths));
    } else {
        assert(shown =~= paths) by {
            assert forall|i: int| 0 <= i < paths.len() implies shown[i] == paths[i] by {
                assert(prefix + paths[i] =~= paths[i]);
            }
        }
    }
}

/// A request without a path is one for the root.
pub proof fn law_root(path: Seq<char>)
    ensures
        or_root(Seq::empty()) == "/"@,
        path.len() > 0 ==> or_root(path) == path,
{
}

} // verus!
