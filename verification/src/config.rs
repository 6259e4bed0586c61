//! The configuration: its parts, its defaults, and what is wrong with it.
use base64::Engine;
use vstd::prelude::*;
use vstd::utf8::{encode_utf8, is_ascii_chars};

use crate::crypto::mix64::{
    ascii_text, decode64, encode64, is_alphabet, law_decode_encode, lemma_ascii_text,
    lemma_encode64,
};
use crate::crypto::{ascii_uppercase, law_algorithms, upper, EncType};
use crate::text::{
    decimal, decimal_of, join2, join3, law_trim_end, str_eq, trim_end, trimmed_end,
};

verus! {

#[derive(Debug, Clone)]
pub struct RootConfig {
    pub log: LogSettings,
    pub backends: Vec<BackendConfig>,
}

#[derive(Debug, Clone)]
pub struct LogSettings {
    pub level: String,
    pub format: String,
}

#[derive(Debug, Clone)]
pub struct BackendConfig {
    pub name: String,
    pub listen: ListenConfig,
    pub webdav_host: WebdavHostConfig,
    pub encryption: Option<EncryptionConfig>,
}

#[derive(Debug, Clone)]
pub struct ListenConfig {
    pub port: u16,
}

#[derive(Debug, Clone)]
pub struct WebdavHostConfig {
    pub url: String,
    pub insecure_skip_verify: bool,
    pub username: Option<String>,
    pub password: Option<String>,
}

#[derive(Debug, Clone)]
pub struct EncryptionConfig {
    pub enable: bool,
    pub password: String,
    pub enc_type: String,
    pub enc_name: bool,
    pub enc_suffix: Option<String>,
}

#[derive(Debug, Clone)]
pub struct StreamConfig {
    pub buffer_kb: usize,
    pub circuit_breaker_threshold: usize,
    pub circuit_breaker_cooldown_secs: u64,
    pub retry_max_attempts: usize,
    pub max_active_streams: usize,
}

pub fn default_log_level() -> (r: String)
    ensures
        r@ == "info"@,
{
    "info".to_string()
}

pub fn default_log_format() -> (r: String)
    ensures
        r@ == "json"@,
{
    "json".to_string()
}

pub fn default_enc_type() -> (r: String)
    ensures
        r@ == "aesctr"@,
{
    "aesctr".to_string()
}

pub fn default_buffer_kb() -> (r: usize)
    ensures
        r == 512,
{
    512
}

pub fn default_cb_threshold() -> (r: usize)
    ensures
        r == 5,
{
    5
}

pub fn default_cb_cooldown() -> (r: u64)
    ensures
        r == 30,
{
    30
}

pub fn default_retry() -> (r: usize)
    ensures
        r == 2,
{
    2
}

pub fn default_max_streams() -> (r: usize)
    ensures
        r == 32,
{
    32
}

impl Default for LogSettings {
    fn default() -> (r: Self)
        ensures
            r.level@ == "info"@,
            r.format@ == "json"@,
    {
        LogSettings { level: default_log_level(), format: default_log_format() }
    }
}

impl Default for StreamConfig {
    fn default() -> (r: Self)
        ensures
            r.buffer_kb == 512,
            r.circuit_breaker_threshold == 5,
            r.circuit_breaker_cooldown_secs == 30,
            r.retry_max_attempts == 2,
            r.max_active_streams == 32,
    {
        StreamConfig {
            buffer_kb: default_buffer_kb(),
            circuit_breaker_threshold: default_cb_threshold(),
            circuit_breaker_cooldown_secs: default_cb_cooldown(),
            retry_max_attempts: default_retry(),
            max_active_streams: default_max_streams(),
        }
    }
}

impl LogSettings {
    /// Whether the log is written for people: the format is `console`, `text`
    /// or `pretty`. Every other format is JSON.
    pub fn human_readable(&self) -> (r: bool)
        ensures
            r == (self.format@ == "console"@ || self.format@ == "text"@ || self.format@
                == "pretty"@),
    {
        str_eq(&self.format, "console") || str_eq(&self.format, "text") || str_eq(
            &self.format,
            "pretty",
        )
    }
}

/// The characters of the standard base-64 code: `A` to `Z`, `a` to `z`, `0` to
/// `9`, `+` and `/`, and `=` for padding.
pub open spec fn standard_alphabet() -> Seq<u8> {
    Seq::new(
        65,
        |i: int|
            if i < 26 {
                (65 + i) as u8
            } else if i < 52 {
                (97 + i - 26) as u8
            } else if i < 62 {
                (48 + i - 52) as u8
            } else if i == 62 {
                43
            } else if i == 63 {
                47
            } else {
                61
            },
    )
}

/// `base64::engine::general_purpose::STANDARD`'s `encode`: the standard
/// base-64 code of some bytes, with padding. It panics when the code would be
/// too long for a vector.
#[verifier::external_body]
fn standard_base64(data: &[u8]) -> (r: String)
    requires
        4 * ((data@.len() + 2) / 3) <= isize::MAX,
    ensures
        r@ == ascii_text(encode64(standard_alphabet(), data@)),
{
    base64::engine::general_purpose::STANDARD.encode(data)
}

/// The path that `url::Url::parse` and `url::Url::path` find in a URL; none if
/// the text is no URL.
pub uninterp spec fn parsed_url_path(url: Seq<char>) -> Option<Seq<char>>;

/// The characters of an optional string.
pub open spec fn opt_text(s: Option<String>) -> Option<Seq<char>> {
    match s {
        Some(s) => Some(s@),
        None => None,
    }
}

/// `url::Url::parse`, and `path` of what it gives: the path of a URL, which
/// depends on the text alone.
#[verifier::external_body]
pub(crate) fn url_path(url: &str) -> (r: Option<String>)
    ensures
        opt_text(r) == parsed_url_path(url@),
{
    url::Url::parse(url).ok().map(|u| u.path().to_string())
}

/// The prefix that the path of a URL puts before the paths of files: the path
/// without the slashes at its end.
pub open spec fn prefix_of(path: Option<Seq<char>>) -> Seq<char> {
    match path {
        Some(p) => trim_end(p, '/'),
        None => Seq::empty(),
    }
}

/// The prefix that the path of a URL puts before the paths of files.
pub fn prefix_of_path(path: Option<String>) -> (r: String)
    ensures
        r@ == prefix_of(opt_text(path)),
{
    match path {
        Some(p) => trimmed_end(&p, '/'),
        None => String::new(),
    }
}

impl WebdavHostConfig {
    /// The user and the password, as they are sent.
    pub open spec fn credentials(self) -> Option<Seq<char>> {
        match (self.username, self.password) {
            (Some(username), Some(password)) => Some(username@ + ":"@ + password@),
            _ => None,
        }
    }

    /// Whether the credentials can be encoded in memory.
    pub open spec fn credentials_fit(self) -> bool {
        self.credentials() matches Some(auth) ==> 4 * ((encode_utf8(auth).len() + 2) / 3)
            <= isize::MAX
    }

    /// Whether the credentials can be encoded in memory.
    pub fn credentials_can_be_encoded(&self) -> (r: bool)
        ensures
            r == self.credentials_fit(),
    {
        match (&self.username, &self.password) {
            (Some(username), Some(password)) => {
                let auth: String = join3(username, ":", password);
                let len: usize = auth.as_str().as_bytes().len();
                4 * ((len as u128 + 2) / 3) <= isize::MAX as u128
            },
            _ => true,
        }
    }

    /// The value of the header that carries some credentials.
    pub open spec fn auth_value(auth: Seq<char>) -> Seq<char> {
        "Basic "@ + ascii_text(encode64(standard_alphabet(), encode_utf8(auth)))
    }

    /// The value of the header that carries the credentials, if there are both
    /// a user and a password.
    pub fn basic_auth_header(&self) -> (r: Option<String>)
        requires
            self.credentials_fit(),
        ensures
            opt_text(r) == match self.credentials() {
                Some(auth) => Some(WebdavHostConfig::auth_value(auth)),
                None => None,
            },
    {
        let username: &String = match &self.username {
            Some(u) => u,
            None => return None,
        };
        let password: &String = match &self.password {
            Some(p) => p,
            None => return None,
        };
        let auth: String = join3(username, ":", password);
        let encoded: String = standard_base64(auth.as_str().as_bytes());
        Some(join2("Basic ", &encoded))
    }

    /// The prefix that the upstream URL puts before the paths of files.
    pub open spec fn prefix(self) -> Seq<char> {
        prefix_of(parsed_url_path(self.url@))
    }

    /// The prefix that the upstream URL puts before the paths of files.
    pub fn path_prefix(&self) -> (r: String)
        ensures
            r@ == self.prefix(),
    {
        prefix_of_path(url_path(&self.url))
    }
}

/// Whether a text is printable ASCII without quotation marks and backslashes,
/// so that nothing in it has to be escaped.
pub open spec fn needs_no_escape(s: Seq<char>) -> bool {
    forall|i: int|
        0 <= i < s.len() ==> ' ' <= #[trigger] s[i] && s[i] <= '~' && s[i] != '"' && s[i] != '\\'
}

/// What `{:?}` makes of a text: the text in quotes, with escapes in it.
pub uninterp spec fn str_debug(s: Seq<char>) -> Seq<char>;

/// A text in quotes, with what has to be escaped in it escaped.
pub open spec fn quoted(s: Seq<char>) -> Seq<char> {
    if needs_no_escape(s) {
        seq!['"'] + s + seq!['"']
    } else {
        str_debug(s)
    }
}

/// `format!` with `{:?}` on a `str`: of a text in printable ASCII without
/// quotation marks and backslashes it makes the text in quotation marks. Of
/// another text it makes one with escapes, which depends on the text alone.
#[verifier::external_body]
fn debugged(s: &str) -> (r: String)
    ensures
        r@ == if needs_no_escape(s@) {
            seq!['"'] + s@ + seq!['"']
        } else {
            str_debug(s@)
        },
{
    format!("{:?}", s)
}

/// The views of some strings.
pub open spec fn texts(v: Seq<String>) -> Seq<Seq<char>> {
    v.map_values(|s: String| s@)
}

/// Something wrong with the backend of a name.
pub open spec fn about(name: Seq<char>, what: Seq<char>) -> Seq<char> {
    "backend "@ + quoted(name) + what
}

/// The first of the first `n` backends that listens on a port.
pub open spec fn first_on_port(backends: Seq<BackendConfig>, port: u16, n: int) -> Option<int>
    decreases n,
{
    if n <= 0 {
        None
    } else {
        match first_on_port(backends, port, n - 1) {
            Some(i) => Some(i),
            None => if backends[n - 1].listen.port == port {
                Some(n - 1)
            } else {
                None
            },
        }
    }
}

/// Whether one of the first `n` backends has a name.
pub open spec fn name_taken(backends: Seq<BackendConfig>, name: Seq<char>, n: int) -> bool {
    exists|i: int| 0 <= i < n && #[trigger] backends[i].name@ == name
}

/// Whether a text is the name of an algorithm in the configuration.
pub open spec fn is_enc_type(s: Seq<char>) -> bool {
    ||| s == "aesctr"@
    ||| s == "chacha20"@
    ||| s == "aesgcm"@
    ||| s == "chacha20poly1305"@
    ||| s == "chacha20-poly1305"@
    ||| s == "aesgcmsiv"@
    ||| s == "aes-gcm-siv"@
}

/// One error or none.
pub open spec fn error_if(wrong: bool, error: Seq<char>) -> Seq<Seq<char>> {
    if wrong {
        seq![error]
    } else {
        Seq::empty()
    }
}

/// What is wrong with the name of a backend.
pub open spec fn name_errors(backends: Seq<BackendConfig>, i: int) -> Seq<Seq<char>> {
    let name = backends[i].name@;
    if name.len() == 0 {
        seq!["backend name is required"@]
    } else {
        error_if(name_taken(backends, name, i), about(name, ": name must be unique"@))
    }
}

/// What is wrong with the port of a backend.
pub open spec fn port_errors(backends: Seq<BackendConfig>, i: int) -> Seq<Seq<char>> {
    let be = backends[i];
    if be.listen.port == 0 {
        seq![about(be.name@, ": listen.port must be between 1 and 65535"@)]
    } else {
        match first_on_port(backends, be.listen.port, i) {
            Some(j) => seq![
                about(
                    be.name@,
                    ": port "@ + decimal(be.listen.port as nat) + " conflicts with backend "@
                        + quoted(backends[j].name@),
                ),
            ],
            None => Seq::empty(),
        }
    }
}

/// What is wrong with the encryption of a backend.
pub open spec fn encryption_errors(be: BackendConfig) -> Seq<Seq<char>> {
    match be.encryption {
        Some(enc) => if enc.enable {
            error_if(
                enc.password@.len() == 0,
                about(be.name@, ": encryption.password is required when enabled"@),
            ) + error_if(
                enc.enc_type@.len() > 0 && !is_enc_type(enc.enc_type@),
                about(
                    be.name@,
                    ": encryption.enc_type must be one of aesctr, chacha20, aesgcm, chacha20poly1305, aesgcmsiv"@,
                ),
            )
        } else {
            Seq::empty()
        },
        None => Seq::empty(),
    }
}

/// What is wrong with a backend.
pub open spec fn backend_errors(backends: Seq<BackendConfig>, i: int) -> Seq<Seq<char>> {
    let be = backends[i];
    name_errors(backends, i) + port_errors(backends, i) + error_if(
        be.webdav_host.url@.len() == 0,
        about(be.name@, ": webdav_host.url is required"@),
    ) + encryption_errors(be)
}

/// What is wrong with the first `n` backends.
pub open spec fn errors_upto(backends: Seq<BackendConfig>, n: int) -> Seq<Seq<char>>
    decreases n,
{
    if n <= 0 {
        error_if(backends.len() == 0, "at least one backend is required"@)
    } else {
        errors_upto(backends, n - 1) + backend_errors(backends, n - 1)
    }
}

/// Some texts with a separator between them.
pub open spec fn join_with(parts: Seq<Seq<char>>, separator: Seq<char>) -> Seq<char>
    decreases parts.len(),
{
    if parts.len() == 0 {
        Seq::empty()
    } else if parts.len() == 1 {
        parts[0]
    } else {
        join_with(parts.drop_last(), separator) + separator + parts.last()
    }
}

/// Adds an error to a list.
fn add_error(errs: &mut Vec<String>, error: String)
    ensures
        texts(final(errs)@) == texts(old(errs)@).push(error@),
{
    errs.push(error);
    assert(texts(errs@) =~= texts(old(errs)@).push(error@));
}

/// Something wrong with the backend of a name.
fn about_backend(name: &str, what: &str) -> (r: String)
    ensures
        r@ == about(name@, what@),
{
    join3("backend ", &debugged(name), what)
}

/// Joins texts with a separator between them.
fn joined(parts: &[String], separator: &str) -> (r: String)
    ensures
        r@ == join_with(texts(parts@), separator@),
{
    let mut out: String = String::new();
    let mut i: usize = 0;
    let ghost all = texts(parts@);
    assert(all.take(0) =~= Seq::empty());
    while i < parts.len()
        invariant
            i <= parts@.len(),
            all == texts(parts@),
            out@ == join_with(all.take(i as int), separator@),
        decreases parts@.len() - i,
    {
        let ghost next = all.take(i + 1);
        assert(next.drop_last() =~= all.take(i as int));
        assert(next.last() == parts@[i as int]@);
        if i > 0 {
            out.append(separator);
            out.append(&parts[i]);
        } else {
            out.append(&parts[i]);
            assert(out@ =~= next[0]);
        }
        i += 1;
    }
    assert(all.take(i as int) =~= all);
    out
}

impl RootConfig {
    /// All that is wrong with the configuration.
    pub open spec fn errors(self) -> Seq<Seq<char>> {
        errors_upto(self.backends@, self.backends@.len() as int)
    }

    /// Looks for what is wrong with the configuration.
    pub fn validate(&self) -> (r: Result<(), String>)
        ensures
            match r {
                Ok(()) => self.errors().len() == 0,
                Err(message) => self.errors().len() > 0 && message@
                    == "configuration validation failed:\n  - "@ + join_with(
                    self.errors(),
                    "\n  - "@,
                ),
            },
    {
        let ghost bs = self.backends@;
        let mut errs: Vec<String> = Vec::new();
        assert(texts(errs@) =~= Seq::empty());
        if self.backends.len() == 0 {
            add_error(&mut errs, "at least one backend is required".to_string());
        }
        assert(texts(errs@) =~= errors_upto(bs, 0));
        let mut i: usize = 0;
        while i < self.backends.len()
            invariant
                i <= self.backends@.len(),
                bs == self.backends@,
                texts(errs@) == errors_upto(bs, i as int),
            decreases self.backends@.len() - i,
        {
            self.check_name(i, &mut errs);
            self.check_port(i, &mut errs);
            self.check_rest(i, &mut errs);
            assert(texts(errs@) =~= errors_upto(bs, i + 1));
            i += 1;
        }
        assert(texts(errs@).len() == errs@.len());
        if errs.len() == 0 {
            Ok(())
        } else {
            Err(join2("configuration validation failed:\n  - ", &joined(&errs, "\n  - ")))
        }
    }

    /// Adds what is wrong with the name of a backend.
    fn check_name(&self, i: usize, errs: &mut Vec<String>)
        requires
            i < self.backends@.len(),
        ensures
            texts(final(errs)@) == texts(old(errs)@) + name_errors(self.backends@, i as int),
    {
        let ghost bs = self.backends@;
        let name: &str = self.backends[i].name.as_str();
        if name.unicode_len() == 0 {
            add_error(errs, "backend name is required".to_string());
        } else {
            let mut j: usize = 0;
            while j < i && !str_eq(&self.backends[j].name, name)
                invariant
                    j <= i < bs.len(),
                    bs == self.backends@,
                    forall|k: int| 0 <= k < j ==> #[trigger] bs[k].name@ != name@,
                decreases i - j,
            {
                j += 1;
            }
            if j < i {
                assert(bs[j as int].name@ == name@);
                add_error(errs, about_backend(name, ": name must be unique"));
            }
        }
        assert(texts(errs@) =~= texts(old(errs)@) + name_errors(bs, i as int));
    }

    /// Adds what is wrong with the port of a backend.
    fn check_port(&self, i: usize, errs: &mut Vec<String>)
        requires
            i < self.backends@.len(),
        ensures
            texts(final(errs)@) == texts(old(errs)@) + port_errors(self.backends@, i as int),
    {
        let ghost bs = self.backends@;
        let name: &str = self.backends[i].name.as_str();
        let port: u16 = self.backends[i].listen.port;
        if port == 0 {
            add_error(errs, about_backend(name, ": listen.port must be between 1 and 65535"));
        } else {
            let mut j: usize = 0;
            while j < i && self.backends[j].listen.port != port
                invariant
                    j <= i < bs.len(),
                    bs == self.backends@,
                    first_on_port(bs, port, j as int) is None,
                decreases i - j,
            {
                j += 1;
            }
            if j < i {
                proof {
                    lemma_first_on_port(bs, port, j as int, i as int);
                }
                let mut what: String = join3(
                    ": port ",
                    &decimal_of(port as u64),
                    " conflicts with backend ",
                );
                what.append(&debugged(&self.backends[j].name));
                add_error(errs, about_backend(name, &what));
            }
        }
        assert(texts(errs@) =~= texts(old(errs)@) + port_errors(bs, i as int));
    }

    /// Adds what is wrong with the upstream server and the encryption of a
    /// backend.
    fn check_rest(&self, i: usize, errs: &mut Vec<String>)
        requires
            i < self.backends@.len(),
        ensures
            texts(final(errs)@) == texts(old(errs)@) + error_if(
                self.backends@[i as int].webdav_host.url@.len() == 0,
                about(self.backends@[i as int].name@, ": webdav_host.url is required"@),
            ) + encryption_errors(self.backends@[i as int]),
    {
        let be: &BackendConfig = &self.backends[i];
        if be.webdav_host.url.as_str().unicode_len() == 0 {
            add_error(errs, about_backend(&be.name, ": webdav_host.url is required"));
        }
        if let Some(enc) = &be.encryption {
            if enc.enable {
                if enc.password.as_str().unicode_len() == 0 {
                    add_error(
                        errs,
                        about_backend(
                            &be.name,
                            ": encryption.password is required when enabled",
                        ),
                    );
                }
                if enc.enc_type.as_str().unicode_len() > 0 && !known_enc_type(&enc.enc_type) {
                    add_error(
                        errs,
                        about_backend(
                            &be.name,
                            ": encryption.enc_type must be one of aesctr, chacha20, aesgcm, chacha20poly1305, aesgcmsiv",
                        ),
                    );
                }
            }
        }
        assert(texts(errs@) =~= texts(old(errs)@) + error_if(
            be.webdav_host.url@.len() == 0,
            about(be.name@, ": webdav_host.url is required"@),
        ) + encryption_errors(*be));
    }
}

/// Tests whether a text is the name of an algorithm in the configuration.
fn known_enc_type(s: &str) -> (r: bool)
    ensures
        r == is_enc_type(s@),
{
    str_eq(s, "aesctr") || str_eq(s, "chacha20") || str_eq(s, "aesgcm") || str_eq(
        s,
        "chacha20poly1305",
    ) || str_eq(s, "chacha20-poly1305") || str_eq(s, "aesgcmsiv") || str_eq(s, "aes-gcm-siv")
}

/// The first backend on a port stays the first when more are looked at.
proof fn lemma_first_on_port(backends: Seq<BackendConfig>, port: u16, j: int, n: int)
    requires
        0 <= j < n,
        first_on_port(backends, port, j) is None,
        backends[j].listen.port == port,
    ensures
        first_on_port(backends, port, n) == Some(j),
    decreases n,
{
    if n > j + 1 {
        lemma_first_on_port(backends, port, j, n - 1);
    }
}

/// Whether a backend can be served: it has a name, a port, an upstream server
/// and, if files are to be encrypted, a password and a known algorithm.
pub open spec fn is_complete(be: BackendConfig) -> bool {
    &&& be.name@.len() > 0
    &&& be.listen.port != 0
    &&& be.webdav_host.url@.len() > 0
    &&& be.encryption matches Some(enc) ==> enc.enable ==> enc.password@.len() > 0 && (
    enc.enc_type@.len() == 0 || is_enc_type(enc.enc_type@))
}

/// Whether two backends can be served beside each other.
pub open spec fn differ(a: BackendConfig, b: BackendConfig) -> bool {
    a.name@ != b.name@ && a.listen.port != b.listen.port
}

/// Whether the backends of a configuration can be served.
pub open spec fn is_valid(backends: Seq<BackendConfig>) -> bool {
    &&& backends.len() > 0
    &&& forall|i: int| 0 <= i < backends.len() ==> #[trigger] is_complete(backends[i])
    &&& forall|i: int, j: int|
        0 <= i < j < backends.len() ==> #[trigger] differ(backends[i], backends[j])
}

/// When nothing is wrong with the port of a backend.
proof fn lemma_no_port_before(backends: Seq<BackendConfig>, port: u16, n: int)
    ensures
        first_on_port(backends, port, n) is None <==> forall|j: int|
            0 <= j < n ==> #[trigger] backends[j].listen.port != port,
        first_on_port(backends, port, n) matches Some(i) ==> 0 <= i < n && backends[i].listen.port
            == port,
    decreases n,
{
    if n > 0 {
        lemma_no_port_before(backends, port, n - 1);
    }
}

/// When nothing is wrong with a backend.
proof fn lemma_no_backend_errors(backends: Seq<BackendConfig>, i: int)
    requires
        0 <= i < backends.len(),
    ensures
        backend_errors(backends, i).len() == 0 <==> is_complete(backends[i]) && forall|j: int|
            0 <= j < i ==> #[trigger] differ(backends[j], backends[i]),
{
    let be = backends[i];
    lemma_no_port_before(backends, be.listen.port, i);
    if is_complete(be) && (forall|j: int| 0 <= j < i ==> #[trigger] differ(backends[j], be)) {
        assert forall|j: int| 0 <= j < i implies #[trigger] backends[j].listen.port
            != be.listen.port by {
            assert(differ(backends[j], be));
        }
        assert(!name_taken(backends, be.name@, i)) by {
            if name_taken(backends, be.name@, i) {
                let j = choose|j: int| 0 <= j < i && #[trigger] backends[j].name@ == be.name@;
                assert(differ(backends[j], be));
            }
        }
    }
    if backend_errors(backends, i).len() == 0 {
        assert(name_errors(backends, i).len() == 0);
        assert(port_errors(backends, i).len() == 0);
        assert(encryption_errors(be).len() == 0);
        assert forall|j: int| 0 <= j < i implies #[trigger] differ(backends[j], be) by {
            assert(backends[j].listen.port != be.listen.port);
            assert(backends[j].name@ != be.name@);
        }
    }
}

/// When nothing is wrong with the first backends.
proof fn lemma_no_errors_upto(backends: Seq<BackendConfig>, n: int)
    requires
        0 <= n <= backends.len(),
    ensures
        errors_upto(backends, n).len() == 0 <==> backends.len() > 0 && forall|i: int|
            0 <= i < n ==> (#[trigger] backend_errors(backends, i)).len() == 0,
    decreases n,
{
    if n > 0 {
        lemma_no_errors_upto(backends, n - 1);
    }
}

/// Nothing is wrong with a configuration exactly if it has backends, each of
/// them can be served, and no two share a name or a port.
pub proof fn law_valid_configuration(cfg: RootConfig)
    ensures
        cfg.errors().len() == 0 <==> is_valid(cfg.backends@),
{
    let bs = cfg.backends@;
    lemma_no_errors_upto(bs, bs.len() as int);
    if cfg.errors().len() == 0 {
        assert forall|i: int| 0 <= i < bs.len() implies #[trigger] is_complete(bs[i]) by {
            assert(backend_errors(bs, i).len() == 0);
            lemma_no_backend_errors(bs, i);
        }
        assert forall|i: int, j: int| 0 <= i < j < bs.len() implies #[trigger] differ(
            bs[i],
            bs[j],
        ) by {
            assert(backend_errors(bs, j).len() == 0);
            lemma_no_backend_errors(bs, j);
        }
    }
    if is_valid(bs) {
        assert forall|i: int| 0 <= i < bs.len() implies (#[trigger] backend_errors(bs, i)).len()
            == 0 by {
            lemma_no_backend_errors(bs, i);
            assert(is_complete(bs[i]));
        }
    }
}

/// Every name that the configuration may give an algorithm stands for one: that
/// of which it is the name.
pub proof fn law_enc_types_are_known(s: Seq<char>)
    requires
        is_enc_type(s),
    ensures
        EncType::named(upper(s)) is Some,
        s == "aesctr"@ ==> EncType::named(upper(s)) == Some(EncType::AesCtr),
        s == "chacha20"@ ==> EncType::named(upper(s)) == Some(EncType::ChaCha20),
        s == "aesgcm"@ ==> EncType::named(upper(s)) == Some(EncType::AesGcm),
        s == "chacha20poly1305"@ || s == "chacha20-poly1305"@ ==> EncType::named(upper(s)) == Some(
            EncType::ChaCha20Poly1305,
        ),
        s == "aesgcmsiv"@ || s == "aes-gcm-siv"@ ==> EncType::named(upper(s)) == Some(
            EncType::AesGcmSiv,
        ),
{
    law_algorithms(ascii_uppercase(s));
    reveal_strlit("aesctr");
    reveal_strlit("chacha20");
    reveal_strlit("aesgcm");
    reveal_strlit("chacha20poly1305");
    reveal_strlit("chacha20-poly1305");
    reveal_strlit("aesgcmsiv");
    reveal_strlit("aes-gcm-siv");
    reveal_strlit("AESCTR");
    reveal_strlit("CHACHA20");
    reveal_strlit("AESGCM");
    reveal_strlit("CHACHA20POLY1305");
    reveal_strlit("CHACHA20-POLY1305");
    reveal_strlit("AESGCMSIV");
    reveal_strlit("AES-GCM-SIV");
    assert(is_ascii_chars(s));
    assert("aesctr"@[3] != "aesgcm"@[3]);
    assert("aesctr"@.len() == 6 && "chacha20"@.len() == 8 && "aesgcm"@.len() == 6);
    assert("chacha20poly1305"@.len() == 16 && "chacha20-poly1305"@.len() == 17);
    assert("aesgcmsiv"@.len() == 9 && "aes-gcm-siv"@.len() == 11);
    if s == "aesctr"@ {
        assert(ascii_uppercase(s) =~= "AESCTR"@);
    } else if s == "chacha20"@ {
        assert(ascii_uppercase(s) =~= "CHACHA20"@);
    } else if s == "aesgcm"@ {
        assert(ascii_uppercase(s) =~= "AESGCM"@);
    } else if s == "chacha20poly1305"@ {
        assert(ascii_uppercase(s) =~= "CHACHA20POLY1305"@);
    } else if s == "chacha20-poly1305"@ {
        assert(ascii_uppercase(s) =~= "CHACHA20-POLY1305"@);
    } else if s == "aesgcmsiv"@ {
        assert(ascii_uppercase(s) =~= "AESGCMSIV"@);
    } else {
        assert(ascii_uppercase(s) =~= "AES-GCM-SIV"@);
    }
}

/// The credentials are sent if there are both a user and a password: both, with a
/// colon between them, in the standard base-64 code.
pub proof fn law_credentials(host: WebdavHostConfig)
    ensures
        host.credentials() is Some <==> host.username is Some && host.password is Some,
        host.username matches Some(user) ==> (host.password matches Some(password) ==> (
        host.credentials() matches Some(auth) && {
            let sent = WebdavHostConfig::auth_value(auth);
            &&& sent.take(6) == "Basic "@
            &&& decode64(standard_alphabet(), encode_utf8(sent.skip(6))) == Some(
                encode_utf8(user@ + seq![':'] + password@),
            )
            &&& sent.skip(6).len() == 4 * ((encode_utf8(auth).len() + 2) / 3)
        })),
{
    if let Some(auth) = host.credentials() {
        let sent = WebdavHostConfig::auth_value(auth);
        let chars = standard_alphabet();
        let code = encode64(chars, encode_utf8(auth));
        reveal_strlit("Basic ");
        reveal_strlit(":");
        assert(":"@ =~= seq![':']);
        lemma_standard_alphabet();
        lemma_encode64(chars, encode_utf8(auth));
        law_decode_encode(chars, encode_utf8(auth));
        assert forall|i: int| 0 <= i < code.len() implies #[trigger] code[i] < 128 by {
            assert(chars.contains(code[i]));
            let k = choose|k: int| 0 <= k < chars.len() && chars[k] == code[i];
            assert(chars[k] < 128);
        }
        lemma_ascii_text(code);
        assert(sent.take(6) =~= "Basic "@);
        assert(sent.skip(6) =~= ascii_text(code));
    }
}

/// The characters of the standard code differ from each other.
proof fn lemma_standard_alphabet()
    ensures
        is_alphabet(standard_alphabet()),
{
}

/// The prefix of the upstream server is the path of its address without the
/// slashes at its end; there is none if the address is no URL.
pub proof fn law_prefix(host: WebdavHostConfig, path: Seq<char>, slashes: nat)
    requires
        path.len() > 0 ==> path.last() != '/',
    ensures
        parsed_url_path(host.url@) == Some(path + Seq::new(slashes, |i: int| '/'))
            ==> host.prefix() == path,
        parsed_url_path(host.url@) is None ==> host.prefix().len() == 0,
{
    law_trim_end(path, '/', slashes);
}

/// What is wrong with a configuration is said of one backend after the other, and
/// of each by its name. A backend without a name has one error for that, which
/// cannot name it.
pub proof fn law_errors_name_backends(backends: Seq<BackendConfig>, i: int, k: int)
    requires
        0 <= i < backends.len(),
        0 <= k < backend_errors(backends, i).len(),
    ensures
        ({
            let error = backend_errors(backends, i)[k];
            let start = "backend "@ + quoted(backends[i].name@) + ": "@;
            &&& error == "backend name is required"@ || (error.len() > start.len() && error.take(
                start.len() as int,
            ) == start)
            &&& backends[i].name@.len() > 0 ==> error.take(start.len() as int) == start
        }),
{
    let be = backends[i];
    let name = be.name@;
    lemma_about(name, "name must be unique"@, ": name must be unique"@);
    lemma_about(
        name,
        "listen.port must be between 1 and 65535"@,
        ": listen.port must be between 1 and 65535"@,
    );
    lemma_about(name, "webdav_host.url is required"@, ": webdav_host.url is required"@);
    lemma_about(
        name,
        "encryption.password is required when enabled"@,
        ": encryption.password is required when enabled"@,
    );
    lemma_about(
        name,
        "encryption.enc_type must be one of aesctr, chacha20, aesgcm, chacha20poly1305, aesgcmsiv"@,
        ": encryption.enc_type must be one of aesctr, chacha20, aesgcm, chacha20poly1305, aesgcmsiv"@,
    );
    if let Some(j) = first_on_port(backends, be.listen.port, i) {
        let rest = "port "@ + decimal(be.listen.port as nat) + " conflicts with backend "@ + quoted(
            backends[j].name@,
        );
        let what = ": port "@ + decimal(be.listen.port as nat) + " conflicts with backend "@
            + quoted(backends[j].name@);
        reveal_strlit(": ");
        reveal_strlit(": port ");
        reveal_strlit("port ");
        assert(what =~= ": "@ + rest);
        lemma_starts(name, rest, what);
    }
}

/// What is said of a backend begins with its name.
proof fn lemma_starts(name: Seq<char>, rest: Seq<char>, what: Seq<char>)
    requires
        what == ": "@ + rest,
        rest.len() > 0,
    ensures
        ({
            let start = "backend "@ + quoted(name) + ": "@;
            about(name, what).len() > start.len() && about(name, what).take(start.len() as int)
                == start
        }),
{
    let start = "backend "@ + quoted(name) + ": "@;
    assert(about(name, what) =~= start + rest);
    assert((start + rest).take(start.len() as int) =~= start);
}

/// What is said of a backend, as one of the texts that there are.
proof fn lemma_about(name: Seq<char>, rest: Seq<char>, what: Seq<char>)
    requires
        what == ": name must be unique"@ && rest == "name must be unique"@ || what
            == ": listen.port must be between 1 and 65535"@ && rest
            == "listen.port must be between 1 and 65535"@ || what
            == ": webdav_host.url is required"@ && rest == "webdav_host.url is required"@ || what
            == ": encryption.password is required when enabled"@ && rest
            == "encryption.password is required when enabled"@ || what
            == ": encryption.enc_type must be one of aesctr, chacha20, aesgcm, chacha20poly1305, aesgcmsiv"@
            && rest
            == "encryption.enc_type must be one of aesctr, chacha20, aesgcm, chacha20poly1305, aesgcmsiv"@,
    ensures
        ({
            let start = "backend "@ + quoted(name) + ": "@;
            about(name, what).len() > start.len() && about(name, what).take(start.len() as int)
                == start
        }),
{
    reveal_strlit(": ");
    reveal_strlit(": name must be unique");
    reveal_strlit("name must be unique");
    reveal_strlit(": listen.port must be between 1 and 65535");
    reveal_strlit("listen.port must be between 1 and 65535");
    reveal_strlit(": webdav_host.url is required");
    reveal_strlit("webdav_host.url is required");
    reveal_strlit(": encryption.password is required when enabled");
    reveal_strlit("encryption.password is required when enabled");
    reveal_strlit(
        ": encryption.enc_type must be one of aesctr, chacha20, aesgcm, chacha20poly1305, aesgcmsiv",
    );
    reveal_strlit(
        "encryption.enc_type must be one of aesctr, chacha20, aesgcm, chacha20poly1305, aesgcmsiv",
    );
    assert(what =~= ": "@ + rest);
    lemma_starts(name, rest, what);
}

/// A conflict of ports names the first backend that has the port.
pub proof fn law_port_conflict(backends: Seq<BackendConfig>, i: int, j: int)
    requires
        0 <= j < i < backends.len(),
        backends[i].listen.port != 0,
        backends[j].listen.port == backends[i].listen.port,
        forall|k: int| 0 <= k < j ==> #[trigger] backends[k].listen.port != backends[i].listen.port,
    ensures
        port_errors(backends, i) == seq![
            "backend "@ + quoted(backends[i].name@) + (": port "@ + decimal(
                backends[i].listen.port as nat,
            ) + " conflicts with backend "@ + quoted(backends[j].name@)),
        ],
{
    lemma_no_port_before(backends, backends[i].listen.port, j);
    lemma_first_on_port(backends, backends[i].listen.port, j, i);
}

/// The errors of a configuration are those of its backends, one backend after the
/// other.
pub proof fn law_errors_in_order(backends: Seq<BackendConfig>, n: int)
    requires
        0 < n <= backends.len(),
    ensures
        errors_upto(backends, 0) == Seq::<Seq<char>>::empty(),
        errors_upto(backends, n) == errors_upto(backends, n - 1) + backend_errors(backends, n - 1),
{
}

/// The texts of a list stand one after the other, with the separator between each
/// two of them.
pub proof fn law_join_with(parts: Seq<Seq<char>>, separator: Seq<char>, last: Seq<char>)
    ensures
        join_with(seq![last], separator) == last,
        parts.len() > 0 ==> join_with(parts.push(last), separator) == join_with(parts, separator)
            + separator + last,
{
    if parts.len() > 0 {
        assert(parts.push(last).drop_last() =~= parts);
    }
}

} // verus!
