use whim_dav_proxy::config::{
    default_enc_type, prefix_of_path, BackendConfig, EncryptionConfig, ListenConfig, LogSettings,
    RootConfig, StreamConfig, WebdavHostConfig,
};
use whim_dav_proxy::errors::ProxyError;

fn host(url: &str, username: Option<&str>, password: Option<&str>) -> WebdavHostConfig {
    WebdavHostConfig {
        url: url.to_string(),
        insecure_skip_verify: false,
        username: username.map(|s| s.to_string()),
        password: password.map(|s| s.to_string()),
    }
}

fn backend(name: &str, port: u16) -> BackendConfig {
    BackendConfig {
        name: name.to_string(),
        listen: ListenConfig { port },
        webdav_host: host("http://example.com", None, None),
        encryption: None,
    }
}

fn encryption(password: &str, enc_type: &str) -> EncryptionConfig {
    EncryptionConfig {
        enable: true,
        password: password.to_string(),
        enc_type: enc_type.to_string(),
        enc_name: false,
        enc_suffix: None,
    }
}

fn root(backends: Vec<BackendConfig>) -> RootConfig {
    RootConfig { log: LogSettings::default(), backends }
}

#[test]
fn defaults() {
    let log = LogSettings::default();
    assert_eq!((log.level.as_str(), log.format.as_str()), ("info", "json"));
    let stream = StreamConfig::default();
    assert_eq!(stream.buffer_kb, 512);
    assert_eq!(stream.circuit_breaker_threshold, 5);
    assert_eq!(stream.circuit_breaker_cooldown_secs, 30);
    assert_eq!(stream.retry_max_attempts, 2);
    assert_eq!(stream.max_active_streams, 32);
    assert_eq!(default_enc_type(), "aesctr");
}

#[test]
fn formats_of_the_log() {
    for (format, human) in
        [("console", true), ("text", true), ("pretty", true), ("json", false), ("Console", false)]
    {
        let log = LogSettings { level: "info".to_string(), format: format.to_string() };
        assert_eq!(log.human_readable(), human);
    }
}

#[test]
fn credentials() {
    let header = |u, p| host("http://h", u, p).basic_auth_header();
    assert_eq!(
        header(Some("Aladdin"), Some("open sesame")),
        Some("Basic QWxhZGRpbjpvcGVuIHNlc2FtZQ==".to_string())
    );
    assert_eq!(header(Some("user"), Some("pass")), Some("Basic dXNlcjpwYXNz".to_string()));
    assert_eq!(header(Some("ü"), Some("?~")), Some("Basic w7w6P34=".to_string()));
    assert_eq!(header(Some("user"), None), None);
    assert_eq!(header(None, Some("pass")), None);
    for (u, p) in [(Some("user"), Some("pass")), (Some("user"), None), (None, None)] {
        assert!(host("http://h", u, p).credentials_can_be_encoded());
    }
}

#[test]
fn prefixes() {
    let prefix = |url| host(url, None, None).path_prefix();
    assert_eq!(prefix("https://host/webdav"), "/webdav");
    assert_eq!(prefix("https://host/webdav//"), "/webdav");
    assert_eq!(prefix("https://host/a b"), "/a%20b");
    assert_eq!(prefix("https://host/"), "");
    assert_eq!(prefix("https://host"), "");
    assert_eq!(prefix("no url"), "");
    assert_eq!(prefix_of_path(Some("/x/y/".to_string())), "/x/y");
    assert_eq!(prefix_of_path(None), "");
}

#[test]
fn a_valid_configuration() {
    let mut first = backend("a", 411);
    for name in [
        "",
        "aesctr",
        "chacha20",
        "aesgcm",
        "chacha20poly1305",
        "chacha20-poly1305",
        "aesgcmsiv",
        "aes-gcm-siv",
    ] {
        first.encryption = Some(encryption("123456", name));
        assert_eq!(root(vec![first.clone(), backend("b", 412)]).validate(), Ok(()));
    }
}

#[test]
fn no_backends() {
    assert_eq!(
        root(vec![]).validate().unwrap_err(),
        "configuration validation failed:\n  - at least one backend is required"
    );
}

#[test]
fn everything_wrong_at_once() {
    let mut nameless = backend("", 0);
    nameless.webdav_host.url = String::new();
    nameless.encryption = Some(encryption("", "rot13"));
    assert_eq!(
        root(vec![nameless]).validate().unwrap_err(),
        "configuration validation failed:\n  \
         - backend name is required\n  \
         - backend \"\": listen.port must be between 1 and 65535\n  \
         - backend \"\": webdav_host.url is required\n  \
         - backend \"\": encryption.password is required when enabled\n  \
         - backend \"\": encryption.enc_type must be one of aesctr, chacha20, aesgcm, \
         chacha20poly1305, aesgcmsiv"
    );
}

#[test]
fn ports_must_differ() {
    assert_eq!(
        root(vec![backend("a", 80), backend("b\"", 80), backend("c", 80)]).validate().unwrap_err(),
        "configuration validation failed:\n  \
         - backend \"b\\\"\": port 80 conflicts with backend \"a\"\n  \
         - backend \"c\": port 80 conflicts with backend \"a\""
    );
}

#[test]
fn names_must_differ() {
    assert_eq!(
        root(vec![backend("a", 80), backend("b", 81), backend("a", 82)]).validate().unwrap_err(),
        "configuration validation failed:\n  - backend \"a\": name must be unique"
    );
}

#[test]
fn encryption_that_is_off_is_not_looked_at() {
    let mut be = backend("a", 80);
    be.encryption = Some(EncryptionConfig { enable: false, ..encryption("", "rot13") });
    assert_eq!(root(vec![be]).validate(), Ok(()));
}

#[test]
fn texts_of_errors() {
    assert_eq!(ProxyError::proxy("x").message(), "proxy error: x");
    assert_eq!(ProxyError::internal("x").message(), "internal error: x");
    assert_eq!(ProxyError::bad_gateway("x").message(), "bad gateway: x");
}
