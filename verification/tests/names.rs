use whim_dav_proxy::crypto::filename::{decode_name, encode_name};
use whim_dav_proxy::crypto::mix64::{init_ksa, MixBase64};
use whim_dav_proxy::crypto::FileNameConverter;
use whim_dav_proxy::paths::PathParts;

#[test]
fn alphabet_of_a_password() {
    let chars = init_ksa("abc");
    assert_eq!(
        String::from_utf8(chars).unwrap(),
        "4vGFZaobAmBUDJjsR~HfryL6exnpC7MX8OK3I50uz-2YETighWNkd9QVlP1St+wcq"
    );
}

#[test]
fn alphabets_hold_different_characters() {
    for password in ["", "a", "123456", "日本", "a much longer password than the others"] {
        let mut chars = init_ksa(password);
        chars.sort();
        chars.dedup();
        assert_eq!(chars.len(), 65);
        assert!(!chars.contains(&b'.') && !chars.contains(&b'/'));
    }
}

#[test]
fn names_are_encoded() {
    assert_eq!(encode_name("pw", "AESCTR", "report.pdf"), "G5s7jBLWQIqyixff");
    assert_eq!(encode_name("123456", "aesctr", "a"), "vjVV");
    assert_eq!(encode_name("123456", "aesctr", "ab"), "vaFV");
    assert_eq!(encode_name("123456", "aesctr", "abc"), "vaDk");
    assert_eq!(encode_name("123456", "aesctr", "日本語.txt"), "zbWHzbGetIYW3qRAxTVV");
    assert_eq!(encode_name("123456", "aesctr", ""), "");
}

#[test]
fn names_come_back() {
    for name in ["report.pdf", "a", "ab", "abc", "abcd", "日本語.txt", "x y\tz", ""] {
        let code = encode_name("pw", "AESCTR", name);
        assert_eq!(decode_name("pw", "AESCTR", &code), name);
    }
}

#[test]
fn what_is_no_code_is_decoded_to_nothing() {
    assert_eq!(decode_name("123456", "aesctr", "vaD"), "");
    assert_eq!(decode_name("123456", "aesctr", "va.k"), "");
    assert_eq!(decode_name("123456", "aesctr", ""), "");
}

#[test]
fn codes_of_bytes_that_are_no_text_are_replaced() {
    let code = MixBase64::new("123456aesctr").encode(&[0x66, 0xff, 0x6f]);
    assert_eq!(decode_name("123456", "aesctr", &code), "f\u{fffd}o");
}

#[test]
fn errors_of_the_code() {
    let code = MixBase64::new("x");
    assert_eq!(code.decode("abc").unwrap_err(), "invalid base64 string length");
    assert_eq!(code.decode("ab.d").unwrap_err(), "invalid base64 character");
    assert_eq!(code.decode("").unwrap(), Vec::<u8>::new());
    let bytes: Vec<u8> = (0..=255).collect();
    assert_eq!(code.decode(&code.encode(&bytes)).unwrap(), bytes);
}

#[test]
fn padding_inside_a_code_stands_for_nothing() {
    let code = MixBase64::new("x");
    let one = code.encode(b"a");
    let two = code.encode(b"bc");
    assert_eq!(code.decode(&format!("{}{}", one, two)).unwrap(), b"abc");
}

#[test]
fn paths_are_taken_apart_as_in_std() {
    let samples = [
        "", "/", ".", "..", "a", "/a", "a/", "a/b", "/a/b.txt", "./a", "./.", "/.", "/..", "a/..",
        "a/../b", "a/./b", "a//b", "//a", "a/.", ".a", ".a.b", "a.", "a.b.c", "/x/.hidden",
        "/x/..hidden", "x/...", "./..", "a/b/.", "a/b/./.", "/.//a", ".//a", "日本/語.txt", "a/b.c/d",
        "../a.b", "./", ".//", "a.b/", "/a/b/../c.d",
    ];
    for sample in samples {
        let path = std::path::Path::new(sample);
        let name = path.file_name().and_then(|n| n.to_str()).unwrap_or(sample);
        let dir = path.parent().and_then(|p| p.to_str()).unwrap_or("");
        let ext = std::path::Path::new(name).extension().and_then(|e| e.to_str()).unwrap_or("");
        let parts = PathParts::of(sample);
        assert_eq!((parts.dir.as_str(), parts.name.as_str(), parts.ext.as_str()), (dir, name, ext));
    }
}

#[test]
fn paths_are_encrypted() {
    let c = FileNameConverter::new("123456", "aesctr", None);
    assert_eq!(c.encrypt_path("/docs/abc"), "/docs/vaDk");
    assert_eq!(c.encrypt_path("abc"), "/vaDk");
    assert_eq!(c.encrypt_path("/docs/日本語.txt"), "/docs/zbWHzbGetIYW3qRAxTVV.txt");
    assert_eq!(c.encrypt_path("/docs/"), "/docs/");
    assert_eq!(c.encrypt_path("//docs//abc"), "//docs/vaDk");
    let c = FileNameConverter::new("123456", "aesctr", Some(" .enc "));
    assert_eq!(c.encrypt_path("/docs/abc"), "/docs/vaDk.enc");
    let c = FileNameConverter::new("123456", "aesctr", Some(" .. "));
    assert_eq!(c.encrypt_path("/docs/abc"), "/docs/vaDk");
}

#[test]
fn paths_come_back() {
    for suffix in [None, Some("enc"), Some(".enc"), Some("tar.gz")] {
        let c = FileNameConverter::new("pw", "chacha20", suffix);
        for path in ["/a", "/a.b", "/x/y z.txt", "/x/.hidden", "/x/日本語.txt", "/x/a.", "/d/", "/"] {
            assert_eq!(c.decrypt_path(&c.encrypt_path(path)), path);
        }
    }
}

#[test]
fn the_dot_of_a_suffix_is_optional() {
    let with = FileNameConverter::new("pw", "aesctr", Some(".enc"));
    let without = FileNameConverter::new("pw", "aesctr", Some("enc"));
    assert_eq!(with.encrypt_path("/a/b.txt"), without.encrypt_path("/a/b.txt"));
    assert!(with.encrypt_path("/a/b.txt").ends_with(".enc"));
    let none = FileNameConverter::new("pw", "aesctr", None);
    assert!(none.encrypt_path("/a/b.txt").ends_with(".txt"));
}

#[test]
fn directories_keep_their_names() {
    let c = FileNameConverter::new("pw", "aesgcm", Some("enc"));
    let stored = c.encrypt_path("/top/sub/file.txt");
    assert!(stored.starts_with("/top/sub/"));
    assert!(stored.ends_with(".enc"));
}

#[test]
fn paths_without_the_suffix_stay() {
    let c = FileNameConverter::new("123456", "aesctr", Some("enc"));
    assert_eq!(c.decrypt_path("/docs/vaDk"), "/docs/vaDk");
    assert_eq!(c.decrypt_path("/docs/vaDk.enc"), "/docs/abc");
    assert_eq!(c.decrypt_path("/docs/vaDk..enc"), "/docs/abc");
    assert_eq!(c.decrypt_path("/docs/readme.enc"), "/docs/readme.enc");
}
