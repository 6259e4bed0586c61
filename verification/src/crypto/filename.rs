//! Encrypted file names: each name is encoded over an alphabet that the
//! password shuffles, the directory it stands in keeps its name.
use vstd::prelude::*;
use vstd::utf8::{
    decode_utf8, encode_utf8, encode_utf8_decode_utf8, encode_utf8_valid_utf8, valid_utf8,
};

use crate::crypto::mix64::{
    alphabet, ascii_text, decode64, encode64, law_alphabet, law_decode_encode, lemma_ascii_text,
    lemma_encode64, MixBase64,
};
use crate::paths::{
    before_comp, body_start, comp_start, has_name, last_comp, is_name, law_extension,
    lemma_comp_start,
    lemma_ext_of_name, lemma_join, lemma_last_dot_char, lemma_name_ext, lemma_trim_body, name_ext,
    path_dir, path_ext, path_name, trim_body, trimmed_path, PathParts,
};
use crate::text::{
    ends_with, ends_with_char, join2, join3, is_white_space, law_trim, trim, trim_end, trim_end_if,
    trim_start, trim_start_if, trimmed, trimmed_end, trimmed_start, without_suffix,
};

verus! {

/// What `String::from_utf8_lossy` makes of bytes that are not UTF-8.
pub uninterp spec fn utf8_replaced(bytes: Seq<u8>) -> Seq<char>;

/// The text that bytes stand for, where what is not UTF-8 is replaced.
pub open spec fn lossy_text(bytes: Seq<u8>) -> Seq<char> {
    if valid_utf8(bytes) {
        decode_utf8(bytes)
    } else {
        utf8_replaced(bytes)
    }
}

/// `String::from_utf8_lossy`: the text of bytes that are UTF-8. Of other bytes
/// it makes a text that depends on them alone.
#[verifier::external_body]
fn text_of_bytes(bytes: &[u8]) -> (r: String)
    ensures
        r@ == if valid_utf8(bytes@) {
            decode_utf8(bytes@)
        } else {
            utf8_replaced(bytes@)
        },
{
    String::from_utf8_lossy(bytes).to_string()
}

/// The alphabet of a password and the name of an algorithm.
pub open spec fn name_alphabet(password: Seq<char>, enc_type: Seq<char>) -> Seq<u8> {
    alphabet(password + enc_type + "mix64"@)
}

/// What a name is encoded to.
pub open spec fn encoded_name(
    password: Seq<char>,
    enc_type: Seq<char>,
    name: Seq<char>,
) -> Seq<char> {
    ascii_text(encode64(name_alphabet(password, enc_type), encode_utf8(name)))
}

/// What a name is decoded to: nothing if it is no code.
pub open spec fn decoded_name(
    password: Seq<char>,
    enc_type: Seq<char>,
    name: Seq<char>,
) -> Seq<char> {
    match decode64(name_alphabet(password, enc_type), encode_utf8(name)) {
        Some(bytes) => lossy_text(bytes),
        None => Seq::empty(),
    }
}

/// Encodes a name.
pub fn encode_name(password: &str, enc_type: &str, plain_name: &str) -> (r: String)
    ensures
        r@ == encoded_name(password@, enc_type@, plain_name@),
{
    let code: MixBase64 = MixBase64::new(&join2(password, enc_type));
    code.encode(plain_name.as_bytes())
}

/// Decodes a name.
pub fn decode_name(password: &str, enc_type: &str, encrypted_name: &str) -> (r: String)
    ensures
        r@ == decoded_name(password@, enc_type@, encrypted_name@),
{
    let code: MixBase64 = MixBase64::new(&join2(password, enc_type));
    match code.decode(encrypted_name) {
        Ok(bytes) => text_of_bytes(&bytes),
        Err(_) => String::new(),
    }
}

/// What an encoded name is made of.
proof fn lemma_encoded_name(password: Seq<char>, enc_type: Seq<char>, name: Seq<char>)
    ensures
        name.len() > 0 ==> encoded_name(password, enc_type, name).len() > 0,
        forall|i: int|
            0 <= i < encoded_name(password, enc_type, name).len() ==> (#[trigger] encoded_name(
                password,
                enc_type,
                name,
            )[i]) != '.' && encoded_name(password, enc_type, name)[i] != '/',
        encode_utf8(encoded_name(password, enc_type, name)) == encode64(
            name_alphabet(password, enc_type),
            encode_utf8(name),
        ),
{
    let chars = name_alphabet(password, enc_type);
    let code = encode64(chars, encode_utf8(name));
    law_alphabet(password + enc_type + "mix64"@);
    lemma_encode64(chars, encode_utf8(name));
    assert forall|i: int| 0 <= i < code.len() implies #[trigger] code[i] < 128 && code[i] != 46
        && code[i] != 47 by {
        assert(chars.contains(code[i]));
        let k = choose|k: int| 0 <= k < chars.len() && chars[k] == code[i];
        assert(chars[k] < 128);
    }
    lemma_ascii_text(code);
    if name.len() > 0 && encode_utf8(name).len() == 0 {
        encode_utf8_decode_utf8(name);
        encode_utf8_decode_utf8(Seq::empty());
        assert(encode_utf8(name) =~= encode_utf8(Seq::<char>::empty()));
    }
}

/// What a name is encoded to is decoded to that name.
pub proof fn law_name_round_trip(password: Seq<char>, enc_type: Seq<char>, name: Seq<char>)
    ensures
        decoded_name(password, enc_type, encoded_name(password, enc_type, name)) == name,
{
    lemma_encoded_name(password, enc_type, name);
    law_alphabet(password + enc_type + "mix64"@);
    law_decode_encode(name_alphabet(password, enc_type), encode_utf8(name));
    encode_utf8_valid_utf8(name);
    encode_utf8_decode_utf8(name);
}

/// What a converter knows: the password, the name of the algorithm and the
/// suffix that encrypted names get in place of their extension.
pub struct NameScheme {
    pub password: Seq<char>,
    pub enc_type: Seq<char>,
    pub enc_suffix: Option<Seq<char>>,
}

/// A directory, without the slashes at its end, and a name in it.
pub open spec fn joined(dir: Seq<char>, name: Seq<char>) -> Seq<char> {
    trim_end(dir, '/').push('/') + name
}

/// A suffix without the white space around it and the dots in front of it;
/// none if nothing is left.
pub open spec fn normal_suffix(suffix: Option<Seq<char>>) -> Option<Seq<char>> {
    match suffix {
        Some(s) => {
            let rest = trim_start(trim(s), '.');
            if rest.len() > 0 {
                Some(rest)
            } else {
                None
            }
        },
        None => None,
    }
}

impl NameScheme {
    /// What stands behind the dot of the encrypted name of a path.
    pub open spec fn suffix_for(self, path: Seq<char>) -> Seq<char> {
        match self.enc_suffix {
            Some(suffix) => suffix,
            None => path_ext(path),
        }
    }

    /// The encrypted name of a path.
    pub open spec fn encrypted_name(self, path: Seq<char>) -> Seq<char> {
        let code = encoded_name(self.password, self.enc_type, path_name(path));
        let suffix = self.suffix_for(path);
        if suffix.len() == 0 {
            code
        } else {
            code.push('.') + suffix
        }
    }

    /// The path under which the file of a path is stored. A path that ends
    /// with a slash is a directory and stays as it is.
    pub open spec fn encrypted_path(self, path: Seq<char>) -> Seq<char> {
        if path.len() > 0 && path.last() == '/' {
            path
        } else {
            joined(path_dir(path), self.encrypted_name(path))
        }
    }

    /// The code in the last name of a stored path: the name without suffix or
    /// extension. There is none if the name has not got the suffix.
    pub open spec fn code_of(self, path: Seq<char>) -> Option<Seq<char>> {
        let name = path_name(path);
        match self.enc_suffix {
            Some(suffix) => {
                if ends_with(name, seq!['.', '.'] + suffix) {
                    Some(name.take(name.len() - suffix.len() - 2))
                } else if ends_with(name, seq!['.'] + suffix) {
                    Some(name.take(name.len() - suffix.len() - 1))
                } else {
                    None
                }
            },
            None => {
                let ext = path_ext(path);
                if ext.len() == 0 {
                    Some(name)
                } else {
                    Some(name.take(name.len() - ext.len() - 1))
                }
            },
        }
    }

    /// The path that clients see for a stored path. One whose name is no code
    /// stays as it is.
    pub open spec fn decrypted_path(self, path: Seq<char>) -> Seq<char> {
        if path.len() > 0 && path.last() == '/' {
            path
        } else {
            match self.code_of(path) {
                Some(code) => {
                    let name = decoded_name(self.password, self.enc_type, code);
                    if name.len() == 0 {
                        path
                    } else {
                        joined(path_dir(path), name)
                    }
                },
                None => path,
            }
        }
    }
}

/// A name ends with a dot and its extension.
proof fn lemma_ext_is_suffix(name: Seq<char>)
    requires
        name_ext(name).len() > 0,
    ensures
        ends_with(name, seq!['.'] + name_ext(name)),
{
    lemma_last_dot_char(name);
    let ext = name_ext(name);
    assert(name.subrange(name.len() - ext.len() - 1, name.len() as int) =~= seq!['.'] + ext);
}

/// Converts paths between what clients see and what is stored.
pub struct FileNameConverter {
    password: String,
    enc_type: String,
    enc_suffix: Option<String>,
}

impl View for FileNameConverter {
    type V = NameScheme;

    closed spec fn view(&self) -> NameScheme {
        NameScheme {
            password: self.password@,
            enc_type: self.enc_type@,
            enc_suffix: match self.enc_suffix {
                Some(s) => Some(s@),
                None => None,
            },
        }
    }
}

/// Puts a name into a directory.
fn join_path(dir: &str, name: &str) -> (r: String)
    ensures
        r@ == joined(dir@, name@),
{
    proof {
        reveal_strlit("/");
    }
    let r: String = join3(&trimmed_end(dir, '/'), "/", name);
    assert(r@ =~= joined(dir@, name@));
    r
}

impl FileNameConverter {
    /// A converter for a password and an algorithm.
    pub fn new(password: &str, enc_type: &str, enc_suffix: Option<&str>) -> (r: Self)
        ensures
            r@.password == password@,
            r@.enc_type == enc_type@,
            r@.enc_suffix == normal_suffix(
                match enc_suffix {
                    Some(s) => Some(s@),
                    None => None,
                },
            ),
    {
        let normalized: Option<String> = match enc_suffix {
            Some(s) => {
                let rest: String = trimmed_start(&trimmed(s), '.');
                if rest.as_str().unicode_len() == 0 {
                    None
                } else {
                    Some(rest)
                }
            },
            None => None,
        };
        FileNameConverter {
            password: password.to_string(),
            enc_type: enc_type.to_string(),
            enc_suffix: normalized,
        }
    }

    /// The path under which the file of a path is stored.
    pub fn encrypt_path(&self, display_path: &str) -> (r: String)
        ensures
            r@ == self@.encrypted_path(display_path@),
    {
        if ends_with_char(display_path, '/') {
            return display_path.to_string();
        }
        let parts: PathParts = PathParts::of(display_path);
        let code: String = encode_name(&self.password, &self.enc_type, &parts.name);
        let suffix: &str = match &self.enc_suffix {
            Some(s) => s.as_str(),
            None => parts.ext.as_str(),
        };
        let name: String = if suffix.unicode_len() == 0 {
            code
        } else {
            proof {
                reveal_strlit(".");
            }
            let with_suffix: String = join3(&code, ".", suffix);
            assert(with_suffix@ =~= code@.push('.') + suffix@);
            with_suffix
        };
        join_path(&parts.dir, &name)
    }

    /// The path that clients see for a stored path.
    pub fn decrypt_path(&self, encrypted_path: &str) -> (r: String)
        ensures
            r@ == self@.decrypted_path(encrypted_path@),
    {
        if ends_with_char(encrypted_path, '/') {
            return encrypted_path.to_string();
        }
        proof {
            reveal_strlit(".");
            reveal_strlit("..");
            assert("."@ =~= seq!['.']);
            assert(".."@ =~= seq!['.', '.']);
        }
        let parts: PathParts = PathParts::of(encrypted_path);
        let code: String = match &self.enc_suffix {
            Some(suffix) => {
                if let Some(code) = without_suffix(&parts.name, &join2("..", suffix)) {
                    code
                } else if let Some(code) = without_suffix(&parts.name, &join2(".", suffix)) {
                    code
                } else {
                    return encrypted_path.to_string();
                }
            },
            None => {
                if parts.ext.as_str().unicode_len() == 0 {
                    parts.name.clone()
                } else {
                    proof {
                        lemma_ext_is_suffix(parts.name@);
                    }
                    match without_suffix(&parts.name, &join2(".", &parts.ext)) {
                        Some(code) => code,
                        None => parts.name.clone(),
                    }
                }
            },
        };
        assert(self@.code_of(encrypted_path@) == Some(code@));
        let name: String = decode_name(&self.password, &self.enc_type, &code);
        if name.as_str().unicode_len() == 0 {
            return encrypted_path.to_string();
        }
        join_path(&parts.dir, &name)
    }
}

/// Taking slashes off the end of a text leaves the beginning of it.
proof fn lemma_trim_end(s: Seq<char>, c: char)
    ensures
        trim_end(s, c).len() <= s.len(),
        trim_end(s, c) == s.take(trim_end(s, c).len() as int),
        trim_end(s, c).len() > 0 ==> trim_end(s, c).last() != c,
        trim_end(trim_end(s, c), c) == trim_end(s, c),
    decreases s.len(),
{
    if s.len() > 0 && s.last() == c {
        lemma_trim_end(s.drop_last(), c);
        let n = trim_end(s, c).len() as int;
        assert(s.drop_last().take(n) =~= s.take(n));
    } else {
        assert(s.take(s.len() as int) =~= s);
    }
}

/// The directory of a path is that of every other path that puts a name into
/// this directory.
proof fn lemma_dir_stays(path: Seq<char>, name: Seq<char>)
    requires
        is_name(name),
    ensures
        path_name(joined(path_dir(path), name)) == name,
        has_name(joined(path_dir(path), name)),
        trim_end(path_dir(joined(path_dir(path), name)), '/') == trim_end(path_dir(path), '/'),
{
    let start = body_start(path);
    let dir = path_dir(path);
    let d = trim_end(dir, '/');
    let q = joined(dir, name);
    lemma_join(d, name);
    lemma_trim_end(dir, '/');
    lemma_trim_body(path, start);
    let t = trimmed_path(path);
    if t.len() > start {
        let b = before_comp(t, start);
        lemma_comp_start(t, start);
        lemma_trim_body(b, start);
        assert(dir == trim_body(b, start));
        assert(forall|i: int| 0 <= i < dir.len() ==> dir[i] == path[i]);
        assert(dir.len() < path.len());
        if dir.len() > start {
            lemma_comp_start(dir, start);
            let comp = last_comp(dir, start);
            assert(dir.last() == comp.last());
            assert(dir.last() != '/');
            assert(d == dir);
            if start == 0 && dir.len() == 1 && dir[0] == '.' {
                assert(comp_start(dir, 0) == 0) by {
                    reveal_with_fuel(comp_start, 2);
                }
                assert(comp =~= seq!['.']);
            }
            assert(body_start(q) == start);
        } else if dir.len() == 1 {
            if dir[0] == '/' {
                assert(dir.drop_last() =~= Seq::empty());
                assert(d =~= Seq::empty());
            }
        }
    }
    if d.len() == 0 {
        assert(path_dir(q) == seq!['/']);
        assert(seq!['/'].drop_last() =~= Seq::<char>::empty());
        reveal_with_fuel(trim_end, 2);
        assert(trim_end(seq!['/'], '/') =~= d);
    } else {
        assert(path_dir(q) == trim_body(d, body_start(q)));
        assert(trim_body(d, body_start(q)) == d);
    }
}

/// What clients see for the stored path of a file is the path that they gave,
/// its name in its directory. A directory keeps its path. The suffix must not
/// hold a slash: with one, the encrypted name is no name of a file.
pub proof fn law_path_round_trip(scheme: NameScheme, path: Seq<char>)
    requires
        path.len() > 0,
        scheme.enc_suffix matches Some(suffix) ==> suffix.len() > 0 && !suffix.contains('/'),
    ensures
        path.last() == '/' ==> scheme.decrypted_path(scheme.encrypted_path(path)) == path,
        path.last() != '/' ==> scheme.decrypted_path(scheme.encrypted_path(path)) == joined(
            path_dir(path),
            path_name(path),
        ),
{
    if path.last() != '/' {
        let name = path_name(path);
        let code = encoded_name(scheme.password, scheme.enc_type, name);
        let suffix = scheme.suffix_for(path);
        let enc = scheme.encrypted_name(path);
        let q = scheme.encrypted_path(path);
        lemma_path_name(path);
        lemma_encoded_name(scheme.password, scheme.enc_type, name);
        law_name_round_trip(scheme.password, scheme.enc_type, name);
        lemma_ext_of_name(name);
        lemma_encrypted_name(scheme, path);
        assert(!code.contains('.'));
        lemma_dir_stays(path, enc);
        assert(q.last() == enc.last());
        assert(enc.contains(enc.last()));
        match scheme.enc_suffix {
            Some(s) => {
                assert(enc =~= code.push('.') + s);
                assert(!ends_with(enc, seq!['.', '.'] + s)) by {
                    if ends_with(enc, seq!['.', '.'] + s) {
                        let at = enc.len() - s.len() - 2;
                        assert(enc.subrange(at, enc.len() as int)[0] == '.');
                        assert(enc[at] == code[at]);
                    }
                }
                assert(enc.subrange(code.len() as int, enc.len() as int) =~= seq!['.'] + s);
                assert(ends_with(enc, seq!['.'] + s));
                assert(enc.take(code.len() as int) =~= code);
            },
            None => {
                lemma_name_ext(code, suffix);
                if suffix.len() > 0 {
                    assert(path_ext(q) == suffix);
                    assert(enc.take(code.len() as int) =~= code);
                } else {
                    assert(path_ext(q) == Seq::<char>::empty());
                }
            },
        }
        assert(scheme.code_of(q) == Some(code));
    }
}

/// An encrypted name is a code, without dots, and what follows its dot: the
/// suffix if there is one, else the extension of the name.
pub proof fn law_encrypted_name_ends(scheme: NameScheme, path: Seq<char>)
    requires
        path.len() > 0,
        scheme.suffix_for(path).len() > 0,
    ensures
        ends_with(scheme.encrypted_name(path), seq!['.'] + scheme.suffix_for(path)),
        scheme.enc_suffix matches Some(suffix) ==> scheme.suffix_for(path) == suffix,
        scheme.enc_suffix is None ==> scheme.suffix_for(path) == path_ext(path),
{
    let name = scheme.encrypted_name(path);
    let suffix = scheme.suffix_for(path);
    assert(name.subrange(name.len() - suffix.len() - 1, name.len() as int) =~= seq!['.'] + suffix);
}

/// Taking white space off the end does not reach a dot in front of it.
proof fn lemma_dot_stays(s: Seq<char>, white: spec_fn(char) -> bool)
    requires
        !white('.'),
    ensures
        trim_end_if(seq!['.'] + s, white) == seq!['.'] + trim_end_if(s, white),
    decreases s.len(),
{
    let t = seq!['.'] + s;
    if s.len() == 0 {
        assert(t =~= seq!['.']);
        assert(trim_end_if(s, white) =~= s);
        assert(seq!['.'] + trim_end_if(s, white) =~= t);
        assert(t.last() == '.');
    } else if white(s.last()) {
        assert(t.drop_last() =~= seq!['.'] + s.drop_last());
        lemma_dot_stays(s.drop_last(), white);
    } else {
        assert(t.last() == s.last());
    }
}

/// A dot in front of the suffix of the configuration may be left out.
pub proof fn law_leading_dot_is_optional(suffix: Seq<char>)
    requires
        suffix.len() > 0 ==> !is_white_space(suffix[0]),
    ensures
        normal_suffix(Some(seq!['.'] + suffix)) == normal_suffix(Some(suffix)),
{
    let white = |c: char| is_white_space(c);
    let dotted = seq!['.'] + suffix;
    assert(trim_start_if(dotted, white) == dotted);
    assert(trim_start_if(suffix, white) == suffix);
    lemma_dot_stays(suffix, white);
    let rest = trim_end_if(suffix, white);
    assert(trim(dotted) == seq!['.'] + rest);
    assert((seq!['.'] + rest).drop_first() =~= rest);
    assert((seq!['.'] + rest).first() == '.');
    assert(trim_start(seq!['.'] + rest, '.') == trim_start(rest, '.'));
}

/// Directories keep their names: the stored path of a file is a name in the
/// directory of the path that the client gave.
pub proof fn law_directory_stays(scheme: NameScheme, path: Seq<char>)
    requires
        path.len() > 0,
        path.last() != '/',
        scheme.enc_suffix matches Some(suffix) ==> !suffix.contains('/'),
    ensures
        trim_end(path_dir(scheme.encrypted_path(path)), '/') == trim_end(path_dir(path), '/'),
        path_name(scheme.encrypted_path(path)) == scheme.encrypted_name(path),
{
    lemma_path_name(path);
    lemma_encrypted_name(scheme, path);
    lemma_dir_stays(path, scheme.encrypted_name(path));
}

/// An encrypted name can be the name of a file.
proof fn lemma_encrypted_name(scheme: NameScheme, path: Seq<char>)
    requires
        path.len() > 0,
        scheme.enc_suffix matches Some(suffix) ==> !suffix.contains('/'),
    ensures
        is_name(scheme.encrypted_name(path)),
        !scheme.suffix_for(path).contains('/'),
{
    let name = path_name(path);
    let code = encoded_name(scheme.password, scheme.enc_type, name);
    let suffix = scheme.suffix_for(path);
    let enc = scheme.encrypted_name(path);
    lemma_path_name(path);
    lemma_encoded_name(scheme.password, scheme.enc_type, name);
    lemma_ext_of_name(name);
    assert(!suffix.contains('/'));
    assert(enc[0] == code[0]);
    if enc.contains('/') {
        let i = choose|i: int| 0 <= i < enc.len() && enc[i] == '/';
        assert(i > code.len());
        assert(suffix[i - code.len() - 1] == '/');
    }
}

/// The last name of a path is not empty, and without a slash if it is a name.
proof fn lemma_path_name(path: Seq<char>)
    requires
        path.len() > 0,
    ensures
        path_name(path).len() > 0,
        has_name(path) ==> !path_name(path).contains('/'),
{
    let start = body_start(path);
    lemma_trim_body(path, start);
    let t = trimmed_path(path);
    if has_name(path) {
        lemma_comp_start(t, start);
        let name = path_name(path);
        if name.contains('/') {
            let i = choose|i: int| 0 <= i < name.len() && name[i] == '/';
            assert(t[comp_start(t, start) + i] == '/');
        }
    }
}

/// Whether a path names a file from the root on, without empty names and
/// names of a single dot, and does not end with a directory.
pub open spec fn is_plain_path(path: Seq<char>) -> bool {
    &&& path.len() > 1
    &&& path[0] == '/'
    &&& path.last() != '/'
    &&& forall|i: int| 0 <= i < path.len() - 1 ==> !(path[i] == '/' && #[trigger] path[i + 1] == '/')
    &&& forall|i: int|
        0 <= i < path.len() - 2 ==> !(path[i] == '/' && path[i + 1] == '.' && #[trigger] path[i + 2]
            == '/')
    &&& !ends_with(path, seq!['/', '.'])
    &&& !ends_with(path, seq!['/', '.', '.'])
}

/// A plain path is its directory, a slash and its name.
proof fn lemma_plain_path(path: Seq<char>)
    requires
        is_plain_path(path),
    ensures
        ({
            let cs = comp_start(path, 1);
            &&& 1 <= cs < path.len()
            &&& path[cs - 1] == '/'
            &&& path_name(path) == path.skip(cs)
            &&& !path.skip(cs).contains('/')
            &&& trim_end(path_dir(path), '/') == path.take(cs - 1)
        }),
{
    let cs = comp_start(path, 1);
    lemma_comp_start(path, 1);
    let d = path.take(cs - 1);
    let n = path.skip(cs);
    assert(path[cs - 1] == '/');
    assert(path =~= d.push('/') + n);
    assert(is_name(n)) by {
        if n == seq!['.'] {
            assert(path.subrange(path.len() - 2, path.len() as int) =~= seq!['/', '.']) by {
                assert(path[cs] == n[0]);
            }
        }
        if n == seq!['.', '.'] {
            assert(path.subrange(path.len() - 3, path.len() as int) =~= seq!['/', '.', '.']) by {
                assert(path[cs] == n[0] && path[cs + 1] == n[1]);
            }
        }
        if n.contains('/') {
            let i = choose|i: int| 0 <= i < n.len() && n[i] == '/';
            assert(path[cs + i] == '/');
        }
    }
    lemma_join(d, n);
    if d.len() > 0 {
        assert(d[d.len() - 1] != '/') by {
            assert(path[cs - 2 + 1] == '/');
        }
        lemma_comp_start(d, 1);
        let comp = last_comp(d, 1);
        if comp == seq!['.'] {
            let at = comp_start(d, 1);
            assert(comp.len() == 1);
            assert(at == d.len() - 1);
            assert(d[at] == comp[0]);
            assert(d[at - 1] == '/');
            assert(path[at - 1 + 2] == '/');
        }
        assert(d.len() > 1);
        assert(trim_body(d, 1) == d);
    } else {
        assert(seq!['/'].drop_last() =~= Seq::<char>::empty());
        reveal_with_fuel(trim_end, 2);
        assert(trim_end(seq!['/'], '/') =~= d);
    }
}

/// A file is stored in the directory that the client gave, letter for letter,
/// under a name that depends on the name of the file alone.
pub proof fn law_stored_name(scheme: NameScheme, dir: Seq<char>, other: Seq<char>, name: Seq<char>)
    requires
        is_plain_path(dir.push('/') + name),
        is_plain_path(other.push('/') + name),
        !name.contains('/'),
    ensures
        exists|stored: Seq<char>|
            #![trigger dir.push('/') + stored]
            {
                &&& scheme.encrypted_path(dir.push('/') + name) == dir.push('/') + stored
                &&& scheme.encrypted_path(other.push('/') + name) == other.push('/') + stored
            },
{
    let a = dir.push('/') + name;
    let b = other.push('/') + name;
    lemma_plain_path(a);
    lemma_plain_path(b);
    lemma_last_slash(a, dir, name);
    lemma_last_slash(b, other, name);
    assert(a.last() != '/' && b.last() != '/');
    let stored = scheme.encrypted_name(a);
    assert(stored == scheme.encrypted_name(b));
    assert(scheme.encrypted_path(a) == dir.push('/') + stored);
}

/// Where the last name of a path begins.
proof fn lemma_last_slash(path: Seq<char>, dir: Seq<char>, name: Seq<char>)
    requires
        path == dir.push('/') + name,
        !name.contains('/'),
        is_plain_path(path),
    ensures
        path.skip(comp_start(path, 1)) == name,
        path.take(comp_start(path, 1) - 1) == dir,
{
    let cs = comp_start(path, 1);
    lemma_comp_start(path, 1);
    lemma_plain_path(path);
    let at = dir.len() + 1;
    assert(path[at - 1] == '/');
    if cs < at {
        assert(path[at - 1] != '/');
    }
    if cs > at {
        assert(path[cs - 1] == name[cs - 1 - at]);
        assert(name.contains(name[cs - 1 - at]));
    }
    assert(path.skip(cs) =~= name);
    assert(path.take(cs - 1) =~= dir);
}

/// A prefix before the directory of a file stays before the stored path.
pub proof fn law_prefix_stays(scheme: NameScheme, prefix: Seq<char>, path: Seq<char>)
    requires
        is_plain_path(path),
        is_plain_path(prefix + path),
    ensures
        scheme.encrypted_path(prefix + path) == prefix + scheme.encrypted_path(path),
{
    lemma_plain_path(path);
    let cs = comp_start(path, 1);
    let dir = path.take(cs - 1);
    let name = path.skip(cs);
    assert(path =~= dir.push('/') + name);
    assert(prefix + path =~= (prefix + dir).push('/') + name);
    law_stored_name(scheme, prefix + dir, dir, name);
    let stored = choose|stored: Seq<char>|
        #![trigger (prefix + dir).push('/') + stored]
        {
            &&& scheme.encrypted_path((prefix + dir).push('/') + name) == (prefix + dir).push('/')
                + stored
            &&& scheme.encrypted_path(dir.push('/') + name) == dir.push('/') + stored
        };
    assert((prefix + dir).push('/') + stored =~= prefix + (dir.push('/') + stored));
}

/// A path that ends with a slash is a directory, and stays as it is both ways.
pub proof fn law_directory_path_stays(scheme: NameScheme, path: Seq<char>)
    requires
        path.len() > 0,
        path.last() == '/',
    ensures
        scheme.encrypted_path(path) == path,
        scheme.decrypted_path(path) == path,
{
}

/// A path whose name has not got the suffix of stored names stays as it is.
pub proof fn law_other_names_stay(scheme: NameScheme, path: Seq<char>, suffix: Seq<char>)
    requires
        scheme.enc_suffix == Some(suffix),
        is_plain_path(path),
        !ends_with(path, seq!['.'] + suffix),
        !suffix.contains('/'),
    ensures
        scheme.decrypted_path(path) == path,
{
    lemma_plain_path(path);
    let name = path_name(path);
    let cs = comp_start(path, 1);
    let n = suffix.len() as int;
    if ends_with(name, seq!['.'] + suffix) {
        assert(path.subrange(path.len() - n - 1, path.len() as int) =~= name.subrange(
            name.len() - n - 1,
            name.len() as int,
        ));
    }
    if ends_with(name, seq!['.', '.'] + suffix) {
        let tail = name.subrange(name.len() - n - 2, name.len() as int);
        assert(path.subrange(path.len() - n - 1, path.len() as int) =~= tail.skip(1));
        assert(tail.skip(1) =~= seq!['.'] + suffix);
    }
}

/// What clients see for the stored path of a file is, letter for letter, the
/// path that they gave.
pub proof fn law_plain_path_round_trip(scheme: NameScheme, path: Seq<char>)
    requires
        is_plain_path(path),
        scheme.enc_suffix matches Some(suffix) ==> suffix.len() > 0 && !suffix.contains('/'),
    ensures
        scheme.decrypted_path(scheme.encrypted_path(path)) == path,
{
    law_path_round_trip(scheme, path);
    lemma_plain_path(path);
    let cs = comp_start(path, 1);
    assert(path =~= path.take(cs - 1).push('/') + path.skip(cs));
}

/// The code of a name is over the alphabet of the password, the name of the
/// algorithm and a word, one after the other.
pub proof fn law_encoded_name(password: Seq<char>, enc_type: Seq<char>, name: Seq<char>)
    ensures
        encoded_name(password, enc_type, name) == ascii_text(
            encode64(alphabet(password + enc_type + "mix64"@), encode_utf8(name)),
        ),
{
}

/// A name that is no code is decoded to nothing, and one that is to the text that
/// it stands for.
pub proof fn law_decoded_name(password: Seq<char>, enc_type: Seq<char>, name: Seq<char>)
    ensures
        match decode64(alphabet(password + enc_type + "mix64"@), encode_utf8(name)) {
            Some(bytes) => valid_utf8(bytes) ==> decoded_name(password, enc_type, name)
                == decode_utf8(bytes),
            None => decoded_name(password, enc_type, name).len() == 0,
        },
{
}

/// The name under which a file is stored: the code of its name and, behind a dot,
/// the suffix if there is one, else what follows the last dot of the name, unless
/// nothing stands before or behind that dot.
pub proof fn law_stored_path(
    scheme: NameScheme,
    dir: Seq<char>,
    name: Seq<char>,
    stem: Seq<char>,
    ext: Seq<char>,
)
    requires
        is_plain_path(dir.push('/') + name),
        !name.contains('/'),
        name == stem || name == stem.push('.') + ext,
        name == stem ==> !name.contains('.') && ext.len() == 0,
        !ext.contains('.'),
    ensures
        ({
            let code = encoded_name(scheme.password, scheme.enc_type, name);
            scheme.encrypted_path(dir.push('/') + name) == dir.push('/') + match scheme.enc_suffix {
                Some(suffix) => if suffix.len() > 0 {
                    code + seq!['.'] + suffix
                } else {
                    code
                },
                None => if ext.len() > 0 && stem.len() > 0 {
                    code + seq!['.'] + ext
                } else {
                    code
                },
            }
        }),
{
    let path = dir.push('/') + name;
    let code = encoded_name(scheme.password, scheme.enc_type, name);
    lemma_plain_path(path);
    lemma_last_slash(path, dir, name);
    assert(name.len() > 0 && path.last() != '/');
    assert(is_name(name)) by {
        if name == seq!['.'] {
            assert(path.subrange(path.len() - 2, path.len() as int) =~= seq!['/', '.']);
        }
        if name == seq!['.', '.'] {
            assert(path.subrange(path.len() - 3, path.len() as int) =~= seq!['/', '.', '.']);
        }
    }
    lemma_join(dir, name);
    law_extension(stem, ext);
    assert(path_ext(path) == name_ext(name));
    if name == stem && name != stem.push('.') + ext {
        assert(name_ext(name).len() == 0);
    }
    let suffix = scheme.suffix_for(path);
    assert(code.push('.') + suffix =~= code + seq!['.'] + suffix);
}

/// A stored name may also have two dots before the suffix.
pub proof fn law_two_dots(
    scheme: NameScheme,
    dir: Seq<char>,
    name: Seq<char>,
    suffix: Seq<char>,
)
    requires
        scheme.enc_suffix == Some(suffix),
        !suffix.contains('/'),
        name.len() > 0,
        is_plain_path(
            dir.push('/') + (encoded_name(scheme.password, scheme.enc_type, name) + seq!['.', '.']
                + suffix),
        ),
    ensures
        scheme.decrypted_path(
            dir.push('/') + (encoded_name(scheme.password, scheme.enc_type, name) + seq!['.', '.']
                + suffix),
        ) == dir.push('/') + name,
{
    let code = encoded_name(scheme.password, scheme.enc_type, name);
    let stored = code + seq!['.', '.'] + suffix;
    let path = dir.push('/') + stored;
    lemma_encoded_name(scheme.password, scheme.enc_type, name);
    law_name_round_trip(scheme.password, scheme.enc_type, name);
    assert(!stored.contains('/')) by {
        assert forall|i: int| 0 <= i < stored.len() implies stored[i] != '/' by {
            if i >= code.len() + 2 {
                assert(stored[i] == suffix[i - code.len() - 2]);
                assert(suffix.contains(suffix[i - code.len() - 2]));
            }
        }
    }
    lemma_plain_path(path);
    lemma_last_slash(path, dir, stored);
    assert(stored.subrange(code.len() as int, stored.len() as int) =~= seq!['.', '.'] + suffix);
    assert(stored.take(code.len() as int) =~= code);
}

/// A name without dots that is no code stays as it is.
pub proof fn law_no_code_stays(scheme: NameScheme, dir: Seq<char>, name: Seq<char>)
    requires
        scheme.enc_suffix is None,
        is_plain_path(dir.push('/') + name),
        !name.contains('/') && !name.contains('.'),
        decode64(
            alphabet(scheme.password + scheme.enc_type + "mix64"@),
            encode_utf8(name),
        ) is None,
    ensures
        scheme.decrypted_path(dir.push('/') + name) == dir.push('/') + name,
{
    let path = dir.push('/') + name;
    lemma_plain_path(path);
    lemma_last_slash(path, dir, name);
    law_extension(name, Seq::empty());
    assert(path_ext(path).len() == 0);
}

/// The dots in front of a text that begins with none are taken off.
proof fn lemma_dots_go(dots: nat, s: Seq<char>)
    requires
        s.len() > 0 ==> s[0] != '.',
    ensures
        trim_start(Seq::new(dots, |i: int| '.') + s, '.') == s,
    decreases dots,
{
    let all = Seq::new(dots, |i: int| '.') + s;
    if dots > 0 {
        lemma_dots_go((dots - 1) as nat, s);
        assert(all.drop_first() =~= Seq::new((dots - 1) as nat, |i: int| '.') + s);
    } else {
        assert(all =~= s);
    }
}

/// The suffix of the configuration is taken without the white space around it and
/// the dots in front of it. If nothing is left, there is none.
pub proof fn law_suffix(before: Seq<char>, dots: nat, s: Seq<char>, behind: Seq<char>)
    requires
        s.len() > 0 ==> s[0] != '.' && !is_white_space(s.first()) && !is_white_space(s.last()),
        forall|i: int| 0 <= i < before.len() ==> is_white_space(#[trigger] before[i]),
        forall|i: int| 0 <= i < behind.len() ==> is_white_space(#[trigger] behind[i]),
    ensures
        normal_suffix(Some(before + (Seq::new(dots, |i: int| '.') + s) + behind)) == if s.len()
            > 0 {
            Some(s)
        } else {
            None
        },
        normal_suffix(None) is None,
{
    let middle = Seq::new(dots, |i: int| '.') + s;
    law_trim(middle, before, behind);
    lemma_dots_go(dots, s);
}

} // verus!
