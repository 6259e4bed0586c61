//! A base-64 code over an alphabet that a password shuffles.
use vstd::prelude::*;
use vstd::utf8::{encode_utf8, is_ascii_chars, is_ascii_chars_encode_utf8};

use crate::crypto::secrets::{first_bytes, sha256, sha256_digest};
use crate::text::join2;

verus! {

/// The 65 characters that alphabets are made of: `A` to `Z`, `a` to `z`, `0`
/// to `9`, `-`, `~` and `+`.
pub open spec fn source_char(i: int) -> u8 {
    if i < 26 {
        (65 + i) as u8
    } else if i < 52 {
        (97 + i - 26) as u8
    } else if i < 62 {
        (48 + i - 52) as u8
    } else if i == 62 {
        45
    } else if i == 63 {
        126
    } else {
        43
    }
}

/// The character at a place among the 65.
fn source_byte(i: usize) -> (r: u8)
    requires
        i < 65,
    ensures
        r == source_char(i as int),
{
    if i < 26 {
        65 + i as u8
    } else if i < 52 {
        97 + (i as u8 - 26)
    } else if i < 62 {
        48 + (i as u8 - 52)
    } else if i == 62 {
        45
    } else if i == 63 {
        126
    } else {
        43
    }
}

/// `s` with the entries at two places exchanged.
pub open spec fn swapped(s: Seq<usize>, i: int, j: int) -> Seq<usize> {
    s.update(i, s[j]).update(j, s[i])
}

/// The order of the characters, and the index that moves through it, after
/// the first `steps` steps of the shuffle that a key of 32 bytes drives.
pub open spec fn shuffle(key: Seq<u8>, steps: nat) -> (Seq<usize>, int)
    decreases steps,
{
    if steps == 0 {
        (Seq::new(65, |i: int| i as usize), 0)
    } else {
        let i = steps - 1;
        let (order, j) = shuffle(key, i as nat);
        let next = (j + order[i] + key[i % 32]) % 65;
        (swapped(order, i, next), next)
    }
}

/// The alphabet that a password makes: 64 characters for the digits and one
/// for padding.
pub open spec fn alphabet(password: Seq<char>) -> Seq<u8> {
    let order = shuffle(sha256(encode_utf8(password)), 65).0;
    Seq::new(65, |i: int| source_char(order[i] as int))
}

/// Whether the entries of `s` are the numbers below 65, each once.
pub open spec fn is_order(s: Seq<usize>) -> bool {
    &&& s.len() == 65
    &&& forall|i: int| 0 <= i < 65 ==> #[trigger] s[i] < 65
    &&& forall|i: int, j: int| 0 <= i < j < 65 ==> s[i] != s[j]
}

/// The shuffle only ever changes the order.
proof fn lemma_shuffle(key: Seq<u8>, steps: nat)
    requires
        steps <= 65,
    ensures
        is_order(shuffle(key, steps).0),
        0 <= shuffle(key, steps).1 < 65,
    decreases steps,
{
    if steps > 0 {
        let i = steps - 1;
        lemma_shuffle(key, i as nat);
        let (order, j) = shuffle(key, i as nat);
        let next = (j + order[i] + key[i % 32]) % 65;
        assert(0 <= next < 65);
        assert(is_order(swapped(order, i, next)));
    }
}

/// Whether the characters of an alphabet are 65 different ones of ASCII.
pub open spec fn is_alphabet(chars: Seq<u8>) -> bool {
    &&& chars.len() == 65
    &&& forall|i: int| 0 <= i < 65 ==> #[trigger] chars[i] < 128
    &&& forall|i: int, j: int| 0 <= i < j < 65 ==> chars[i] != chars[j]
}

/// Every password makes an alphabet of different characters, and none of them
/// is a dot or a slash.
pub proof fn law_alphabet(password: Seq<char>)
    ensures
        is_alphabet(alphabet(password)),
        forall|i: int|
            0 <= i < 65 ==> #[trigger] alphabet(password)[i] != 46 && alphabet(password)[i] != 47,
{
    let key = sha256(encode_utf8(password));
    lemma_shuffle(key, 65);
    let order = shuffle(key, 65).0;
    assert(forall|i: int| 0 <= i < 65 ==> #[trigger] alphabet(password)[i] == source_char(order[i] as int));
    assert forall|i: int, j: int| 0 <= i < j < 65 implies alphabet(password)[i] != alphabet(
        password,
    )[j] by {
        assert(order[i] != order[j]);
        assert(source_char(order[i] as int) != source_char(order[j] as int));
    }
}

/// Shuffles the 65 characters by a password.
pub fn init_ksa(password: &str) -> (r: Vec<u8>)
    ensures
        r@ == alphabet(password@),
{
    let key: [u8; 32] = sha256_digest(password.as_bytes());
    let ghost k = sha256(encode_utf8(password@));
    let mut order: Vec<usize> = Vec::new();
    let mut n: usize = 0;
    while n < 65
        invariant
            n <= 65,
            order@.len() == n,
            forall|i: int| 0 <= i < n ==> order@[i] == i,
        decreases 65 - n,
    {
        order.push(n);
        n += 1;
    }
    assert(order@ =~= shuffle(k, 0).0);
    let mut j: usize = 0;
    let mut idx: usize = 0;
    while idx < 65
        invariant
            idx <= 65,
            key@ == k,
            (order@, j as int) == shuffle(k, idx as nat),
            is_order(order@),
            j < 65,
        decreases 65 - idx,
    {
        let at: usize = order[idx];
        let next: usize = (j + at + key[idx % 32] as usize) % 65;
        let other: usize = order[next];
        proof {
            lemma_shuffle(k, (idx + 1) as nat);
        }
        order.set(idx, other);
        order.set(next, at);
        j = next;
        idx += 1;
    }
    let mut secret: Vec<u8> = Vec::new();
    let mut i: usize = 0;
    while i < 65
        invariant
            i <= 65,
            is_order(order@),
            secret@.len() == i,
            forall|m: int| 0 <= m < i ==> secret@[m] == source_char(order@[m] as int),
        decreases 65 - i,
    {
        secret.push(source_byte(order[i]));
        i += 1;
    }
    assert(secret@ =~= alphabet(password@));
    secret
}

/// The first of the four digits of three bytes.
pub open spec fn digit0(b0: u8) -> u8 {
    b0 >> 2
}

pub open spec fn digit1(b0: u8, b1: u8) -> u8 {
    ((b0 & 3) << 4) | (b1 >> 4)
}

pub open spec fn digit2(b1: u8, b2: u8) -> u8 {
    ((b1 & 15) << 2) | (b2 >> 6)
}

pub open spec fn digit3(b2: u8) -> u8 {
    b2 & 63
}

/// The code of some bytes over an alphabet: four digits for each three bytes,
/// most significant first, the last group filled up with the character for
/// padding.
pub open spec fn encode64(chars: Seq<u8>, data: Seq<u8>) -> Seq<u8>
    decreases data.len(),
{
    let pad = chars[64];
    if data.len() == 0 {
        Seq::empty()
    } else if data.len() == 1 {
        seq![chars[digit0(data[0]) as int], chars[digit1(data[0], 0) as int], pad, pad]
    } else if data.len() == 2 {
        seq![
            chars[digit0(data[0]) as int],
            chars[digit1(data[0], data[1]) as int],
            chars[digit2(data[1], 0) as int],
            pad,
        ]
    } else {
        seq![
            chars[digit0(data[0]) as int],
            chars[digit1(data[0], data[1]) as int],
            chars[digit2(data[1], data[2]) as int],
            chars[digit3(data[2]) as int],
        ] + encode64(chars, data.skip(3))
    }
}

/// The bytes that a group of four characters stands for, given their places.
/// A third or fourth character for padding stands for none.
pub open spec fn group_bytes(e0: u8, e1: u8, e2: u8, e3: u8) -> Seq<u8> {
    seq![(e0 << 2) | (e1 >> 4)] + (if e2 < 64 {
        seq![(e1 << 4) | (e2 >> 2)]
    } else {
        Seq::empty()
    }) + (if e3 < 64 {
        seq![(e2 << 6) | e3]
    } else {
        Seq::empty()
    })
}

/// Whether all characters of a text are of the alphabet.
pub open spec fn in_alphabet(chars: Seq<u8>, s: Seq<u8>) -> bool {
    forall|i: int| 0 <= i < s.len() ==> chars.contains(#[trigger] s[i])
}

/// The bytes that a text of whole groups over the alphabet stands for.
pub open spec fn groups_bytes(chars: Seq<u8>, s: Seq<u8>) -> Seq<u8>
    decreases s.len(),
{
    if s.len() < 4 {
        Seq::empty()
    } else {
        group_bytes(
            chars.index_of(s[0]) as u8,
            chars.index_of(s[1]) as u8,
            chars.index_of(s[2]) as u8,
            chars.index_of(s[3]) as u8,
        ) + groups_bytes(chars, s.skip(4))
    }
}

/// What a text is decoded to: it must consist of whole groups of characters of
/// the alphabet.
pub open spec fn decode64(chars: Seq<u8>, s: Seq<u8>) -> Option<Seq<u8>> {
    if s.len() % 4 == 0 && in_alphabet(chars, s) {
        Some(groups_bytes(chars, s))
    } else {
        None
    }
}

/// The characters that bytes below 128 stand for.
pub open spec fn ascii_text(bytes: Seq<u8>) -> Seq<char> {
    Seq::new(bytes.len(), |i: int| bytes[i] as char)
}

/// Text in ASCII is encoded byte by byte.
pub proof fn lemma_ascii_text(bytes: Seq<u8>)
    requires
        forall|i: int| 0 <= i < bytes.len() ==> #[trigger] bytes[i] < 128,
    ensures
        encode_utf8(ascii_text(bytes)) == bytes,
{
    let text = ascii_text(bytes);
    assert(is_ascii_chars(text)) by {
        assert forall|i: int| 0 <= i < text.len() implies '\0' <= #[trigger] text[i] <= '\u{7f}' by {
            assert(bytes[i] < 128);
        }
    }
    is_ascii_chars_encode_utf8(text);
    assert(encode_utf8(text) =~= bytes);
}

/// The digits of three bytes are below 64.
proof fn lemma_digits(b0: u8, b1: u8, b2: u8)
    ensures
        digit0(b0) < 64,
        digit1(b0, b1) < 64,
        digit2(b1, b2) < 64,
        digit3(b2) < 64,
        digit1(b0, 0) == (b0 & 3) << 4,
        digit2(b1, 0) == (b1 & 15) << 2,
{
    assert(b0 >> 2 < 64) by (bit_vector);
    assert(((b0 & 3) << 4) | (b1 >> 4) < 64) by (bit_vector);
    assert(((b1 & 15) << 2) | (b2 >> 6) < 64) by (bit_vector);
    assert(b2 & 63 < 64) by (bit_vector);
    assert(((b0 & 3) << 4) | (0u8 >> 4) == (b0 & 3) << 4) by (bit_vector);
    assert(((b1 & 15) << 2) | (0u8 >> 6) == (b1 & 15) << 2) by (bit_vector);
}

/// The digits of three bytes stand for those bytes.
proof fn lemma_group(b0: u8, b1: u8, b2: u8)
    ensures
        (digit0(b0) << 2) | (digit1(b0, b1) >> 4) == b0,
        (digit1(b0, b1) << 4) | (digit2(b1, b2) >> 2) == b1,
        (digit2(b1, b2) << 6) | digit3(b2) == b2,
{
    assert(((b0 >> 2) << 2) | ((((b0 & 3) << 4) | (b1 >> 4)) >> 4) == b0) by (bit_vector);
    assert(((((b0 & 3) << 4) | (b1 >> 4)) << 4) | ((((b1 & 15) << 2) | (b2 >> 6)) >> 2) == b1)
        by (bit_vector);
    assert(((((b1 & 15) << 2) | (b2 >> 6)) << 6) | (b2 & 63) == b2) by (bit_vector);
}

/// What bytes are encoded to consists of characters of the alphabet.
pub proof fn lemma_encode64(chars: Seq<u8>, data: Seq<u8>)
    requires
        chars.len() == 65,
    ensures
        in_alphabet(chars, encode64(chars, data)),
        encode64(chars, data).len() == 4 * ((data.len() + 2) / 3),
    decreases data.len(),
{
    let s = encode64(chars, data);
    if data.len() >= 3 {
        lemma_digits(data[0], data[1], data[2]);
        let rest = encode64(chars, data.skip(3));
        lemma_encode64(chars, data.skip(3));
        assert forall|i: int| 0 <= i < s.len() implies chars.contains(#[trigger] s[i]) by {
            if i >= 4 {
                assert(s[i] == rest[i - 4]);
            }
        }
    } else if data.len() > 0 {
        lemma_digits(data[0], if data.len() == 2 { data[1] } else { 0 }, 0);
    }
}

/// The place of a character of an alphabet.
proof fn lemma_place(chars: Seq<u8>, i: int)
    requires
        is_alphabet(chars),
        0 <= i < 65,
    ensures
        chars.index_of(chars[i]) == i,
{
    let p = chars.index_of(chars[i]);
    assert(0 <= p < 65 && chars[p] == chars[i]);
}

/// Over every alphabet of different characters, what bytes are encoded to is
/// decoded to those bytes.
pub proof fn law_decode_encode(chars: Seq<u8>, data: Seq<u8>)
    requires
        is_alphabet(chars),
    ensures
        decode64(chars, encode64(chars, data)) == Some(data),
    decreases data.len(),
{
    let s = encode64(chars, data);
    lemma_encode64(chars, data);
    lemma_place(chars, 64);
    if data.len() == 0 {
        assert(groups_bytes(chars, s) =~= data);
    } else {
        let b0 = data[0];
        let b1: u8 = if data.len() > 1 { data[1] } else { 0 };
        let b2: u8 = if data.len() > 2 { data[2] } else { 0 };
        lemma_digits(b0, b1, b2);
        lemma_group(b0, b1, b2);
        lemma_place(chars, digit0(b0) as int);
        lemma_place(chars, digit1(b0, b1) as int);
        lemma_place(chars, digit2(b1, b2) as int);
        lemma_place(chars, digit3(b2) as int);
        if data.len() < 3 {
            assert(s.skip(4) =~= Seq::empty());
            assert(groups_bytes(chars, s.skip(4)) =~= Seq::empty());
            assert(groups_bytes(chars, s) =~= data);
        } else {
            law_decode_encode(chars, data.skip(3));
            assert(s.skip(4) =~= encode64(chars, data.skip(3)));
            assert(groups_bytes(chars, s) =~= data);
        }
    }
}

/// The place of a byte in an alphabet, and -1 if it has none.
pub open spec fn place_or_none(chars: Seq<u8>, b: u8) -> int {
    if chars.contains(b) {
        chars.index_of(b)
    } else {
        -1
    }
}

/// Looks the place of a byte in an alphabet up.
fn place_of(chars: &[u8; 65], b: u8) -> (r: i8)
    requires
        is_alphabet(chars@),
    ensures
        r == place_or_none(chars@, b),
{
    let mut i: usize = 0;
    while i < 65
        invariant
            i <= 65,
            is_alphabet(chars@),
            forall|k: int| 0 <= k < i ==> chars@[k] != b,
        decreases 65 - i,
    {
        if chars[i] == b {
            proof {
                lemma_place(chars@, i as int);
            }
            return i as i8;
        }
        i += 1;
    }
    -1
}

/// A base-64 code: its alphabet, and for each byte its place in the alphabet.
pub struct MixBase64 {
    chars: [u8; 65],
    decode_map: [i8; 256],
}

impl MixBase64 {
    /// The alphabet of the code.
    pub closed spec fn alphabet(&self) -> Seq<u8> {
        self.chars@
    }

    /// Whether the map from bytes to places is that of the alphabet.
    pub closed spec fn wf(&self) -> bool {
        &&& is_alphabet(self.chars@)
        &&& forall|b: int|
            0 <= b < 256 ==> #[trigger] self.decode_map@[b] == place_or_none(self.chars@, b as u8)
    }

    /// The code of a password.
    pub fn new(password: &str) -> (r: Self)
        ensures
            r.wf(),
            r.alphabet() == alphabet(password@ + "mix64"@),
    {
        let secret: Vec<u8> = init_ksa(&join2(password, "mix64"));
        proof {
            law_alphabet(password@ + "mix64"@);
        }
        let chars: [u8; 65] = first_bytes::<65>(&secret);
        assert(chars@ =~= secret@);
        let mut decode_map: [i8; 256] = [-1i8; 256];
        let mut b: usize = 0;
        while b < 256
            invariant
                b <= 256,
                is_alphabet(chars@),
                forall|k: int| 0 <= k < b ==> #[trigger] decode_map@[k] == place_or_none(chars@, k as u8),
            decreases 256 - b,
        {
            decode_map[b] = place_of(&chars, b as u8);
            b += 1;
        }
        MixBase64 { chars, decode_map }
    }

    /// Encodes bytes.
    pub fn encode(&self, data: &[u8]) -> (r: String)
        requires
            self.wf(),
        ensures
            r@ == ascii_text(encode64(self.alphabet(), data@)),
    {
        let ghost chars = self.chars@;
        let mut out: String = String::new();
        let pad: u8 = self.chars[64];
        let mut i: usize = 0;
        assert(data@.skip(0) =~= data@);
        assert(ascii_text(encode64(chars, data@)) =~= out@ + ascii_text(encode64(chars, data@)));
        while data.len() - i >= 3
            invariant
                i <= data@.len(),
                chars == self.chars@,
                self.wf(),
                ascii_text(encode64(chars, data@)) == out@ + ascii_text(
                    encode64(chars, data@.skip(i as int)),
                ),
            decreases data@.len() - i,
        {
            let b0: u8 = data[i];
            let b1: u8 = data[i + 1];
            let b2: u8 = data[i + 2];
            let ghost rest = data@.skip(i as int);
            let ghost before = out@;
            proof {
                lemma_digits(b0, b1, b2);
            }
            out.push(self.chars[(b0 >> 2) as usize] as char);
            out.push(self.chars[(((b0 & 3) << 4) | (b1 >> 4)) as usize] as char);
            out.push(self.chars[(((b1 & 15) << 2) | (b2 >> 6)) as usize] as char);
            out.push(self.chars[(b2 & 63) as usize] as char);
            proof {
                assert(rest.skip(3) =~= data@.skip(i + 3));
                assert(out@ + ascii_text(encode64(chars, rest.skip(3))) =~= before + ascii_text(
                    encode64(chars, rest),
                ));
            }
            i += 3;
        }
        let ghost rest = data@.skip(i as int);
        let ghost before = out@;
        let remaining: usize = data.len() - i;
        if remaining == 1 {
            let b0: u8 = data[i];
            proof {
                lemma_digits(b0, 0, 0);
            }
            out.push(self.chars[(b0 >> 2) as usize] as char);
            out.push(self.chars[((b0 & 3) << 4) as usize] as char);
            out.push(pad as char);
            out.push(pad as char);
        } else if remaining == 2 {
            let b0: u8 = data[i];
            let b1: u8 = data[i + 1];
            proof {
                lemma_digits(b0, b1, 0);
            }
            out.push(self.chars[(b0 >> 2) as usize] as char);
            out.push(self.chars[(((b0 & 3) << 4) | (b1 >> 4)) as usize] as char);
            out.push(self.chars[((b1 & 15) << 2) as usize] as char);
            out.push(pad as char);
        }
        assert(out@ =~= before + ascii_text(encode64(chars, rest)));
        out
    }

    /// Decodes text: whole groups of four characters of the alphabet.
    pub fn decode(&self, s: &str) -> (r: Result<Vec<u8>, String>)
        requires
            self.wf(),
        ensures
            match r {
                Ok(bytes) => decode64(self.alphabet(), encode_utf8(s@)) == Some(bytes@),
                Err(message) => {
                    &&& decode64(self.alphabet(), encode_utf8(s@)) is None
                    &&& message@ == if encode_utf8(s@).len() % 4 != 0 {
                        "invalid base64 string length"@
                    } else {
                        "invalid base64 character"@
                    }
                },
            },
    {
        let ghost chars = self.chars@;
        let bytes: &[u8] = s.as_bytes();
        if bytes.len() % 4 != 0 {
            return Err("invalid base64 string length".to_string());
        }
        let mut out: Vec<u8> = Vec::new();
        let mut i: usize = 0;
        assert(bytes@.skip(0) =~= bytes@);
        assert(groups_bytes(chars, bytes@) =~= out@ + groups_bytes(chars, bytes@));
        while i < bytes.len()
            invariant
                i <= bytes@.len(),
                bytes@.len() % 4 == 0,
                i % 4 == 0,
                bytes@ == encode_utf8(s@),
                chars == self.chars@,
                self.wf(),
                forall|k: int| 0 <= k < i ==> chars.contains(#[trigger] bytes@[k]),
                groups_bytes(chars, bytes@) == out@ + groups_bytes(chars, bytes@.skip(i as int)),
            decreases bytes@.len() - i,
        {
            let p0: i8 = self.decode_map[bytes[i] as usize];
            let p1: i8 = self.decode_map[bytes[i + 1] as usize];
            let p2: i8 = self.decode_map[bytes[i + 2] as usize];
            let p3: i8 = self.decode_map[bytes[i + 3] as usize];
            proof {
                self.lemma_lookup(bytes@[i as int]);
                self.lemma_lookup(bytes@[i + 1]);
                self.lemma_lookup(bytes@[i + 2]);
                self.lemma_lookup(bytes@[i + 3]);
            }
            if p0 < 0 || p1 < 0 || p2 < 0 || p3 < 0 {
                return Err("invalid base64 character".to_string());
            }
            let e0: u8 = p0 as u8;
            let e1: u8 = p1 as u8;
            let e2: u8 = p2 as u8;
            let e3: u8 = p3 as u8;
            let ghost rest = bytes@.skip(i as int);
            let ghost before = out@;
            out.push((e0 << 2) | (e1 >> 4));
            if e2 < 64 {
                out.push((e1 << 4) | (e2 >> 2));
            }
            if e3 < 64 {
                out.push((e2 << 6) | e3);
            }
            proof {
                assert(out@ =~= before + group_bytes(e0, e1, e2, e3));
                assert(rest.skip(4) =~= bytes@.skip(i + 4));
                assert(groups_bytes(chars, rest) == group_bytes(e0, e1, e2, e3) + groups_bytes(
                    chars,
                    rest.skip(4),
                ));
                assert(out@ + groups_bytes(chars, rest.skip(4)) =~= before + groups_bytes(chars, rest));
            }
            i += 4;
        }
        assert(out@ =~= groups_bytes(chars, bytes@));
        Ok(out)
    }

    /// What the map holds for a byte.
    proof fn lemma_lookup(&self, b: u8)
        requires
            self.wf(),
        ensures
            self.decode_map@[b as int] < 65,
            self.decode_map@[b as int] >= 0 <==> self.chars@.contains(b),
            self.chars@.contains(b) ==> self.decode_map@[b as int] == self.chars@.index_of(b),
    {
        assert(self.decode_map@[b as int] == place_or_none(self.chars@, b));
        if self.chars@.contains(b) {
            let p = self.chars@.index_of(b);
            assert(0 <= p < 65);
        }
    }
}

/// The digits of three bytes are those of the number that the bytes make, in base
/// 64.
proof fn lemma_digit_values(b0: u8, b1: u8, b2: u8)
    ensures
        ({
            let n = b0 as int * 65536 + b1 as int * 256 + b2 as int;
            &&& digit0(b0) == n / 262144
            &&& digit1(b0, b1) == (n / 4096) % 64
            &&& digit2(b1, b2) == (n / 64) % 64
            &&& digit3(b2) == n % 64
        }),
{
    assert(b0 >> 2 == b0 / 4) by (bit_vector);
    assert(((b0 & 3) << 4) | (b1 >> 4) == (b0 % 4) * 16 + b1 / 16) by (bit_vector);
    assert(((b1 & 15) << 2) | (b2 >> 6) == (b1 % 16) * 4 + b2 / 64) by (bit_vector);
    assert(b2 & 63 == b2 % 64) by (bit_vector);
    let n = b0 as int * 65536 + b1 as int * 256 + b2 as int;
    assert(n / 262144 == b0 as int / 4);
    assert(n / 4096 == b0 as int * 16 + b1 as int / 16);
    assert(n / 64 == b0 as int * 1024 + b1 as int * 4 + b2 as int / 64);
}

/// The number that the group of three bytes at a place makes, with zeros for
/// bytes that there are not.
pub open spec fn group_number(data: Seq<u8>, group: int) -> int {
    let byte = |i: int|
        if i < data.len() {
            data[i] as int
        } else {
            0
        };
    byte(3 * group) * 65536 + byte(3 * group + 1) * 256 + byte(3 * group + 2)
}

/// Each three bytes are encoded to the four digits in base 64 of the number that
/// they make, most significant first. Of a last group of one byte the last two
/// digits, and of one of two bytes the last digit, give way to padding.
pub proof fn law_encoded_groups(chars: Seq<u8>, data: Seq<u8>, group: int)
    requires
        chars.len() == 65,
        0 <= 3 * group < data.len(),
    ensures
        ({
            let code = encode64(chars, data);
            let n = group_number(data, group);
            &&& code.len() == 4 * ((data.len() + 2) / 3)
            &&& code[4 * group] == chars[n / 262144]
            &&& code[4 * group + 1] == chars[(n / 4096) % 64]
            &&& code[4 * group + 2] == if 3 * group + 1 < data.len() {
                chars[(n / 64) % 64]
            } else {
                chars[64]
            }
            &&& code[4 * group + 3] == if 3 * group + 2 < data.len() {
                chars[n % 64]
            } else {
                chars[64]
            }
        }),
    decreases group,
{
    lemma_encode64(chars, data);
    let code = encode64(chars, data);
    if group == 0 {
        let b1: u8 = if data.len() > 1 {
            data[1]
        } else {
            0
        };
        let b2: u8 = if data.len() > 2 {
            data[2]
        } else {
            0
        };
        lemma_digit_values(data[0], b1, b2);
        lemma_digit_values(data[0], b1, 0);
    } else {
        let rest = data.skip(3);
        law_encoded_groups(chars, rest, group - 1);
        lemma_encode64(chars, rest);
        assert(group_number(data, group) == group_number(rest, group - 1));
        assert forall|k: int| 4 <= k < code.len() implies code[k] == encode64(chars, rest)[k - 4] by {
        }
    }
}

/// Text is decoded group by group: what follows whole groups does not matter for
/// what they stand for.
pub proof fn law_decoded_groups(chars: Seq<u8>, a: Seq<u8>, b: Seq<u8>)
    requires
        a.len() % 4 == 0,
        b.len() % 4 == 0,
    ensures
        decode64(chars, a + b) == match (decode64(chars, a), decode64(chars, b)) {
            (Some(x), Some(y)) => Some(x + y),
            _ => None,
        },
    decreases a.len(),
{
    let all = a + b;
    if !in_alphabet(chars, a) {
        let i = choose|i: int| 0 <= i < a.len() && !chars.contains(#[trigger] a[i]);
        assert(all[i] == a[i]);
    } else if !in_alphabet(chars, b) {
        let i = choose|i: int| 0 <= i < b.len() && !chars.contains(#[trigger] b[i]);
        assert(all[a.len() + i] == b[i]);
    } else {
        assert forall|i: int| 0 <= i < all.len() implies chars.contains(#[trigger] all[i]) by {
            if i < a.len() {
                assert(all[i] == a[i]);
            } else {
                assert(all[i] == b[i - a.len()]);
            }
        }
        if a.len() == 0 {
            assert(all =~= b);
            assert(groups_bytes(chars, a) + groups_bytes(chars, b) =~= groups_bytes(chars, b));
        } else {
            let rest = a.skip(4);
            assert(in_alphabet(chars, rest)) by {
                assert forall|i: int| 0 <= i < rest.len() implies chars.contains(
                    #[trigger] rest[i],
                ) by {
                    assert(rest[i] == a[i + 4]);
                }
            }
            law_decoded_groups(chars, rest, b);
            assert(all.skip(4) =~= rest + b);
            assert(groups_bytes(chars, all) =~= groups_bytes(chars, a) + groups_bytes(chars, b));
        }
    }
}

/// What is no text of whole groups of characters of the alphabet is no code.
pub proof fn law_no_code(chars: Seq<u8>, s: Seq<u8>, at: int)
    requires
        s.len() % 4 != 0 || 0 <= at < s.len() && !chars.contains(s[at]),
    ensures
        decode64(chars, s) is None,
{
}

/// The shuffle begins with the characters in order. Each step exchanges the next
/// character with the one at a place that moves on by the number of that
/// character and a byte of the key.
pub proof fn law_shuffle(key: Seq<u8>, step: nat, at: int)
    requires
        step < 65,
        0 <= at < 65,
    ensures
        shuffle(key, 0).0[at] == at,
        shuffle(key, 0).1 == 0,
        ({
            let (order, j) = shuffle(key, step);
            let (next, k) = shuffle(key, step + 1);
            &&& k == (j + order[step as int] + key[step as int % 32]) % 65
            &&& next[k] == order[step as int]
            &&& next[step as int] == order[k]
            &&& at != k && at != step ==> next[at] == order[at]
        }),
{
    lemma_shuffle(key, step);
}

/// The alphabet of a password is that of the 65 characters which the digest of
/// the password shuffles: `A` to `Z`, `a` to `z`, `0` to `9`, `-`, `~` and `+`.
pub proof fn law_alphabet_of_password(password: Seq<char>, i: int)
    requires
        0 <= i < 65,
    ensures
        ({
            let k = shuffle(sha256(encode_utf8(password)), 65).0[i] as int;
            &&& alphabet(password).len() == 65
            &&& 0 <= k < 65
            &&& k < 26 ==> alphabet(password)[i] == 'A' as int + k
            &&& 26 <= k < 52 ==> alphabet(password)[i] == 'a' as int + k - 26
            &&& 52 <= k < 62 ==> alphabet(password)[i] == '0' as int + k - 52
            &&& k == 62 ==> alphabet(password)[i] == '-' as int
            &&& k == 63 ==> alphabet(password)[i] == '~' as int
            &&& k == 64 ==> alphabet(password)[i] == '+' as int
        }),
{
    lemma_shuffle(sha256(encode_utf8(password)), 65);
}

} // verus!
