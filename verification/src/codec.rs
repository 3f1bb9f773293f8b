//! Encodings, hashing and randomness used by the sign-in flow and by the
//! export helpers: base64url (RFC 4648 section 5, no padding), SHA-256,
//! percent-encoding of URL components and random tokens.

use vstd::prelude::*;
use vstd::utf8::*;

verus! {

// ---------------------------------------------------------------------------
// base64url without padding
// ---------------------------------------------------------------------------

/// The character for a 6-bit value in the URL- and file-name-safe alphabet
/// of RFC 4648, section 5.
pub open spec fn b64url_char(i: nat) -> char {
    if i < 26 {
        (65 + i) as char
    } else if i < 52 {
        (97 + (i - 26)) as char
    } else if i < 62 {
        (48 + (i - 52)) as char
    } else if i == 62 {
        '-'
    } else {
        '_'
    }
}

/// A character of the base64url alphabet.
pub open spec fn is_b64url_char(c: char) -> bool {
    ||| 'A' <= c <= 'Z'
    ||| 'a' <= c <= 'z'
    ||| '0' <= c <= '9'
    ||| c == '-'
    ||| c == '_'
}

/// RFC 4648 base64url encoding without `=` padding: every three bytes
/// become four characters, a final one or two bytes become two or three.
pub open spec fn b64url_spec(b: Seq<u8>) -> Seq<char>
    decreases b.len(),
{
    if b.len() == 0 {
        seq![]
    } else if b.len() == 1 {
        seq![b64url_char((b[0] / 4) as nat), b64url_char(((b[0] % 4) * 16) as nat)]
    } else if b.len() == 2 {
        seq![
            b64url_char((b[0] / 4) as nat),
            b64url_char(((b[0] % 4) * 16 + b[1] / 16) as nat),
            b64url_char(((b[1] % 16) * 4) as nat),
        ]
    } else {
        seq![
            b64url_char((b[0] / 4) as nat),
            b64url_char(((b[0] % 4) * 16 + b[1] / 16) as nat),
            b64url_char(((b[1] % 16) * 4 + b[2] / 64) as nat),
            b64url_char((b[2] % 64) as nat),
        ] + b64url_spec(b.skip(3))
    }
}

/// The length of the unpadded base64url encoding of `n` bytes.
pub open spec fn b64url_len(n: nat) -> nat {
    4 * (n / 3) + if n % 3 == 0 {
        0
    } else {
        n % 3 + 1
    }
}

/// The encoding has the length that `base64::encoded_len` computes without
/// padding, and uses only characters of the base64url alphabet.
pub proof fn lemma_b64url_shape(b: Seq<u8>)
    ensures
        b64url_spec(b).len() == b64url_len(b.len()),
        forall|i: int| 0 <= i < b64url_spec(b).len() ==> is_b64url_char(#[trigger] b64url_spec(b)[i]),
    decreases b.len(),
{
    assert forall|i: nat| i < 64 implies is_b64url_char(#[trigger] b64url_char(i)) by {}
    if b.len() >= 3 {
        lemma_b64url_shape(b.skip(3));
        assert(b.skip(3).len() == b.len() - 3);
        assert((b.len() - 3) / 3 == b.len() / 3 - 1);
        assert((b.len() - 3) % 3 == b.len() % 3);
        let head = seq![
            b64url_char((b[0] / 4) as nat),
            b64url_char(((b[0] % 4) * 16 + b[1] / 16) as nat),
            b64url_char(((b[1] % 16) * 4 + b[2] / 64) as nat),
            b64url_char((b[2] % 64) as nat),
        ];
        assert forall|i: int| 0 <= i < b64url_spec(b).len() implies is_b64url_char(
            #[trigger] b64url_spec(b)[i],
        ) by {
            if i >= 4 {
                assert(b64url_spec(b)[i] == b64url_spec(b.skip(3))[i - 4]);
            } else {
                assert(b64url_spec(b)[i] == head[i]);
            }
        }
    }
}

/// `base64`'s `URL_SAFE_NO_PAD.encode`: the RFC 4648 base64url encoding of
/// `data`, without padding. `encode` panics when the encoded length does not
/// fit in a `usize`; `requires` leaves those inputs out.
#[verifier::external_body]
pub(crate) fn b64url(data: &[u8]) -> (s: String)
    requires
        4 * (data@.len() / 3) + 3 <= usize::MAX,
    ensures
        s@ == b64url_spec(data@),
{
    base64::Engine::encode(&base64::engine::general_purpose::URL_SAFE_NO_PAD, data)
}

// ---------------------------------------------------------------------------
// SHA-256
// ---------------------------------------------------------------------------

/// The SHA-256 digest (FIPS 180-4) of a byte sequence.
pub uninterp spec fn sha256_spec(data: Seq<u8>) -> Seq<u8>;

/// `sha2::Sha256::digest`: the SHA-256 digest of `data`, which is 32 bytes
/// long (the output size `U32` of `Sha256`).
#[verifier::external_body]
pub(crate) fn sha256(data: &[u8]) -> (h: Vec<u8>)
    ensures
        h@ == sha256_spec(data@),
        h@.len() == 32,
{
    <sha2::Sha256 as sha2::Digest>::digest(data).to_vec()
}

// ---------------------------------------------------------------------------
// Randomness
// ---------------------------------------------------------------------------

/// `rand::thread_rng().fill_bytes`: overwrites every byte of `bytes` with
/// random data. Which bytes come out is chance, so only the length is
/// stated. The generator panics when the operating system's random source
/// fails, at its first seeding (`thread_rng`) or at a later reseeding within
/// `fill_bytes`; no argument decides that.
#[verifier::external_body]
fn fill_random(bytes: &mut Vec<u8>)
    ensures
        final(bytes)@.len() == old(bytes)@.len(),
{
    rand::RngCore::fill_bytes(&mut rand::thread_rng(), bytes.as_mut_slice());
}

/// `len` fresh random bytes, encoded in base64url without padding.
pub fn random_b64url(len: usize) -> (s: String)
    requires
        4 * (len / 3) + 3 <= usize::MAX,
    ensures
        exists|bytes: Seq<u8>| bytes.len() == len && s@ == b64url_spec(bytes),
        s@.len() == b64url_len(len as nat),
        forall|i: int| 0 <= i < s@.len() ==> is_b64url_char(#[trigger] s@[i]),
{
    let mut bytes: Vec<u8> = Vec::new();
    let mut i: usize = 0;
    while i < len
        invariant
            i <= len,
            bytes@.len() == i,
        decreases len - i,
    {
        bytes.push(0u8);
        i = i + 1;
    }
    fill_random(&mut bytes);
    let s = b64url(bytes.as_slice());
    proof {
        lemma_b64url_shape(bytes@);
    }
    s
}

// ---------------------------------------------------------------------------
// Percent-encoding
// ---------------------------------------------------------------------------

/// Bytes that percent-encoding leaves as they are: ASCII letters, digits and
/// `-`, `.`, `_`, `~`.
pub open spec fn is_unreserved(b: u8) -> bool {
    ||| 48 <= b <= 57
    ||| 65 <= b <= 90
    ||| 97 <= b <= 122
    ||| b == 45
    ||| b == 46
    ||| b == 95
    ||| b == 126
}

/// The upper-case hexadecimal digit for `d < 16`.
pub open spec fn hex_upper(d: nat) -> char {
    if d < 10 {
        (48 + d) as char
    } else {
        (55 + d) as char
    }
}

/// One byte, percent-encoded: itself if unreserved, else `%` and two
/// upper-case hexadecimal digits.
pub open spec fn percent_encode_byte(b: u8) -> Seq<char> {
    if is_unreserved(b) {
        seq![b as char]
    } else {
        seq!['%', hex_upper((b / 16) as nat), hex_upper((b % 16) as nat)]
    }
}

/// Every byte of `bytes`, percent-encoded in turn.
pub open spec fn percent_encode(bytes: Seq<u8>) -> Seq<char>
    decreases bytes.len(),
{
    if bytes.len() == 0 {
        seq![]
    } else {
        percent_encode_byte(bytes[0]) + percent_encode(bytes.drop_first())
    }
}

/// The percent-encoding of the UTF-8 bytes of `s`.
pub open spec fn url_encode_spec(s: Seq<char>) -> Seq<char> {
    percent_encode(encode_utf8(s))
}

/// `urlencoding::encode`: percent-encodes every UTF-8 byte of `s` except ASCII
/// letters, digits and `-`, `_`, `.`, `~`, with upper-case hexadecimal digits.
#[verifier::external_body]
pub(crate) fn url_encode(s: &str) -> (r: String)
    ensures
        r@ == url_encode_spec(s@),
{
    urlencoding::encode(s).into_owned()
}

/// The value of a hexadecimal digit byte, in either case.
pub open spec fn hex_value(b: u8) -> Option<u8> {
    if 48 <= b <= 57 {
        Some((b - 48) as u8)
    } else if 65 <= b <= 70 {
        Some((b - 55) as u8)
    } else if 97 <= b <= 102 {
        Some((b - 87) as u8)
    } else {
        None
    }
}

/// The bytes `d` with each `%` followed by two hexadecimal digits replaced by
/// the byte they give; any other `%` stays, and reading goes on right after it
/// (after the first digit where only that one is hexadecimal).
pub open spec fn percent_decode(d: Seq<u8>) -> Seq<u8>
    decreases d.len(),
{
    if d.len() == 0 {
        seq![]
    } else if d[0] == 37 && d.len() >= 3 {
        match (hex_value(d[1]), hex_value(d[2])) {
            (Some(h), Some(l)) => seq![(h * 16 + l) as u8] + percent_decode(d.skip(3)),
            (Some(_), None) => seq![37u8, d[1]] + percent_decode(d.skip(2)),
            _ => seq![37u8] + percent_decode(d.skip(1)),
        }
    } else {
        seq![d[0]] + percent_decode(d.skip(1))
    }
}

/// The percent-decoding of the UTF-8 bytes of `s` read as UTF-8: `None` when
/// the decoded bytes are not valid UTF-8.
pub open spec fn url_decode_spec(s: Seq<char>) -> Option<Seq<char>> {
    let d = percent_decode(encode_utf8(s));
    if valid_utf8(d) {
        Some(decode_utf8(d))
    } else {
        None
    }
}

/// `urlencoding::decode`: replaces each `%XX` escape of `s` by its byte, keeps
/// every other byte (a lone `%` among them), and reads the result as UTF-8
/// (`None` where `decode` returns its UTF-8 error).
#[verifier::external_body]
pub(crate) fn url_decode(s: &str) -> (r: Option<String>)
    ensures
        match r {
            Some(t) => url_decode_spec(s@) == Some(t@),
            None => url_decode_spec(s@) is None,
        },
{
    match urlencoding::decode(s) {
        Ok(c) => Some(c.into_owned()),
        Err(_) => None,
    }
}

/// A byte with its high bit set is not ASCII.
proof fn lemma_high_bit_bytes()
    by (bit_vector)
    ensures
        forall|x: u8| #[trigger] (0x80u8 | x) >= 0x80u8,
        forall|x: u8| #[trigger] (0xC0u8 | x) >= 0x80u8,
        forall|x: u8| #[trigger] (0xE0u8 | x) >= 0x80u8,
        forall|x: u8| #[trigger] (0xF0u8 | x) >= 0x80u8,
{
}

/// No byte of the UTF-8 encoding of a text without `%` is the byte of `%`.
proof fn lemma_utf8_without_percent(s: Seq<char>)
    requires
        !s.contains('%'),
    ensures
        forall|j: int| 0 <= j < encode_utf8(s).len() ==> #[trigger] encode_utf8(s)[j] != 37u8,
    decreases s.len(),
{
    if s.len() > 0 {
        let rest = s.drop_first();
        assert(!rest.contains('%')) by {
            if rest.contains('%') {
                let k = choose|k: int| 0 <= k < rest.len() && rest[k] == '%';
                assert(s[k + 1] == '%');
            }
        }
        lemma_utf8_without_percent(rest);
        let v = s[0] as u32;
        assert(s[0] != '%');
        char_is_scalar(s[0]);
        char_u32_cast(s[0], v);
        char_u32_cast('%', 37u32);
        assert(v != 37u32);
        let e = encode_scalar(v);
        lemma_high_bit_bytes();
        if has_width_1_encoding(v) {
            assert((v & 0x7F) == v) by (bit_vector)
                requires
                    v <= 0x7F,
            ;
        }
        assert forall|j: int| 0 <= j < e.len() implies #[trigger] e[j] != 37u8 by {}
        let all = encode_utf8(s);
        assert(all == e + encode_utf8(rest));
        assert forall|j: int| 0 <= j < all.len() implies #[trigger] all[j] != 37u8 by {
            if j < e.len() {
                assert(all[j] == e[j]);
            } else {
                assert(all[j] == encode_utf8(rest)[j - e.len()]);
            }
        }
    }
}

/// Bytes without `%` decode to themselves.
proof fn lemma_percent_decode_plain(d: Seq<u8>)
    requires
        forall|j: int| 0 <= j < d.len() ==> #[trigger] d[j] != 37u8,
    ensures
        percent_decode(d) == d,
    decreases d.len(),
{
    if d.len() > 0 {
        let t = d.skip(1);
        assert forall|j: int| 0 <= j < t.len() implies #[trigger] t[j] != 37u8 by {
            assert(t[j] == d[j + 1]);
        }
        lemma_percent_decode_plain(t);
        assert(d[0] != 37u8);
        assert(seq![d[0]] + t =~= d);
    }
}

/// Fewer than three bytes hold no complete escape and decode to themselves.
proof fn lemma_percent_decode_short(d: Seq<u8>)
    requires
        d.len() < 3,
    ensures
        percent_decode(d) == d,
    decreases d.len(),
{
    if d.len() > 0 {
        lemma_percent_decode_short(d.skip(1));
        assert(seq![d[0]] + d.skip(1) =~= d);
    }
}

/// Two ASCII characters decode to themselves, even where the first is `%`.
pub proof fn lemma_url_decode_two_ascii(a: char, b: char)
    requires
        (a as u32) < 128,
        (b as u32) < 128,
    ensures
        url_decode_spec(seq![a, b]) == Some(seq![a, b]),
{
    let s = seq![a, b];
    assert(s =~= seq![a] + seq![b]);
    lemma_encode_utf8_concat(seq![a], seq![b]);
    lemma_encode_ascii_char(a);
    lemma_encode_ascii_char(b);
    lemma_percent_decode_short(encode_utf8(s));
    encode_utf8_valid_utf8(s);
    encode_utf8_decode_utf8(s);
}

/// A text without `%` decodes to itself.
pub proof fn lemma_url_decode_without_percent(s: Seq<char>)
    requires
        !s.contains('%'),
    ensures
        url_decode_spec(s) == Some(s),
{
    lemma_utf8_without_percent(s);
    lemma_percent_decode_plain(encode_utf8(s));
    encode_utf8_valid_utf8(s);
    encode_utf8_decode_utf8(s);
}

/// The UTF-8 encoding of two texts one after the other.
pub proof fn lemma_encode_utf8_concat(a: Seq<char>, b: Seq<char>)
    ensures
        encode_utf8(a + b) == encode_utf8(a) + encode_utf8(b),
    decreases a.len(),
{
    if a.len() == 0 {
        assert(a + b =~= b);
        assert(encode_utf8(a) + encode_utf8(b) =~= encode_utf8(b));
    } else {
        lemma_encode_utf8_concat(a.drop_first(), b);
        assert((a + b).drop_first() =~= a.drop_first() + b);
        assert((a + b)[0] == a[0]);
        assert(encode_utf8(a + b) =~= encode_utf8(a) + encode_utf8(b));
    }
}

/// An ASCII character is encoded as its own byte.
pub proof fn lemma_encode_ascii_char(c: char)
    requires
        (c as u32) < 128,
    ensures
        encode_utf8(seq![c]) == seq![(c as u32) as u8],
{
    let v = c as u32;
    assert((v & 0x7F) == v) by (bit_vector)
        requires
            v < 128,
    ;
    assert(seq![c].drop_first() =~= Seq::<char>::empty());
    assert(encode_utf8(seq![c]) =~= encode_scalar(v) + encode_utf8(Seq::<char>::empty()));
}

/// The bytes of [`percent_encode`]: each byte itself if unreserved, else `%`
/// and two upper-case hexadecimal digits.
pub open spec fn percent_encode_bytes(b: Seq<u8>) -> Seq<u8>
    decreases b.len(),
{
    if b.len() == 0 {
        seq![]
    } else {
        (if is_unreserved(b[0]) {
            seq![b[0]]
        } else {
            seq![37u8, hex_upper(b[0] as nat / 16) as u8, hex_upper(b[0] as nat % 16) as u8]
        }) + percent_encode_bytes(b.drop_first())
    }
}

/// The UTF-8 bytes of the percent-encoding are [`percent_encode_bytes`].
proof fn lemma_percent_encode_utf8(b: Seq<u8>)
    ensures
        encode_utf8(percent_encode(b)) == percent_encode_bytes(b),
    decreases b.len(),
{
    if b.len() > 0 {
        let x = b[0];
        let h = percent_encode_byte(x);
        lemma_percent_encode_utf8(b.drop_first());
        lemma_encode_utf8_concat(h, percent_encode(b.drop_first()));
        if is_unreserved(x) {
            lemma_encode_ascii_char(x as char);
        } else {
            let c0 = '%';
            let c1 = hex_upper((x / 16) as nat);
            let c2 = hex_upper((x % 16) as nat);
            assert(h =~= seq![c0] + seq![c1] + seq![c2]);
            lemma_encode_utf8_concat(seq![c0] + seq![c1], seq![c2]);
            lemma_encode_utf8_concat(seq![c0], seq![c1]);
            lemma_encode_ascii_char(c0);
            lemma_encode_ascii_char(c1);
            lemma_encode_ascii_char(c2);
            assert(encode_utf8(h) =~= seq![37u8, c1 as u32 as u8, c2 as u32 as u8]);
        }
    }
}

/// Decoding undoes [`percent_encode_bytes`].
proof fn lemma_percent_decode_encoded(b: Seq<u8>)
    ensures
        percent_decode(percent_encode_bytes(b)) == b,
    decreases b.len(),
{
    if b.len() > 0 {
        let x = b[0];
        let rest = b.drop_first();
        lemma_percent_decode_encoded(rest);
        let e = percent_encode_bytes(b);
        if is_unreserved(x) {
            assert(e =~= seq![x] + percent_encode_bytes(rest));
            assert(e.skip(1) =~= percent_encode_bytes(rest));
            assert(seq![x] + rest =~= b);
        } else {
            let hi = hex_upper(x as nat / 16) as u8;
            let lo = hex_upper(x as nat % 16) as u8;
            assert(e =~= seq![37u8, hi, lo] + percent_encode_bytes(rest));
            assert(e.skip(3) =~= percent_encode_bytes(rest));
            assert(hex_value(hi) == Some((x / 16) as u8));
            assert(hex_value(lo) == Some((x % 16) as u8));
            assert(((x / 16) as u8 * 16 + (x % 16) as u8) as u8 == x);
            assert(seq![x] + rest =~= b);
        }
    }
}

/// Decoding the percent-encoding of a text gives the text back.
pub proof fn law_url_decode_undoes_url_encode(s: Seq<char>)
    ensures
        url_decode_spec(url_encode_spec(s)) == Some(s),
{
    let b = encode_utf8(s);
    lemma_percent_encode_utf8(b);
    lemma_percent_decode_encoded(b);
    encode_utf8_valid_utf8(s);
    encode_utf8_decode_utf8(s);
}

/// Percent-encoding leaves base64url text as it is, so base64url values can
/// stand in a URL unencoded.
pub proof fn law_b64url_text_needs_no_encoding(s: Seq<char>)
    requires
        forall|i: int| 0 <= i < s.len() ==> is_b64url_char(#[trigger] s[i]),
    ensures
        url_encode_spec(s) == s,
    decreases s.len(),
{
    if s.len() > 0 {
        let c = s[0];
        let rest = s.drop_first();
        assert forall|i: int| 0 <= i < rest.len() implies is_b64url_char(#[trigger] rest[i]) by {
            assert(rest[i] == s[i + 1]);
        }
        law_b64url_text_needs_no_encoding(rest);
        let u = c as u32;
        assert(is_b64url_char(s[0]));
        assert(u < 128);
        assert((u & 0x7F) == u) by (bit_vector)
            requires
                u < 128,
        ;
        let bytes = encode_utf8(s);
        assert(encode_scalar(u) =~= seq![u as u8]);
        assert(bytes =~= seq![u as u8] + encode_utf8(rest));
        assert(bytes[0] == u as u8);
        assert(bytes.drop_first() =~= encode_utf8(rest));
        assert(is_unreserved(u as u8));
        assert(percent_encode_byte(bytes[0]) =~= seq![c]);
        assert(seq![c] + rest =~= s);
    } else {
        assert(encode_utf8(s) =~= Seq::<u8>::empty());
    }
}

} // verus!
