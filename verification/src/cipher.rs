//! Symmetric authenticated encryption of opaque payloads, and the textual
//! wire form `nonce/ciphertext/tag` in which a sealed payload is kept.

use crate::hexcode::{
    digit_value, hex_bytes, hex_chars, hex_decode, hex_encode, hex_text, lemma_flipped_digit,
    lemma_hex_round_trip, lemma_hex_text_digits,
};
use crypto::aead::AeadDecryptor;
use crypto::aead::AeadEncryptor;
use crypto::aes::KeySize;
use crypto::aes_gcm::AesGcm;
use vstd::prelude::*;
use vstd::slice::*;
use vstd::string::*;
use vstd::utf8::*;

verus! {

/// Number of key bytes the cipher takes.
pub const KEY_LEN: usize = 16;

/// Number of nonce bytes the cipher takes.
pub const NONCE_LEN: usize = 12;

/// The byte that separates the three parts of a wire string.
pub const SEPARATOR: u8 = 0x2f;

/// Why a wire string could not be opened.
#[derive(Debug, Clone, Copy, PartialEq, Eq, Structural)]
pub enum DecodeError {
    /// Not three hexadecimal parts with a twelve-byte nonce in front.
    MalformedWire,
    /// The tag does not belong to the ciphertext under this secret.
    AuthenticationFailed,
}

/// The key that belongs to a secret: its bytes, cut after the sixteenth or
/// filled up with zero bytes on the right.
pub open spec fn sized_key(secret: Seq<u8>) -> Seq<u8> {
    Seq::new(16, |i: int| if i < secret.len() { secret[i] } else { 0u8 })
}

/// Ciphertext and tag that AES-128-GCM gives for a payload under a key and a
/// nonce, with no associated data.
pub uninterp spec fn gcm_seal(key: Seq<u8>, nonce: Seq<u8>, payload: Seq<u8>) -> (Seq<u8>, Seq<u8>);

/// The payload that AES-128-GCM gives back for a ciphertext and a tag under
/// a key and a nonce, where it accepts the tag.
pub uninterp spec fn gcm_open(key: Seq<u8>, nonce: Seq<u8>, sealed: Seq<u8>, tag: Seq<u8>) -> Option<Seq<u8>>;

/// Number of bytes in front of the first separator, or the length of `text`
/// where it holds none.
pub open spec fn first_slash(text: Seq<u8>) -> int
    decreases text.len(),
{
    if text.len() == 0 || text[0] == 0x2f {
        0
    } else {
        1 + first_slash(text.drop_first())
    }
}

/// The three parts of `text`, where it holds exactly two separators.
pub open spec fn split_wire(text: Seq<u8>) -> Option<(Seq<u8>, Seq<u8>, Seq<u8>)> {
    let i = first_slash(text);
    if i >= text.len() {
        None
    } else {
        let rest = text.subrange(i + 1, text.len() as int);
        let j = first_slash(rest);
        if j >= rest.len() {
            None
        } else {
            let last = rest.subrange(j + 1, rest.len() as int);
            if first_slash(last) < last.len() {
                None
            } else {
                Some((text.subrange(0, i), rest.subrange(0, j), last))
            }
        }
    }
}

/// Nonce, ciphertext and tag that the bytes of a wire string stand for:
/// exactly three parts, each of them hexadecimal text.
pub open spec fn parse_wire(text: Seq<u8>) -> Option<(Seq<u8>, Seq<u8>, Seq<u8>)> {
    match split_wire(text) {
        Some((a, b, c)) => match (hex_bytes(a), hex_bytes(b), hex_bytes(c)) {
            (Some(iv), Some(data), Some(mac)) => Some((iv, data, mac)),
            _ => None,
        },
        None => None,
    }
}

/// Whether the bytes of a wire string stand for this nonce, ciphertext and
/// tag.
pub open spec fn reads_as(text: Seq<u8>, iv: Seq<u8>, data: Seq<u8>, mac: Seq<u8>) -> bool {
    parse_wire(text) == Some((iv, data, mac))
}

/// The wire string of a nonce, a ciphertext and a tag.
pub open spec fn wire_text(iv: Seq<u8>, data: Seq<u8>, mac: Seq<u8>) -> Seq<char> {
    hex_chars(iv) + seq!['/'] + hex_chars(data) + seq!['/'] + hex_chars(mac)
}

/// The bytes of that wire string.
pub open spec fn wire_bytes(iv: Seq<u8>, data: Seq<u8>, mac: Seq<u8>) -> Seq<u8> {
    hex_text(iv) + seq![0x2fu8] + hex_text(data) + seq![0x2fu8] + hex_text(mac)
}

/// The wire string that sealing `payload` under `key` and `nonce` gives.
pub open spec fn sealed_text(key: Seq<u8>, nonce: Seq<u8>, payload: Seq<u8>) -> Seq<char> {
    wire_text(nonce, gcm_seal(key, nonce, payload).0, gcm_seal(key, nonce, payload).1)
}

/// What opening a wire string with the bytes `text` under `key` gives.
pub open spec fn opened(text: Seq<u8>, key: Seq<u8>) -> Result<Seq<u8>, DecodeError> {
    match parse_wire(text) {
        None => Err(DecodeError::MalformedWire),
        Some((iv, data, mac)) => opened_parts(iv, data, mac, key),
    }
}

/// What opening a nonce, a ciphertext and a tag under `key` gives.
pub open spec fn opened_parts(iv: Seq<u8>, data: Seq<u8>, mac: Seq<u8>, key: Seq<u8>) -> Result<
    Seq<u8>,
    DecodeError,
> {
    if iv.len() != 12 {
        Err(DecodeError::MalformedWire)
    } else {
        match gcm_open(key, iv, data, mac) {
            Some(payload) => Ok(payload),
            None => Err(DecodeError::AuthenticationFailed),
        }
    }
}

/// Whether an outcome and its model agree.
pub open spec fn same_outcome(out: Result<Vec<u8>, DecodeError>, model: Result<Seq<u8>, DecodeError>) -> bool {
    match (out, model) {
        (Ok(v), Ok(s)) => v@ == s,
        (Err(e), Err(f)) => e == f,
        _ => false,
    }
}

/// Calls `AesGcm::new` with a 128-bit key and no associated data, then
/// `encrypt` on it. Believed of it: the two buffers it fills depend on key,
/// nonce and payload alone; the ciphertext is as long as the payload and the
/// tag has sixteen bytes.
#[verifier::external_body]
fn aes_gcm_seal(key: &[u8], nonce: &[u8], payload: &[u8]) -> (out: (Vec<u8>, Vec<u8>))
    requires
        key@.len() == 16,
        nonce@.len() == 12,
    ensures
        (out.0@, out.1@) == gcm_seal(key@, nonce@, payload@),
        out.0@.len() == payload@.len(),
        out.1@.len() == 16,
{
    let mut cipher = AesGcm::new(KeySize::KeySize128, key, nonce, &[]);
    let mut sealed: Vec<u8> = vec![0u8; payload.len()];
    let mut tag: Vec<u8> = vec![0u8; 16];
    cipher.encrypt(payload, &mut sealed, &mut tag);
    (sealed, tag)
}

/// Calls `AesGcm::new` with a 128-bit key and no associated data, then
/// `decrypt` on it, and hands back its answer beside the buffer it was given.
/// Believed of it: whether it accepts depends on key, nonce, ciphertext and
/// tag alone, and so does the payload where it accepts; it accepts the tag
/// that sealing gave for this ciphertext, and then gives back the payload
/// that was sealed; it accepts no other tag for that ciphertext.
#[verifier::external_body]
fn aes_gcm_open(key: &[u8], nonce: &[u8], sealed: &[u8], tag: &[u8]) -> (out: (bool, Vec<u8>))
    requires
        key@.len() == 16,
        nonce@.len() == 12,
    ensures
        out.0 == gcm_open(key@, nonce@, sealed@, tag@).is_some(),
        out.0 ==> gcm_open(key@, nonce@, sealed@, tag@) == Some(out.1@),
        forall|payload: Seq<u8>|
            (#[trigger] gcm_seal(key@, nonce@, payload)) == (sealed@, tag@) ==> out.0 && out.1@
                == payload,
        forall|payload: Seq<u8>|
            (#[trigger] gcm_seal(key@, nonce@, payload)).0 == sealed@ && gcm_seal(
                key@,
                nonce@,
                payload,
            ).1 != tag@ ==> !out.0,
{
    let mut cipher = AesGcm::new(KeySize::KeySize128, key, nonce, &[]);
    let mut payload: Vec<u8> = vec![0u8; sealed.len()];
    let accepted = cipher.decrypt(sealed, &mut payload, tag);
    (accepted, payload)
}

/// Calls `rand::random` for one byte. Nothing is known of the byte.
#[verifier::external_body]
fn random_byte() -> u8 {
    rand::random()
}

/// Where the first separator stands, given that none stands before `at`.
pub proof fn lemma_first_slash(text: Seq<u8>, at: int)
    requires
        0 <= at <= text.len(),
        forall|j: int| 0 <= j < at ==> text[j] != 0x2f,
        at == text.len() || text[at] == 0x2f,
    ensures
        first_slash(text) == at,
    decreases at,
{
    if at > 0 {
        let tail = text.drop_first();
        assert forall|j: int| 0 <= j < at - 1 implies tail[j] != 0x2f by {
            assert(tail[j] == text[j + 1]);
        }
        lemma_first_slash(tail, at - 1);
    }
}

/// Three parts without a separator in them, joined by separators, split
/// into those parts.
pub proof fn lemma_split_joined(a: Seq<u8>, b: Seq<u8>, c: Seq<u8>)
    requires
        forall|j: int| 0 <= j < a.len() ==> a[j] != 0x2f,
        forall|j: int| 0 <= j < b.len() ==> b[j] != 0x2f,
        forall|j: int| 0 <= j < c.len() ==> c[j] != 0x2f,
    ensures
        split_wire(a + seq![0x2fu8] + b + seq![0x2fu8] + c) == Some((a, b, c)),
{
    let text = a + seq![0x2fu8] + b + seq![0x2fu8] + c;
    let i = a.len() as int;
    assert forall|j: int| 0 <= j < i implies text[j] != 0x2f by {
        assert(text[j] == a[j]);
    }
    assert(text[i] == 0x2f);
    lemma_first_slash(text, i);
    let rest = text.subrange(i + 1, text.len() as int);
    assert(rest =~= b + seq![0x2fu8] + c);
    let j = b.len() as int;
    assert forall|k: int| 0 <= k < j implies rest[k] != 0x2f by {
        assert(rest[k] == b[k]);
    }
    assert(rest[j] == 0x2f);
    lemma_first_slash(rest, j);
    let last = rest.subrange(j + 1, rest.len() as int);
    assert(last =~= c);
    lemma_first_slash(last, last.len() as int);
    assert(text.subrange(0, i) =~= a);
    assert(rest.subrange(0, j) =~= b);
}

/// The bytes of a wire string split into the three hexadecimal texts it was
/// joined from, and those read back as the three parts.
pub proof fn lemma_parse_wire_bytes(iv: Seq<u8>, data: Seq<u8>, mac: Seq<u8>)
    ensures
        split_wire(wire_bytes(iv, data, mac)) == Some((hex_text(iv), hex_text(data), hex_text(mac))),
        parse_wire(wire_bytes(iv, data, mac)) == Some((iv, data, mac)),
{
    lemma_hex_text_digits(iv);
    lemma_hex_text_digits(data);
    lemma_hex_text_digits(mac);
    lemma_hex_round_trip(iv);
    lemma_hex_round_trip(data);
    lemma_hex_round_trip(mac);
    lemma_split_joined(hex_text(iv), hex_text(data), hex_text(mac));
}

/// A wire string in whose tag one digit was replaced by a digit of another
/// value still reads as nonce, ciphertext and a tag, but as another tag.
pub proof fn lemma_tampered_tag(iv: Seq<u8>, data: Seq<u8>, mac: Seq<u8>, at: int, digit: u8)
    requires
        0 <= at < hex_text(mac).len(),
        digit_value(digit).is_some(),
        digit_value(digit) != digit_value(hex_text(mac)[at]),
    ensures
        ({
            let place = hex_text(iv).len() + hex_text(data).len() + 2 + at;
            match parse_wire(wire_bytes(iv, data, mac).update(place, digit)) {
                Some(parts) => parts.0 == iv && parts.1 == data && parts.2 != mac,
                None => false,
            }
        }),
{
    let a = hex_text(iv);
    let b = hex_text(data);
    let c = hex_text(mac).update(at, digit);
    let place = a.len() + b.len() + 2 + at;
    lemma_hex_text_digits(iv);
    lemma_hex_text_digits(data);
    lemma_hex_text_digits(mac);
    lemma_hex_round_trip(iv);
    lemma_hex_round_trip(data);
    lemma_flipped_digit(mac, at, digit);
    assert(wire_bytes(iv, data, mac).update(place, digit) =~= a + seq![0x2fu8] + b + seq![0x2fu8] + c);
    assert forall|j: int| 0 <= j < c.len() implies c[j] != 0x2f by {
        if j != at {
            assert(c[j] == hex_text(mac)[j]);
        }
    }
    lemma_split_joined(a, b, c);
}

/// A wire string is ASCII, and its bytes are those of `wire_bytes`.
pub proof fn lemma_wire_text_bytes(iv: Seq<u8>, data: Seq<u8>, mac: Seq<u8>)
    ensures
        encode_utf8(wire_text(iv, data, mac)) == wire_bytes(iv, data, mac),
{
    let chars = wire_text(iv, data, mac);
    let bytes = wire_bytes(iv, data, mac);
    lemma_hex_text_digits(iv);
    lemma_hex_text_digits(data);
    lemma_hex_text_digits(mac);
    let n1 = hex_text(iv).len() as int;
    let n2 = hex_text(data).len() as int;
    assert(chars.len() == bytes.len());
    assert forall|i: int| 0 <= i < chars.len() implies chars[i] == (#[trigger] bytes[i]) as char
        && bytes[i] < 0x80 by {
        if i < n1 {
            assert(chars[i] == hex_chars(iv)[i]);
            assert(bytes[i] == hex_text(iv)[i]);
        } else if i == n1 {
            assert(chars[i] == '/');
            assert(bytes[i] == 0x2f);
        } else if i < n1 + 1 + n2 {
            assert(chars[i] == hex_chars(data)[i - n1 - 1]);
            assert(bytes[i] == hex_text(data)[i - n1 - 1]);
        } else if i == n1 + 1 + n2 {
            assert(chars[i] == '/');
            assert(bytes[i] == 0x2f);
        } else {
            assert(chars[i] == hex_chars(mac)[i - n1 - n2 - 2]);
            assert(bytes[i] == hex_text(mac)[i - n1 - n2 - 2]);
        }
    }
    assert forall|i: int| 0 <= i < chars.len() implies '\0' <= #[trigger] chars[i] <= '\u{7f}' by {
        assert(chars[i] == bytes[i] as char);
    }
    is_ascii_chars_encode_utf8(chars);
    assert forall|i: int| 0 <= i < chars.len() implies encode_utf8(chars)[i] == bytes[i] by {
        assert(chars[i] == bytes[i] as char);
        assert((bytes[i] as char) as u8 == bytes[i]);
    }
    assert(encode_utf8(chars) =~= bytes);
}

/// The bytes of a wire string read back as the parts it was joined from.
pub proof fn lemma_wire_round_trip(iv: Seq<u8>, data: Seq<u8>, mac: Seq<u8>)
    ensures
        parse_wire(encode_utf8(wire_text(iv, data, mac))) == Some((iv, data, mac)),
{
    lemma_wire_text_bytes(iv, data, mac);
    lemma_parse_wire_bytes(iv, data, mac);
}

/// A key has sixteen bytes: the first sixteen of a secret that has as many,
/// else the secret followed by zero bytes.
pub proof fn lemma_sized_key(secret: Seq<u8>)
    ensures
        sized_key(secret).len() == 16,
        secret.len() >= 16 ==> sized_key(secret) == secret.subrange(0, 16),
        secret.len() < 16 ==> sized_key(secret) == secret + Seq::new(
            (16 - secret.len()) as nat,
            |i: int| 0u8,
        ),
{
    if secret.len() >= 16 {
        assert(sized_key(secret) =~= secret.subrange(0, 16));
    } else {
        assert(sized_key(secret) =~= secret + Seq::new((16 - secret.len()) as nat, |i: int| 0u8));
    }
}

/// Sizes a secret to a cipher key.
pub fn get_valid_key(key: &str) -> (out: Vec<u8>)
    ensures
        out@ == sized_key(key.spec_bytes()),
        out@.len() == 16,
{
    let bytes = key.as_bytes();
    let mut out: Vec<u8> = Vec::new();
    let mut i: usize = 0;
    while i < KEY_LEN
        invariant
            i <= 16,
            bytes@ == key.spec_bytes(),
            out@.len() == i,
            forall|j: int| 0 <= j < i ==> out@[j] == sized_key(key.spec_bytes())[j],
        decreases 16 - i,
    {
        if i < bytes.len() {
            out.push(bytes[i]);
        } else {
            out.push(0u8);
        }
        i += 1;
    }
    assert(out@ =~= sized_key(key.spec_bytes()));
    out
}

/// Finds the first separator at or after `start`.
fn find_separator(text: &[u8], start: usize) -> (at: usize)
    requires
        start <= text@.len(),
    ensures
        start <= at <= text@.len(),
        at - start == first_slash(text@.subrange(start as int, text@.len() as int)),
{
    let mut at: usize = start;
    while at < text.len() && text[at] != SEPARATOR
        invariant
            start <= at <= text@.len(),
            forall|j: int| start <= j < at ==> text@[j] != 0x2f,
        decreases text@.len() - at,
    {
        at += 1;
    }
    proof {
        let tail = text@.subrange(start as int, text@.len() as int);
        assert forall|j: int| 0 <= j < at - start implies tail[j] != 0x2f by {
            assert(tail[j] == text@[start + j]);
        }
        lemma_first_slash(tail, at - start);
    }
    at
}

/// Splits a wire string into nonce, ciphertext and tag.
pub fn split_iv_data_mac(orig: &str) -> (out: Result<(Vec<u8>, Vec<u8>, Vec<u8>), DecodeError>)
    ensures
        match parse_wire(orig.spec_bytes()) {
            Some((iv, data, mac)) => out matches Ok(parts) && parts.0@ == iv && parts.1@ == data
                && parts.2@ == mac,
            None => out == Err::<(Vec<u8>, Vec<u8>, Vec<u8>), DecodeError>(DecodeError::MalformedWire),
        },
{
    let text = orig.as_bytes();
    let len = text.len();
    let i = find_separator(text, 0);
    assert(text@.subrange(0, len as int) =~= text@);
    if i >= len {
        return Err(DecodeError::MalformedWire);
    }
    let j = find_separator(text, i + 1);
    if j >= len {
        return Err(DecodeError::MalformedWire);
    }
    let k = find_separator(text, j + 1);
    proof {
        let rest = text@.subrange(i + 1, len as int);
        assert(rest.subrange(j - i, rest.len() as int) =~= text@.subrange(j + 1, len as int));
        assert(rest.subrange(0, j - i - 1) =~= text@.subrange(i + 1, j as int));
    }
    if k < len {
        return Err(DecodeError::MalformedWire);
    }
    let iv = hex_decode(slice_subrange(text, 0, i));
    let data = hex_decode(slice_subrange(text, i + 1, j));
    let mac = hex_decode(slice_subrange(text, j + 1, len));
    match (iv, data, mac) {
        (Some(iv), Some(data), Some(mac)) => Ok((iv, data, mac)),
        _ => Err(DecodeError::MalformedWire),
    }
}

/// Opens a nonce, a ciphertext and a tag under the key of a secret.
pub fn open_parts(iv: &[u8], data: &[u8], mac: &[u8], key: &str) -> (out: Result<Vec<u8>, DecodeError>)
    ensures
        same_outcome(out, opened_parts(iv@, data@, mac@, sized_key(key.spec_bytes()))),
        forall|payload: Seq<u8>|
            iv@.len() == 12 && #[trigger] gcm_seal(sized_key(key.spec_bytes()), iv@, payload) == (
                data@,
                mac@,
            ) ==> same_outcome(out, Ok(payload)),
        forall|payload: Seq<u8>|
            iv@.len() == 12 && (#[trigger] gcm_seal(sized_key(key.spec_bytes()), iv@, payload)).0
                == data@ && gcm_seal(sized_key(key.spec_bytes()), iv@, payload).1 != mac@
                ==> same_outcome(out, Err(DecodeError::AuthenticationFailed)),
{
    if iv.len() != NONCE_LEN {
        return Err(DecodeError::MalformedWire);
    }
    let valid_key = get_valid_key(key);
    let (accepted, payload) = aes_gcm_open(valid_key.as_slice(), iv, data, mac);
    if accepted {
        Ok(payload)
    } else {
        Err(DecodeError::AuthenticationFailed)
    }
}

/// Opens a wire string under a secret: the payload where the string is well
/// formed and its tag is accepted, `MalformedWire` where it is not three
/// hexadecimal parts behind a twelve-byte nonce, `AuthenticationFailed`
/// where the tag is refused.
///
/// Whatever nonce a payload was sealed with under the same secret, its wire
/// string opens to that payload. A wire string that reads as the nonce and
/// the ciphertext of a sealed payload, but as another tag than its own, fails
/// authentication.
pub fn decrypt(iv_data_mac: &str, key: &str) -> (out: Result<Vec<u8>, DecodeError>)
    ensures
        same_outcome(out, opened(iv_data_mac.spec_bytes(), sized_key(key.spec_bytes()))),
        forall|nonce: Seq<u8>, payload: Seq<u8>|
            nonce.len() == 12 && iv_data_mac@ == #[trigger] sealed_text(
                sized_key(key.spec_bytes()),
                nonce,
                payload,
            ) ==> same_outcome(out, Ok(payload)),
        forall|nonce: Seq<u8>, payload: Seq<u8>, tag: Seq<u8>|
            nonce.len() == 12 && tag != gcm_seal(sized_key(key.spec_bytes()), nonce, payload).1
                && #[trigger] reads_as(
                iv_data_mac.spec_bytes(),
                nonce,
                gcm_seal(sized_key(key.spec_bytes()), nonce, payload).0,
                tag,
            ) ==> same_outcome(out, Err(DecodeError::AuthenticationFailed)),
{
    let ghost secret = sized_key(key.spec_bytes());
    let out = match split_iv_data_mac(iv_data_mac) {
        Err(e) => Err(e),
        Ok((iv, data, mac)) => open_parts(iv.as_slice(), data.as_slice(), mac.as_slice(), key),
    };
    proof {
        assert forall|nonce: Seq<u8>, payload: Seq<u8>|
            nonce.len() == 12 && iv_data_mac@ == #[trigger] sealed_text(
                secret,
                nonce,
                payload,
            ) implies same_outcome(out, Ok(payload)) by {
            let sealed = gcm_seal(secret, nonce, payload);
            lemma_wire_round_trip(nonce, sealed.0, sealed.1);
        }
        assert forall|nonce: Seq<u8>, payload: Seq<u8>, tag: Seq<u8>|
            nonce.len() == 12 && tag != gcm_seal(secret, nonce, payload).1 && #[trigger] reads_as(
                iv_data_mac.spec_bytes(),
                nonce,
                gcm_seal(secret, nonce, payload).0,
                tag,
            ) implies same_outcome(out, Err(DecodeError::AuthenticationFailed)) by {
            let sealed = gcm_seal(secret, nonce, payload);
            assert(sealed.0 == gcm_seal(secret, nonce, payload).0);
        }
    }
    out
}

/// Draws `size` random bytes.
pub fn get_iv(size: usize) -> (iv: Vec<u8>)
    ensures
        iv@.len() == size,
{
    let mut iv: Vec<u8> = Vec::new();
    let mut j: usize = 0;
    while j < size
        invariant
            j <= size,
            iv@.len() == j,
        decreases size - j,
    {
        iv.push(random_byte());
        j += 1;
    }
    iv
}

/// Joins a nonce, a ciphertext and a tag into a wire string.
pub fn wire_from_parts(iv: &[u8], data: &[u8], mac: &[u8]) -> (out: String)
    ensures
        out@ == wire_text(iv@, data@, mac@),
{
    let mut out = hex_encode(iv);
    let hex_cipher = hex_encode(data);
    let hex_mac = hex_encode(mac);
    proof {
        reveal_strlit("/");
        assert("/"@ =~= seq!['/']);
    }
    out.append("/");
    out.append(hex_cipher.as_str());
    out.append("/");
    out.append(hex_mac.as_str());
    out
}

/// Seals a payload under a secret with the nonce given.
pub fn encrypt_with_nonce(data: &[u8], password: &str, nonce: &[u8]) -> (out: String)
    requires
        nonce@.len() == 12,
    ensures
        out@ == sealed_text(sized_key(password.spec_bytes()), nonce@, data@),
{
    let valid_key = get_valid_key(password);
    let (sealed, tag) = aes_gcm_seal(valid_key.as_slice(), nonce, data);
    wire_from_parts(nonce, sealed.as_slice(), tag.as_slice())
}

/// Seals a payload under a secret with a fresh random nonce of twelve bytes.
pub fn encrypt(data: &[u8], password: &str) -> (out: String)
    ensures
        exists|nonce: Seq<u8>|
            nonce.len() == 12 && out@ == #[trigger] sealed_text(
                sized_key(password.spec_bytes()),
                nonce,
                data@,
            ),
{
    let iv = get_iv(NONCE_LEN);
    encrypt_with_nonce(data, password, iv.as_slice())
}

} // verus!
