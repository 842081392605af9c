//! The calls this library makes into base64, serde_json, dotenvy, age,
//! bech32 and x25519-dalek,
//! and into `String::from_utf8`. Each function here is trusted: Verus
//! believes its contract and does not read its body. The contracts name what
//! a call returns where the crate computes it from its arguments alone, and
//! state no more than the crates' documentation and source show.

use std::io::{Read, Write};
use std::str::FromStr;

use age::secrecy::ExposeSecret;
use base64::Engine;
use bech32::FromBase32;
use vstd::prelude::*;
use vstd::utf8::{decode_utf8, valid_utf8};

use crate::render::dotenv_text;
use crate::text::{is_ascii_alnum, is_white_space};
use crate::validate::is_env_key;

verus! {

// ---------------------------------------------------------------- base64

/// A character of the URL-safe base64 alphabet.
pub open spec fn is_url_safe_char(c: char) -> bool {
    is_ascii_alnum(c) || c == '-' || c == '_'
}

/// The unpadded URL-safe base64 text of some bytes.
pub uninterp spec fn base64_url_text(bytes: Seq<u8>) -> Seq<char>;

/// The bytes that unpadded URL-safe base64 text stands for, if it is such text.
pub uninterp spec fn base64_url_bytes(text: Seq<u8>) -> Option<Seq<u8>>;

/// `URL_SAFE_NO_PAD.encode`: the text is named by `base64_url_text`, and
/// every character of it belongs to the URL-safe alphabet (`A-Z`, `a-z`,
/// `0-9`, `-`, `_`; no padding), as the engine's documentation says. No
/// other bytes encode to the same text: the engine decodes what it encoded
/// back to the bytes it came from.
#[verifier::external_body]
pub(crate) fn encode_url_safe(bytes: &[u8]) -> (r: String)
    ensures
        r@ == base64_url_text(bytes@),
        forall|i: int| 0 <= i < r@.len() ==> is_url_safe_char(#[trigger] r@[i]),
        forall|other: Seq<u8>| #[trigger] base64_url_text(other) == r@ ==> other == bytes@,
{
    base64::engine::general_purpose::URL_SAFE_NO_PAD.encode(bytes)
}

/// `URL_SAFE_NO_PAD.decode`: `None` where the crate reports an error;
/// which texts those are is left to the name `base64_url_bytes`.
#[verifier::external_body]
pub(crate) fn decode_url_safe(text: &[u8]) -> (r: Option<Vec<u8>>)
    ensures
        match r {
            Some(v) => base64_url_bytes(text@) == Some(v@),
            None => base64_url_bytes(text@) is None,
        },
{
    base64::engine::general_purpose::URL_SAFE_NO_PAD.decode(text).ok()
}

// ---------------------------------------------------------------- serde_json

/// What a JSON document holds at one place: `NotJson` when the text does
/// not parse, `NotObject` when the scope looked in is not an object,
/// `NotText` when the field is missing or not a string.
pub enum JsonText {
    NotJson,
    NotObject,
    NotText,
    Text(String),
}

/// `JsonText` with its string taken by its characters.
pub enum JsonTextView {
    NotJson,
    NotObject,
    NotText,
    Text(Seq<char>),
}

impl View for JsonText {
    type V = JsonTextView;

    open spec fn view(&self) -> JsonTextView {
        match self {
            JsonText::NotJson => JsonTextView::NotJson,
            JsonText::NotObject => JsonTextView::NotObject,
            JsonText::NotText => JsonTextView::NotText,
            JsonText::Text(s) => JsonTextView::Text(s@),
        }
    }
}

pub open spec fn opt_text(o: Option<&str>) -> Option<Seq<char>> {
    match o {
        Some(s) => Some(s@),
        None => None,
    }
}

/// What `serde_json` finds in `raw` at field `inner` of the object under
/// top-level field `outer` (of the top-level object where `outer` is absent).
pub uninterp spec fn json_text_of(raw: Seq<char>, outer: Option<Seq<char>>, inner: Seq<char>) -> JsonTextView;

/// `serde_json::from_str::<Value>`, then `get` and `as_object` / `as_str`:
/// the outcome is named by `json_text_of`; nothing more is stated of it.
#[verifier::external_body]
pub(crate) fn json_text_at(raw: &str, outer: Option<&str>, inner: &str) -> (r: JsonText)
    ensures
        r@ == json_text_of(raw@, opt_text(outer), inner@),
{
    let value: serde_json::Value = match serde_json::from_str(raw) {
        Ok(v) => v,
        Err(_) => return JsonText::NotJson,
    };
    let scope = match outer {
        Some(key) => value.get(key),
        None => Some(&value),
    };
    match scope.and_then(serde_json::Value::as_object) {
        None => JsonText::NotObject,
        Some(object) => match object.get(inner).and_then(serde_json::Value::as_str) {
            Some(text) => JsonText::Text(text.to_string()),
            None => JsonText::NotText,
        },
    }
}

/// What `serde_json` finds as an unsigned integer at a top-level field of
/// `bytes`: `None` when the bytes are no JSON, `Some(None)` when the field is
/// missing or not such a number.
pub uninterp spec fn json_u64_of(bytes: Seq<u8>, key: Seq<char>) -> Option<Option<u64>>;

/// `serde_json::from_slice::<Value>`, then `get` and `as_u64`; the outcome is
/// named by `json_u64_of`.
#[verifier::external_body]
pub(crate) fn json_u64_at(bytes: &[u8], key: &str) -> (r: Option<Option<u64>>)
    ensures
        r == json_u64_of(bytes@, key@),
{
    match serde_json::from_slice::<serde_json::Value>(bytes) {
        Ok(value) => Some(value.get(key).and_then(serde_json::Value::as_u64)),
        Err(_) => None,
    }
}

pub open spec fn text_pairs(v: Seq<(String, String)>) -> Seq<(Seq<char>, Seq<char>)> {
    v.map_values(|e: (String, String)| (e.0@, e.1@))
}

/// The compact JSON text of an object whose fields are strings.
pub uninterp spec fn json_object_text_of(fields: Seq<(Seq<char>, Seq<char>)>) -> Seq<char>;

/// Builds a `serde_json::Map` of string values and writes `Value::Object` of
/// it with `to_string`; the text is named by `json_object_text_of`.
#[verifier::external_body]
pub(crate) fn json_object_text(fields: &Vec<(String, String)>) -> (r: String)
    ensures
        r@ == json_object_text_of(text_pairs(fields@)),
{
    let object: serde_json::Map<String, serde_json::Value> = fields
        .iter()
        .map(|(k, v)| (k.clone(), serde_json::Value::String(v.clone())))
        .collect();
    serde_json::Value::Object(object).to_string()
}

/// A value of a top-level field of a small JSON document.
pub enum JsonLeaf {
    Null,
    Text(String),
    Fields(Vec<(String, String)>),
}

pub enum JsonLeafView {
    Null,
    Text(Seq<char>),
    Fields(Seq<(Seq<char>, Seq<char>)>),
}

impl View for JsonLeaf {
    type V = JsonLeafView;

    open spec fn view(&self) -> JsonLeafView {
        match self {
            JsonLeaf::Null => JsonLeafView::Null,
            JsonLeaf::Text(s) => JsonLeafView::Text(s@),
            JsonLeaf::Fields(f) => JsonLeafView::Fields(text_pairs(f@)),
        }
    }
}

pub open spec fn leaf_views(v: Seq<(String, JsonLeaf)>) -> Seq<(Seq<char>, JsonLeafView)> {
    v.map_values(|e: (String, JsonLeaf)| (e.0@, e.1@))
}

/// The pretty-printed JSON text of a document.
pub uninterp spec fn json_pretty_of(doc: Seq<(Seq<char>, JsonLeafView)>) -> Seq<char>;

/// Builds the document as a `serde_json::Value` and writes it with
/// `serde_json::to_string_pretty`. That fails only for a `Serialize` impl
/// that fails or a map with keys that are not strings, and a `Value` has
/// neither, so text always comes out.
#[verifier::external_body]
pub(crate) fn json_pretty(doc: &Vec<(String, JsonLeaf)>) -> (r: Option<String>)
    ensures
        r is Some,
        r matches Some(s) ==> s@ == json_pretty_of(leaf_views(doc@)),
{
    let object: serde_json::Map<String, serde_json::Value> = doc
        .iter()
        .map(|(k, leaf)| (k.clone(), match leaf {
            JsonLeaf::Null => serde_json::Value::Null,
            JsonLeaf::Text(t) => serde_json::Value::String(t.clone()),
            JsonLeaf::Fields(f) => serde_json::Value::Object(
                f.iter().map(|(a, b)| (a.clone(), serde_json::Value::String(b.clone()))).collect(),
            ),
        }))
        .collect();
    serde_json::to_string_pretty(&serde_json::Value::Object(object)).ok()
}

// ---------------------------------------------------------------- dotenvy

/// The entries `dotenvy` reads from dotenv text that holds no `$`: each a
/// name and value, or `None` for an entry it reports as an error.
pub uninterp spec fn dotenv_entries_of(raw: Seq<char>) -> Seq<Option<(Seq<char>, Seq<char>)>>;

/// Pairs whose dotenv text reads back as themselves: every name a valid
/// variable name, and no value holding `$`.
pub open spec fn dotenv_safe(pairs: Seq<(Seq<char>, Seq<char>)>) -> bool {
    forall|i: int|
        0 <= i < pairs.len() ==> is_env_key(#[trigger] pairs[i].0) && !pairs[i].1.contains('$')
}

/// Each pair as an entry that was read.
pub open spec fn read_entries(pairs: Seq<(Seq<char>, Seq<char>)>) -> Seq<Option<(Seq<char>, Seq<char>)>> {
    pairs.map_values(|p: (Seq<char>, Seq<char>)| Some(p))
}

/// Reads dotenv text with `dotenvy::from_read_iter`, one entry per item in
/// the order the iterator yields them, `None` for an item it reports as an
/// error. The crate consults the process environment only for `$`
/// references (an unset empty name adds nothing), so for text without `$`
/// the entries are a function of the text, named by `dotenv_entries_of`;
/// what it substitutes for `$NAME` is not stated. Empty text yields no
/// entries: the first line read is already the end.
///
/// Text in the form `dotenv_text` writes reads back as its pairs when they
/// are `dotenv_safe`: each line starts with a name the key parser takes
/// whole, then `=`; a bare value holds only characters the value parser
/// keeps as they are, an empty one included; a quoted value escapes only
/// `\` and `"`, which the parser unescapes inside double quotes, and the
/// line reader keeps a double-quoted value whole across the newlines it
/// holds, dropping only the newline after the closing quote.
#[verifier::external_body]
pub(crate) fn dotenv_items(raw: &str) -> (r: Vec<Option<(String, String)>>)
    ensures
        !raw@.contains('$') ==> crate::cache::item_views(r@) == dotenv_entries_of(raw@),
        raw@.len() == 0 ==> r@.len() == 0,
        forall|pairs: Seq<(Seq<char>, Seq<char>)>|
            #![trigger dotenv_text(pairs)]
            raw@ == dotenv_text(pairs) && dotenv_safe(pairs) ==> crate::cache::item_views(r@)
                == read_entries(pairs),
{
    dotenvy::from_read_iter(raw.as_bytes()).map(|item| item.ok()).collect()
}

// ---------------------------------------------------------------- UTF-8

/// `String::from_utf8`: text exactly when the bytes are UTF-8, and then the
/// characters they encode.
#[verifier::external_body]
pub(crate) fn utf8_text(bytes: Vec<u8>) -> (r: Option<String>)
    ensures
        match r {
            Some(s) => valid_utf8(bytes@) && s@ == decode_utf8(bytes@),
            None => !valid_utf8(bytes@),
        },
{
    String::from_utf8(bytes).ok()
}

// ---------------------------------------------------------------- age

/// Whether a line reads as an age X25519 identity.
pub uninterp spec fn age_identity_parses(line: Seq<char>) -> bool;

/// The recipient text of the identity a line holds.
pub uninterp spec fn age_recipient_of(line: Seq<char>) -> Seq<char>;

/// Whether text reads as an age X25519 recipient.
pub uninterp spec fn age_recipient_parses(text: Seq<char>) -> bool;

/// The plaintext that the identity on a line reads from an age file.
pub uninterp spec fn age_decrypted(line: Seq<char>, ciphertext: Seq<u8>) -> Option<Seq<u8>>;

/// An age file that every identity of the recipient reads back as `plaintext`.
pub open spec fn sealed_for(recipient: Seq<char>, plaintext: Seq<u8>, ciphertext: Seq<u8>) -> bool {
    forall|line: Seq<char>|
        age_identity_parses(line) && age_recipient_of(line) == recipient ==> #[trigger] age_decrypted(
            line,
            ciphertext,
        ) == Some(plaintext)
}

/// `x25519::Identity::from_str`, then `to_public().to_string()`: text
/// exactly when the line parses, and then the identity's recipient, which
/// reads back as a recipient (`Recipient`'s `Display` and `FromStr` are
/// inverse in the crate).
#[verifier::external_body]
pub(crate) fn age_recipient_from_line(line: &str) -> (r: Option<String>)
    ensures
        r is Some <==> age_identity_parses(line@),
        r matches Some(s) ==> s@ == age_recipient_of(line@) && age_recipient_parses(s@),
{
    age::x25519::Identity::from_str(line).ok().map(|identity| identity.to_public().to_string())
}

/// `Decryptor::new`, `decrypt` with the identity on `line`, `read_to_end`:
/// the plaintext is named by `age_decrypted`, `None` where any step fails.
#[verifier::external_body]
pub(crate) fn age_decrypt(line: &str, ciphertext: &[u8]) -> (r: Option<Vec<u8>>)
    ensures
        match r {
            Some(p) => age_decrypted(line@, ciphertext@) == Some(p@),
            None => age_decrypted(line@, ciphertext@) is None,
        },
{
    let identity = age::x25519::Identity::from_str(line).ok()?;
    let decryptor = age::Decryptor::new(ciphertext).ok()?;
    let mut reader = decryptor.decrypt(std::iter::once(&identity as &dyn age::Identity)).ok()?;
    let mut plaintext = Vec::new();
    reader.read_to_end(&mut plaintext).ok()?;
    Some(plaintext)
}

/// The bytes a Bech32 string carries: `bech32::decode`, then
/// `Vec::<u8>::from_base32`, for the original Bech32 checksum variant, the
/// one age reads keys in; `None` where decoding fails. The prefix is not
/// looked at.
pub uninterp spec fn bech32_payload_of(text: Seq<char>) -> Option<Seq<u8>>;

/// `bech32::decode` and `FromBase32::from_base32` on the data it yields; a
/// string in the Bech32m variant gives `None`, as age's own parser does.
#[verifier::external_body]
pub(crate) fn bech32_payload(text: &str) -> (r: Option<Vec<u8>>)
    ensures
        match r {
            Some(b) => bech32_payload_of(text@) == Some(b@),
            None => bech32_payload_of(text@) is None,
        },
{
    let (_, data, variant) = bech32::decode(text).ok()?;
    match variant {
        bech32::Variant::Bech32 => Vec::<u8>::from_base32(&data).ok(),
        bech32::Variant::Bech32m => None,
    }
}

/// X25519 of a scalar and a point's u-coordinate, each 32 bytes.
pub uninterp spec fn x25519_of(scalar: Seq<u8>, point: Seq<u8>) -> Seq<u8>;

/// `x25519_dalek::x25519`: the scalar, clamped, times the point, as the
/// 32 bytes of a u-coordinate.
#[verifier::external_body]
pub(crate) fn x25519_shared(scalar: &[u8], point: &[u8]) -> (r: Vec<u8>)
    requires
        scalar@.len() == 32,
        point@.len() == 32,
    ensures
        r@ == x25519_of(scalar@, point@),
        r@.len() == 32,
{
    let k = <[u8; 32]>::try_from(scalar).unwrap();
    let u = <[u8; 32]>::try_from(point).unwrap();
    x25519_dalek::x25519(k, u).to_vec()
}

/// The scalar a recipient key is tried with: 32 bytes of 1.
pub open spec fn probe_scalar() -> Seq<u8> {
    Seq::new(32, |i: int| 1u8)
}

pub open spec fn all_zero(bytes: Seq<u8>) -> bool {
    forall|i: int| 0 <= i < bytes.len() ==> bytes[i] == 0
}

/// A recipient text whose key is a point of small order: a clamped scalar
/// is a multiple of the cofactor, so every such scalar, the probe's and an
/// ephemeral one alike, takes the point to the all-zero shared secret,
/// while for any other point no clamped scalar does.
pub open spec fn recipient_low_order(text: Seq<char>) -> bool {
    match bech32_payload_of(text) {
        Some(key) => key.len() == 32 && all_zero(x25519_of(probe_scalar(), key)),
        None => false,
    }
}

/// `x25519::Recipient::from_str`, `Encryptor::with_recipients`,
/// `wrap_output`, `write_all`, `finish`, writing into a `Vec`. The file is
/// random; what holds of every outcome: nothing comes out for text that is
/// no recipient, a file comes out for one that is, and it is an age file
/// that each identity of the recipient decrypts to the plaintext. Wrapping
/// the file key panics when the shared secret is all zero, which is the case
/// for a recipient key of small order: such keys are left out. Beyond the
/// recipient, the only failures are I/O errors, and a `Vec` raises none.
/// The file key, nonce and ephemeral secret come from the operating
/// system's random generator, whose failure panics; that rests on the
/// machine, not on the arguments, and is not excluded here.
#[verifier::external_body]
pub(crate) fn age_encrypt(recipient: &str, plaintext: &[u8]) -> (r: Option<Vec<u8>>)
    requires
        !recipient_low_order(recipient@),
    ensures
        !age_recipient_parses(recipient@) ==> r is None,
        age_recipient_parses(recipient@) ==> r is Some,
        r matches Some(ct) ==> sealed_for(recipient@, plaintext@, ct@),
{
    let recipient = age::x25519::Recipient::from_str(recipient).ok()?;
    let encryptor = age::Encryptor::with_recipients(std::iter::once(&recipient as &dyn age::Recipient)).ok()?;
    let mut encrypted = Vec::new();
    let mut writer = encryptor.wrap_output(&mut encrypted).ok()?;
    writer.write_all(plaintext).ok()?;
    writer.finish().ok()?;
    Some(encrypted)
}

/// `x25519::Identity::generate()` written with `to_string`: a fresh random
/// identity, whose text reads back as an identity; the text is the
/// upper-case Bech32 form `AGE-SECRET-KEY-1...`, without white space.
#[verifier::external_body]
pub(crate) fn age_new_identity() -> (r: String)
    ensures
        age_identity_parses(r@),
        r@.len() > 0 && r@[0] == 'A',
        forall|i: int| 0 <= i < r@.len() ==> !is_white_space(#[trigger] r@[i]),
{
    age::x25519::Identity::generate().to_string().expose_secret().to_string()
}

} // verus!
