//! Everything this library takes on trust: one function for each outside function it calls, with
//! what is claimed of it, and the names its contracts give to what those functions compute.

use crate::header::{sealed_to, works_at};
use crate::text::{ascii_lower, ascii_upper, trim};
use age::secrecy::{ExposeSecret, SecretString};
use std::io::{Read, Write};
use std::str::FromStr;
use vstd::prelude::*;
use vstd::string::*;
use vstd::utf8::{decode_utf8, valid_utf8};
use zeroize::Zeroize;

verus! {

// ---------------------------------------------------------------------------------------------
// What the outside crates compute

/// The recipient text of an age X25519 identity, or why the text is no such identity.
pub uninterp spec fn age_public(identity: Seq<char>) -> Result<Seq<char>, Seq<char>>;

/// Why a text is no age X25519 recipient, or `None` where it is one.
pub uninterp spec fn age_recipient_fault(text: Seq<char>) -> Option<Seq<char>>;

/// What an age file holds for an X25519 identity, where the identity opens it.
pub uninterp spec fn age_open(file: Seq<u8>, identity: Seq<char>) -> Option<Seq<u8>>;

/// What an age file holds for a passphrase, where the passphrase opens it.
pub uninterp spec fn scrypt_open(file: Seq<u8>, passphrase: Seq<char>) -> Option<Seq<u8>>;

/// The SHA-256 digest.
pub uninterp spec fn sha256(bytes: Seq<u8>) -> Seq<u8>;

/// `public` is the recipient text of `identity`.
pub open spec fn is_public_of(public: Seq<char>, identity: Seq<char>) -> bool {
    age_public(identity) == Ok::<Seq<char>, Seq<char>>(public)
}

/// A work factor that age takes: none, or one whose table of `2^(n + 10)` bytes can be addressed.
pub open spec fn work_factor_ok(log_n: Option<u8>) -> bool {
    log_n matches Some(n) ==> 0 < n && n + 12 <= usize::BITS
}

/// A new identity from `age::x25519::Identity::generate`, as the text that `to_string` gives it,
/// and its `to_public` as text. The first is an identity and holds no white space; the second is
/// its recipient, and no point of small order.
#[verifier::external_body]
pub(crate) fn age_generate() -> (r: (String, String))
    ensures
        trim(r.0@) == r.0@,
        is_public_of(r.1@, r.0@) && age_recipient_fault(r.1@) is None && !small_order(r.1@),
{
    let key = age::x25519::Identity::generate();
    (key.to_string().expose_secret().to_string(), key.to_public().to_string())
}

/// `age::x25519::Identity::from_str` and then `to_public`, as text. The outcome depends on the
/// text alone, what comes out is a recipient, and it is no point of small order.
#[verifier::external_body]
pub(crate) fn age_public_of(identity: &str) -> (r: Result<String, String>)
    ensures
        match r {
            Ok(public) => is_public_of(public@, identity@) && age_recipient_fault(public@) is None
                && !small_order(public@),
            Err(why) => age_public(identity@) == Err::<Seq<char>, Seq<char>>(why@),
        },
{
    match age::x25519::Identity::from_str(identity) {
        Ok(key) => Ok(key.to_public().to_string()),
        Err(why) => Err(why.to_string()),
    }
}

/// `age::x25519::Recipient::from_str`, kept to whether the text is a recipient and why not.
#[verifier::external_body]
pub(crate) fn age_recipient_check(text: &str) -> (r: Option<String>)
    ensures
        match r {
            Some(why) => age_recipient_fault(text@) == Some(why@),
            None => age_recipient_fault(text@) is None,
        },
{
    match age::x25519::Recipient::from_str(text) {
        Ok(_) => None,
        Err(why) => Some(why.to_string()),
    }
}

/// `age::Encryptor::with_recipients` and `wrap_output` to X25519 recipients. It succeeds exactly
/// where there is a recipient and each text is one. The file opens for every identity whose public
/// half is among the recipients, and holds the plaintext: each gets a stanza of its own, and an
/// identity takes the first stanza that is its own. There are as many X25519 stanzas as recipients,
/// right after the version line: the one more that age adds has a tag that ends in `-grease`. The
/// keys in the file differ from call to call, and the words of an error follow the locale, so
/// neither is said; nor is what another identity meets.
#[verifier::external_body]
pub(crate) fn age_encrypt(plaintext: &[u8], recipients: &Vec<String>) -> (r: Result<Vec<u8>, String>)
    requires
        forall|i: int| 0 <= i < recipients@.len() ==> !small_order(#[trigger] recipients@[i]@),
    ensures
        r is Ok <==> (recipients@.len() > 0 && forall|i: int|
            0 <= i < recipients@.len() ==> age_recipient_fault(#[trigger] recipients@[i]@) is None),
        r matches Ok(file) ==> forall|i: int, identity: Seq<char>|
            0 <= i < recipients@.len() && #[trigger] is_public_of(recipients@[i]@, identity)
                ==> age_open(file@, identity) == Some(plaintext@),
        r matches Ok(file) ==> sealed_to(file@, recipients@.len()),
{
    let keys = recipients.iter().map(|text| age::x25519::Recipient::from_str(text));
    let keys: Vec<age::x25519::Recipient> = keys.collect::<Result<_, _>>()?;
    let refs = keys.iter().map(|key| key as &dyn age::Recipient);
    let encryptor = age::Encryptor::with_recipients(refs).map_err(|e| e.to_string())?;
    let mut out = Vec::new();
    let mut writer = encryptor.wrap_output(&mut out).map_err(|e| e.to_string())?;
    writer.write_all(plaintext).map_err(|e| e.to_string())?;
    writer.finish().map_err(|e| e.to_string())?;
    Ok(out)
}

/// `age::Decryptor::new_buffered` and `decrypt` with an X25519 identity. The outcome depends on
/// the file and the identity alone; the words of an error follow the locale and are not said.
#[verifier::external_body]
pub(crate) fn age_decrypt(file: &[u8], identity: &str) -> (r: Result<Vec<u8>, String>)
    ensures
        match r {
            Ok(plain) => age_open(file@, identity@) == Some(plain@),
            Err(_) => age_open(file@, identity@) is None,
        },
{
    let key = age::x25519::Identity::from_str(identity)?;
    let decryptor = age::Decryptor::new_buffered(file).map_err(|e| e.to_string())?;
    let keys = std::iter::once(&key as &dyn age::Identity);
    let mut reader = decryptor.decrypt(keys).map_err(|e| e.to_string())?;
    let mut out = Vec::new();
    reader.read_to_end(&mut out).map_err(|e| e.to_string())?;
    Ok(out)
}

/// `age::Encryptor` with an `age::scrypt::Recipient`, which picks its own work factor unless one
/// is given. It succeeds, and the file opens for the passphrase and holds the plaintext. The work
/// factor stands in the stanza, as a decimal number: the one that was given, or the one that was
/// picked in a search that starts at ten and ends below sixty-four. Which one is picked differs from
/// machine to machine, and the salt from call to call.
#[verifier::external_body]
pub(crate) fn age_encrypt_scrypt(plaintext: &[u8], passphrase: &str, log_n: Option<u8>) -> (r: Result<
    Vec<u8>,
    String,
>)
    requires
        work_factor_ok(log_n),
    ensures
        r is Ok,
        r matches Ok(file) ==> scrypt_open(file@, passphrase@) == Some(plaintext@),
        r matches Ok(file) ==> works_at(file@, log_n),
{
    let mut to = age::scrypt::Recipient::new(SecretString::from(passphrase.to_string()));
    log_n.map(|n| to.set_work_factor(n));
    let refs = std::iter::once(&to as &dyn age::Recipient);
    let encryptor = age::Encryptor::with_recipients(refs).map_err(|e| e.to_string())?;
    let mut out = Vec::new();
    let mut writer = encryptor.wrap_output(&mut out).map_err(|e| e.to_string())?;
    writer.write_all(plaintext).map_err(|e| e.to_string())?;
    writer.finish().map_err(|e| e.to_string())?;
    Ok(out)
}

/// `age::Decryptor` with an `age::scrypt::Identity`. What it gives is what the file holds for the
/// passphrase. It may also refuse a file as too much work for this machine, so success is not
/// promised.
#[verifier::external_body]
pub(crate) fn age_decrypt_scrypt(file: &[u8], passphrase: &str) -> (r: Result<Vec<u8>, String>)
    ensures
        r matches Ok(plain) ==> scrypt_open(file@, passphrase@) == Some(plain@),
{
    let key = age::scrypt::Identity::new(SecretString::from(passphrase.to_string()));
    let decryptor = age::Decryptor::new_buffered(file).map_err(|e| e.to_string())?;
    let keys = std::iter::once(&key as &dyn age::Identity);
    let mut reader = decryptor.decrypt(keys).map_err(|e| e.to_string())?;
    let mut out = Vec::new();
    reader.read_to_end(&mut out).map_err(|e| e.to_string())?;
    Ok(out)
}

/// `sha2::Sha256::digest`: 32 bytes that depend on the input alone.
#[verifier::external_body]
pub(crate) fn sha256_digest(bytes: &[u8]) -> (r: Vec<u8>)
    ensures
        r@ == sha256(bytes@),
        r@.len() == 32,
{
    <sha2::Sha256 as sha2::Digest>::digest(bytes).to_vec()
}

/// `hex::encode`: two lower case digits for each byte.
#[verifier::external_body]
pub(crate) fn hex_encode(bytes: &[u8]) -> (r: String)
    ensures
        r@ == hex_text(bytes@),
{
    hex::encode(bytes)
}

/// `hex::decode`: succeeds exactly on an even number of hexadecimal digits of either case, and
/// gives the bytes that they stand for.
#[verifier::external_body]
pub(crate) fn hex_decode(text: &str) -> (r: Option<Vec<u8>>)
    ensures
        match r {
            Some(bytes) => is_hex(text@) && bytes@ == unhex(text@),
            None => !is_hex(text@),
        },
{
    hex::decode(text).ok()
}

/// `rand::random` for sixteen bytes. Nothing is said of which.
#[verifier::external_body]
pub(crate) fn random_bytes() -> (r: [u8; 16]) {
    rand::random()
}

/// `SystemTime::elapsed` since the epoch, in whole seconds; none where the clock stands before it.
/// Nothing is said of the time.
#[verifier::external_body]
pub(crate) fn clock() -> (r: Option<u64>) {
    std::time::UNIX_EPOCH.elapsed().ok().map(|d| d.as_secs())
}

/// `zeroize::Zeroize::zeroize` on a string: it is overwritten, and empty afterwards.
#[verifier::external_body]
pub(crate) fn wipe_text(text: &mut String)
    ensures
        final(text)@ == Seq::<char>::empty(),
{
    text.zeroize()
}

/// `String::from_utf8`: succeeds exactly on valid UTF-8, and gives the characters encoded there.
#[verifier::external_body]
pub(crate) fn text_of(bytes: Vec<u8>) -> (r: Option<String>)
    ensures
        match r {
            Some(text) => valid_utf8(bytes@) && text@ == decode_utf8(bytes@),
            None => !valid_utf8(bytes@),
        },
{
    String::from_utf8(bytes).ok()
}

/// The name of the plugin that an age plugin recipient is for, or why the text is no such recipient.
pub uninterp spec fn age_plugin(text: Seq<char>) -> Result<Seq<char>, Seq<char>>;

/// `age::plugin::Recipient::from_str` and then `plugin`. The outcome depends on the text alone.
#[verifier::external_body]
pub(crate) fn age_plugin_of(text: &str) -> (r: Result<String, String>)
    ensures
        match r {
            Ok(name) => age_plugin(text@) == Ok::<Seq<char>, Seq<char>>(name@),
            Err(why) => age_plugin(text@) == Err::<Seq<char>, Seq<char>>(why@),
        },
{
    match age::plugin::Recipient::from_str(text) {
        Ok(parsed) => Ok(parsed.plugin().to_string()),
        Err(why) => Err(why.to_string()),
    }
}

/// There is nothing but ASCII in the text.
pub open spec fn is_ascii_text(text: Seq<char>) -> bool {
    forall|i: int| 0 <= i < text.len() ==> (#[trigger] text[i] as u32) < 128
}

/// A text in lower case. Of ASCII text only `A` to `Z` change; the rest of Unicode is left to
/// `lowercase`.
pub open spec fn lower(text: Seq<char>) -> Seq<char> {
    if is_ascii_text(text) {
        ascii_lower(text)
    } else {
        lowercase(text)
    }
}

/// A text in lower case, as Unicode has it.
pub uninterp spec fn lowercase(text: Seq<char>) -> Seq<char>;

/// `str::to_lowercase`, which depends on the text alone. Of ASCII text only `A` to `Z` change.
#[verifier::external_body]
fn to_lowercase(text: &str) -> (r: String)
    ensures
        r@ == lowercase(text@),
        is_ascii_text(text@) ==> r@ == ascii_lower(text@),
{
    text.to_lowercase()
}

/// A text in lower case.
pub(crate) fn to_lower(text: &str) -> (r: String)
    ensures
        r@ == lower(text@),
{
    to_lowercase(text)
}

/// Bytes as text: what they encode where they are UTF-8, and otherwise what `lossy` makes of them.
pub open spec fn as_text(bytes: Seq<u8>) -> Seq<char> {
    if valid_utf8(bytes) {
        decode_utf8(bytes)
    } else {
        lossy(bytes)
    }
}

/// Bytes as text, with what is not UTF-8 replaced.
pub uninterp spec fn lossy(bytes: Seq<u8>) -> Seq<char>;

/// `String::from_utf8_lossy`: what is valid comes out as it is, and the rest depends on the bytes
/// alone.
#[verifier::external_body]
fn lossy_text(bytes: &[u8]) -> (r: String)
    ensures
        r@ == lossy(bytes@),
        valid_utf8(bytes@) ==> r@ == decode_utf8(bytes@),
{
    String::from_utf8_lossy(bytes).into_owned()
}

/// Bytes as text, with what is not UTF-8 replaced.
pub(crate) fn to_text(bytes: &[u8]) -> (r: String)
    ensures
        r@ == as_text(bytes@),
{
    lossy_text(bytes)
}

/// What stands at a pointer in a JSON text, as JSON, where the text is JSON and anything stands
/// there. The empty pointer stands for the whole.
pub uninterp spec fn json_at(text: Seq<char>, pointer: Seq<char>) -> Option<Seq<char>>;

/// The string at a pointer in a JSON text, where the text is JSON and a string stands there.
pub uninterp spec fn json_string_at(text: Seq<char>, pointer: Seq<char>) -> Option<Seq<char>>;

/// The array at a pointer in a JSON text, where the text is JSON and an array stands there: each
/// element that is a string, and nothing for each that is not.
pub uninterp spec fn json_array_at(text: Seq<char>, pointer: Seq<char>) -> Option<
    Seq<Option<Seq<char>>>,
>;

/// A character inside a JSON string: quotes, backslashes and control characters are escaped.
pub open spec fn json_escaped(c: char) -> Seq<char> {
    let n = c as u32;
    if c == '"' {
        "\\\""@
    } else if c == '\\' {
        "\\\\"@
    } else if n == 0x08 {
        "\\b"@
    } else if n == 0x09 {
        "\\t"@
    } else if n == 0x0a {
        "\\n"@
    } else if n == 0x0c {
        "\\f"@
    } else if n == 0x0d {
        "\\r"@
    } else if n < 0x20 {
        "\\u00"@ + seq![hex_digit(n as int / 16), hex_digit(n as int % 16)]
    } else {
        seq![c]
    }
}

/// Some text inside a JSON string.
pub open spec fn json_inner(text: Seq<char>) -> Seq<char>
    decreases text.len(),
{
    if text.len() == 0 {
        Seq::empty()
    } else {
        json_inner(text.drop_last()) + json_escaped(text.last())
    }
}

/// A text as a JSON string.
pub open spec fn json_quoted(text: Seq<char>) -> Seq<char> {
    "\""@ + json_inner(text) + "\""@
}

/// `serde_json::from_str` to a value, its `pointer`, and that as JSON again.
#[verifier::external_body]
pub(crate) fn json_get(text: &str, pointer: &str) -> (r: Option<String>)
    ensures
        match r {
            Some(raw) => json_at(text@, pointer@) == Some(raw@),
            None => json_at(text@, pointer@) is None,
        },
{
    let value = serde_json::from_str::<serde_json::Value>(text).ok()?;
    value.pointer(pointer).map(|v| v.to_string())
}

/// `serde_json::from_str` to a value, its `pointer`, and `as_str` of that.
#[verifier::external_body]
pub(crate) fn json_get_string(text: &str, pointer: &str) -> (r: Option<String>)
    ensures
        match r {
            Some(s) => json_string_at(text@, pointer@) == Some(s@),
            None => json_string_at(text@, pointer@) is None,
        },
{
    let value = serde_json::from_str::<serde_json::Value>(text).ok()?;
    value.pointer(pointer)?.as_str().map(|s| s.to_string())
}

/// The string there may be.
pub open spec fn maybe(o: Option<String>) -> Option<Seq<char>> {
    match o {
        Some(s) => Some(s@),
        None => None,
    }
}

/// `serde_json::from_str` to a value, its `pointer`, `as_array` of that, and `as_str` of each
/// element.
#[verifier::external_body]
pub(crate) fn json_get_array(text: &str, pointer: &str) -> (r: Option<Vec<Option<String>>>)
    ensures
        match r {
            Some(v) => json_array_at(text@, pointer@) == Some(
                v@.map_values(|o: Option<String>| maybe(o)),
            ),
            None => json_array_at(text@, pointer@) is None,
        },
{
    let value = serde_json::from_str::<serde_json::Value>(text).ok()?;
    let items = value.pointer(pointer)?.as_array()?;
    Some(items.iter().map(|v| v.as_str().map(|s| s.to_string())).collect())
}

/// A `serde_json::Value` made of a string, as JSON.
#[verifier::external_body]
pub(crate) fn json_quote(text: &str) -> (r: String)
    ensures
        r@ == json_quoted(text@),
{
    serde_json::Value::from(text).to_string()
}

// ---------------------------------------------------------------------------------------------
// Hexadecimal

/// The lower case digit for a number below sixteen.
pub open spec fn hex_digit(n: int) -> char {
    "0123456789abcdef"@[n]
}

/// Two digits for each byte, the high half first.
pub open spec fn hex_text(bytes: Seq<u8>) -> Seq<char> {
    Seq::new(
        2 * bytes.len(),
        |i: int|
            if i % 2 == 0 {
                hex_digit(bytes[i / 2] as int / 16)
            } else {
                hex_digit(bytes[i / 2] as int % 16)
            },
    )
}

/// The number a hexadecimal digit stands for, or -1.
pub open spec fn hex_value(c: char) -> int {
    let n = c as u32;
    if 0x30 <= n <= 0x39 {
        n - 0x30
    } else if 0x61 <= n <= 0x66 {
        n - 0x61 + 10
    } else if 0x41 <= n <= 0x46 {
        n - 0x41 + 10
    } else {
        -1
    }
}

/// An even number of hexadecimal digits.
pub open spec fn is_hex(s: Seq<char>) -> bool {
    s.len() % 2 == 0 && forall|i: int| 0 <= i < s.len() ==> hex_value(#[trigger] s[i]) >= 0
}

/// The bytes that pairs of digits stand for.
pub open spec fn unhex(s: Seq<char>) -> Seq<u8> {
    Seq::new(
        s.len() / 2,
        |i: int| (hex_value(s[2 * i]) * 16 + hex_value(s[2 * i + 1])) as u8,
    )
}

/// Bytes written in hexadecimal are read back as they were.
pub proof fn hex_reads_back(bytes: Seq<u8>)
    ensures
        is_hex(hex_text(bytes)),
        unhex(hex_text(bytes)) == bytes,
{
    let s = hex_text(bytes);
    assert forall|n: int| 0 <= n < 16 implies hex_value(#[trigger] hex_digit(n)) == n by {
        reveal_strlit("0123456789abcdef");
        lemma_hex_digit(n);
    }
    assert forall|i: int| 0 <= i < s.len() implies hex_value(#[trigger] s[i]) >= 0 by {
        let b = bytes[i / 2] as int;
        assert(hex_value(hex_digit(b / 16)) == b / 16);
        assert(hex_value(hex_digit(b % 16)) == b % 16);
    }
    assert forall|i: int| 0 <= i < bytes.len() implies #[trigger] unhex(s)[i] == bytes[i] by {
        let b = bytes[i] as int;
        assert(s[2 * i] == hex_digit(b / 16));
        assert(s[2 * i + 1] == hex_digit(b % 16));
        assert(hex_value(hex_digit(b / 16)) == b / 16);
        assert(hex_value(hex_digit(b % 16)) == b % 16);
    }
    assert(unhex(s) =~= bytes);
}

proof fn lemma_hex_digit(n: int)
    requires
        0 <= n < 16,
    ensures
        hex_value(hex_digit(n)) == n,
{
    reveal_strlit("0123456789abcdef");
}

/// The recipient texts that stand for a point of small order. Agreeing on a key with such a point
/// always gives the same key, so age stops the program rather than encrypt to one.
pub open spec fn small_order(text: Seq<char>) -> bool {
    small_order_lower(ascii_lower(text)) && (text == ascii_lower(text) || text == ascii_upper(text))
}

/// The fourteen texts of small order, in lower case.
pub open spec fn small_order_lower(text: Seq<char>) -> bool {
    ||| text == "age1qqqqqqqqqqqqqqqqqqqqqqqqqqqqqqqqqqqqqqqqqqqqqqqqqqqq5cu47z"@
    ||| text == "age1qqqqqqqqqqqqqqqqqqqqqqqqqqqqqqqqqqqqqqqqqqqqqqqqqzqqsuwj9m"@
    ||| text == "age1qyqqqqqqqqqqqqqqqqqqqqqqqqqqqqqqqqqqqqqqqqqqqqqqqqqqj7vrya"@
    ||| text == "age1qyqqqqqqqqqqqqqqqqqqqqqqqqqqqqqqqqqqqqqqqqqqqqqqqzqqk67yly"@
    ||| text == "age1ur4h5lpmgxu2u9jku0a0r87ydtdqnr0tnsetrlvxvgz3vh6fhqqqzyt4v9"@
    ||| text == "age1ur4h5lpmgxu2u9jku0a0r87ydtdqnr0tnsetrlvxvgz3vh6fhzqqxqejhu"@
    ||| text == "age1t7wft09r2zxzfvwsk92eeql0tvzyghxytqwgapkcyf8dm5ylz9ts6wm9s8"@
    ||| text == "age1t7wft09r2zxzfvwsk92eeql0tvzyghxytqwgapkcyf8dm5ylz8ts72fzt7"@
    ||| text == "age1anlllllllllllllllllllllllllllllllllllllllllllllllals4n2t7m"@
    ||| text == "age1anllllllllllllllllllllllllllllllllllllllllllllllllls3hcv9z"@
    ||| text == "age1ahlllllllllllllllllllllllllllllllllllllllllllllllalsn46ayy"@
    ||| text == "age1ahlllllllllllllllllllllllllllllllllllllllllllllllllsh3g6la"@
    ||| text == "age1amlllllllllllllllllllllllllllllllllllllllllllllllalselrwrv"@
    ||| text == "age1amlllllllllllllllllllllllllllllllllllllllllllllllllsam3fc4"@
}

} // verus!
