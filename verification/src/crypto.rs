//! age encryption to the store key and to a passphrase, and the keys themselves.

use crate::header::{sealed_to, works_at};
use crate::outside::{
    age_decrypt, age_decrypt_scrypt, age_encrypt, age_encrypt_scrypt, age_generate, age_open,
    age_public, age_public_of, age_recipient_check, age_recipient_fault, hex_decode, hex_encode,
    hex_reads_back, is_hex, is_public_of, scrypt_open, small_order, small_order_lower,
    text_of, unhex, wipe_text, work_factor_ok,
};
use crate::problem::Problem;
use crate::text::{lemma_trim, same, to_ascii_lower, to_ascii_upper, trim, trimmed};
use vstd::prelude::*;
use vstd::string::*;
use vstd::utf8::{
    decode_utf8, encode_utf8, encode_utf8_decode_utf8, encode_utf8_valid_utf8, valid_utf8,
};

verus! {

/// The one key that opens every secret: an age X25519 identity, as text.
pub struct StoreKey {
    text: String,
    public: Recipient,
}

impl View for StoreKey {
    type V = Seq<char>;

    closed spec fn view(&self) -> Seq<char> {
        self.text@
    }
}

impl StoreKey {
    /// The text is an identity with no white space around it, and its public half stands beside
    /// it.
    #[verifier::type_invariant]
    spec fn valid(self) -> bool {
        is_public_of(self.public@, self.text@) && trim(self.text@) == self.text@
    }

    /// A new key, unlike any other.
    pub fn generate() -> (r: StoreKey)
        ensures
            age_public(r@) is Ok,
    {
        let (text, public) = age_generate();
        StoreKey { text, public: Recipient { text: public } }
    }

    /// Read a key, with white space around it ignored.
    pub fn parse(text: &str) -> (r: Result<StoreKey, Problem>)
        ensures
            match r {
                Ok(key) => age_public(trim(text@)) is Ok && key@ == trim(text@),
                Err(Problem::BadKey(why)) => age_public(trim(text@)) == Err::<Seq<char>, Seq<char>>(
                    why@,
                ),
                Err(_) => false,
            },
    {
        let tight = trimmed(text);
        proof {
            lemma_trim(text@);
        }
        match age_public_of(tight.as_str()) {
            Ok(public) => Ok(StoreKey { text: tight, public: Recipient { text: public } }),
            Err(why) => Err(Problem::BadKey(why)),
        }
    }

    /// The public half, which encrypts to this key.
    pub fn to_public(&self) -> (r: Recipient)
        ensures
            is_public_of(r@, self@),
    {
        proof {
            use_type_invariant(self);
        }
        self.public.again()
    }

    /// The key as text, for whoever wraps it. The caller wipes it.
    pub fn expose(&self) -> (r: String)
        ensures
            r@ == self@,
            age_public(r@) is Ok,
            trim(r@) == r@,
    {
        proof {
            use_type_invariant(self);
        }
        self.text.clone()
    }

    /// The same key again.
    pub fn copy(&self) -> (r: StoreKey)
        ensures
            r@ == self@,
    {
        proof {
            use_type_invariant(self);
        }
        StoreKey { text: self.text.clone(), public: self.public.again() }
    }

    /// Overwrite the key before it goes.
    pub fn forget(self) {
        let mut text = self.text;
        wipe_text(&mut text);
    }
}

/// The public half of a key: an age X25519 recipient, as text.
pub struct Recipient {
    text: String,
}

impl View for Recipient {
    type V = Seq<char>;

    closed spec fn view(&self) -> Seq<char> {
        self.text@
    }
}

/// Some of the fourteen texts in lower case is this one.
fn is_small_order_lower(text: &str) -> (r: bool)
    ensures
        r == small_order_lower(text@),
{
    same(text, "age1qqqqqqqqqqqqqqqqqqqqqqqqqqqqqqqqqqqqqqqqqqqqqqqqqqqq5cu47z")
        || same(text, "age1qqqqqqqqqqqqqqqqqqqqqqqqqqqqqqqqqqqqqqqqqqqqqqqqqzqqsuwj9m")
        || same(text, "age1qyqqqqqqqqqqqqqqqqqqqqqqqqqqqqqqqqqqqqqqqqqqqqqqqqqqj7vrya")
        || same(text, "age1qyqqqqqqqqqqqqqqqqqqqqqqqqqqqqqqqqqqqqqqqqqqqqqqqzqqk67yly")
        || same(text, "age1ur4h5lpmgxu2u9jku0a0r87ydtdqnr0tnsetrlvxvgz3vh6fhqqqzyt4v9")
        || same(text, "age1ur4h5lpmgxu2u9jku0a0r87ydtdqnr0tnsetrlvxvgz3vh6fhzqqxqejhu")
        || same(text, "age1t7wft09r2zxzfvwsk92eeql0tvzyghxytqwgapkcyf8dm5ylz9ts6wm9s8")
        || same(text, "age1t7wft09r2zxzfvwsk92eeql0tvzyghxytqwgapkcyf8dm5ylz8ts72fzt7")
        || same(text, "age1anlllllllllllllllllllllllllllllllllllllllllllllllals4n2t7m")
        || same(text, "age1anllllllllllllllllllllllllllllllllllllllllllllllllls3hcv9z")
        || same(text, "age1ahlllllllllllllllllllllllllllllllllllllllllllllllalsn46ayy")
        || same(text, "age1ahlllllllllllllllllllllllllllllllllllllllllllllllllsh3g6la")
        || same(text, "age1amlllllllllllllllllllllllllllllllllllllllllllllllalselrwrv")
        || same(text, "age1amlllllllllllllllllllllllllllllllllllllllllllllllllsam3fc4")
}

/// Whether encrypting to this recipient text would stop the program.
pub fn is_small_order(text: &str) -> (r: bool)
    ensures
        r == small_order(text@),
{
    let lower = to_ascii_lower(text);
    is_small_order_lower(lower.as_str()) && (same(text, lower.as_str()) || same(
        text,
        to_ascii_upper(text).as_str(),
    ))
}

impl Recipient {
    /// The text is a recipient that age encrypts to.
    #[verifier::type_invariant]
    spec fn valid(self) -> bool {
        age_recipient_fault(self.text@) is None && !small_order(self.text@)
    }

    /// Read a recipient, with white space around it ignored.
    pub fn parse(text: &str) -> (r: Result<Recipient, Problem>)
        requires
            !small_order(trim(text@)),
        ensures
            match r {
                Ok(to) => age_recipient_fault(trim(text@)) is None && to@ == trim(text@),
                Err(Problem::BadRecipient(why)) => age_recipient_fault(trim(text@)) == Some(why@),
                Err(_) => false,
            },
    {
        let tight = trimmed(text);
        match age_recipient_check(tight.as_str()) {
            None => Ok(Recipient { text: tight }),
            Some(why) => Err(Problem::BadRecipient(why)),
        }
    }

    /// The same recipient again.
    pub fn again(&self) -> (r: Recipient)
        ensures
            r@ == self@,
    {
        Recipient { text: self.to_text() }
    }

    /// The recipient as text.
    pub fn to_text(&self) -> (r: String)
        ensures
            r@ == self@,
            age_recipient_fault(r@) is None,
            !small_order(r@),
    {
        proof {
            use_type_invariant(self);
        }
        self.text.clone()
    }
}

/// Encrypt to every recipient. One recipient failing to wrap is fatal: a store that silently
/// drops its recovery key is worse than no store. Every key whose public half is among the
/// recipients opens the file and finds the plaintext, and the file is sealed to nobody besides.
pub fn encrypt(plaintext: &[u8], recipients: &Vec<Recipient>) -> (r: Result<Vec<u8>, Problem>)
    ensures
        match r {
            Ok(file) => {
                &&& recipients@.len() > 0
                &&& forall|i: int, key: Seq<char>|
                    0 <= i < recipients@.len() && #[trigger] is_public_of(recipients@[i]@, key)
                        ==> age_open(file@, key) == Some(plaintext@)
                &&& sealed_to(file@, recipients@.len())
            },
            Err(Problem::NoRecipients) => recipients@.len() == 0,
            Err(_) => false,
        },
{
    if recipients.len() == 0 {
        return Err(Problem::NoRecipients);
    }
    let mut texts: Vec<String> = Vec::new();
    let mut i: usize = 0;
    while i < recipients.len()
        invariant
            i <= recipients@.len(),
            texts@.len() == i,
            forall|k: int|
                0 <= k < i ==> (#[trigger] texts@[k])@ == recipients@[k]@ && age_recipient_fault(
                    texts@[k]@,
                ) is None && !small_order(texts@[k]@),
        decreases recipients@.len() - i,
    {
        texts.push(recipients[i].to_text());
        i = i + 1;
    }
    match age_encrypt(plaintext, &texts) {
        Ok(file) => {
            assert forall|i: int, key: Seq<char>|
                0 <= i < recipients@.len() && #[trigger] is_public_of(
                    recipients@[i]@,
                    key,
                ) implies age_open(file@, key) == Some(plaintext@) by {
                assert(is_public_of(texts@[i]@, key));
            }
            Ok(file)
        },
        Err(why) => Err(Problem::Age(why)),
    }
}

/// Open a file with the store key.
pub fn decrypt(ciphertext: &[u8], key: &StoreKey) -> (r: Result<Vec<u8>, Problem>)
    ensures
        match r {
            Ok(plain) => age_open(ciphertext@, key@) == Some(plain@),
            Err(Problem::Age(_)) => age_open(ciphertext@, key@) is None,
            Err(_) => false,
        },
{
    match age_decrypt(ciphertext, key.expose().as_str()) {
        Ok(plain) => Ok(plain),
        Err(why) => Err(Problem::Age(why)),
    }
}

/// What a line of the audit log says to a key: it is the age file in hexadecimal.
pub open spec fn line_open(line: Seq<char>, key: Seq<char>) -> Option<Seq<u8>> {
    if is_hex(line) {
        age_open(unhex(line), key)
    } else {
        None
    }
}

/// Encrypt to one line of text. Every key that `recipient` is the public half of reads it back,
/// and a line break never splits it.
pub fn encrypt_line(plaintext: &[u8], recipient: &Recipient) -> (r: Result<String, Problem>)
    ensures
        r is Ok,
        r matches Ok(line) ==> is_hex(line@) && forall|key: Seq<char>| #[trigger]
            is_public_of(recipient@, key) ==> line_open(line@, key) == Some(plaintext@),
        r matches Ok(line) ==> sealed_to(unhex(line@), 1),
{
    let mut to: Vec<Recipient> = Vec::new();
    to.push(recipient.again());
    assert(to@[0]@ == recipient@);
    match encrypt(plaintext, &to) {
        Ok(file) => {
            proof {
                hex_reads_back(file@);
            }
            Ok(hex_encode(file.as_slice()))
        },
        Err(e) => Err(e),
    }
}

/// Read a line of the audit log.
pub fn decrypt_line(line: &str, key: &StoreKey) -> (r: Result<Vec<u8>, Problem>)
    ensures
        match r {
            Ok(plain) => line_open(line@, key@) == Some(plain@),
            Err(Problem::BadLine) => !is_hex(line@),
            Err(Problem::Age(_)) => is_hex(line@) && line_open(line@, key@) is None,
            Err(_) => false,
        },
{
    match hex_decode(line) {
        Some(file) => decrypt(file.as_slice(), key),
        None => Err(Problem::BadLine),
    }
}

/// Wrap the store key to a passphrase. The wrap opens with that passphrase, holds the key, and takes
/// the work that was asked for to open.
pub fn wrap_with_passphrase(key: &StoreKey, passphrase: &str, log_n: Option<u8>) -> (r: Result<
    Vec<u8>,
    Problem,
>)
    requires
        work_factor_ok(log_n),
    ensures
        r matches Ok(file) && scrypt_open(file@, passphrase@) == Some(encode_utf8(key@)) && works_at(
            file@,
            log_n,
        ),
{
    let mut text = key.expose();
    let wrapped = age_encrypt_scrypt(text.as_str().as_bytes(), passphrase, log_n);
    wipe_text(&mut text);
    match wrapped {
        Ok(file) => Ok(file),
        Err(why) => Err(Problem::Age(why)),
    }
}

/// The key that a wrap turned out to hold: text, with white space around it ignored.
pub fn key_from_wrap(plain: Vec<u8>) -> (r: Result<StoreKey, Problem>)
    ensures
        match r {
            Ok(key) => valid_utf8(plain@) && key@ == trim(decode_utf8(plain@)) && age_public(
                key@,
            ) is Ok,
            Err(Problem::WrapIsNotAKey) => !valid_utf8(plain@),
            Err(Problem::BadKey(why)) => valid_utf8(plain@) && age_public(
                trim(decode_utf8(plain@)),
            ) == Err::<Seq<char>, Seq<char>>(why@),
            Err(_) => false,
        },
{
    match text_of(plain) {
        Some(mut text) => {
            let key = StoreKey::parse(text.as_str());
            wipe_text(&mut text);
            key
        },
        None => Err(Problem::WrapIsNotAKey),
    }
}

/// Open a wrap with a passphrase.
pub fn unwrap_with_passphrase(wrapped: &[u8], passphrase: &str) -> (r: Result<StoreKey, Problem>)
    ensures
        match r {
            Ok(key) => scrypt_open(wrapped@, passphrase@) matches Some(plain) && valid_utf8(plain)
                && key@ == trim(decode_utf8(plain)),
            Err(Problem::WrongPassphrase(_)) => true,
            Err(Problem::RecoveryIsNotAKey) => scrypt_open(wrapped@, passphrase@) matches Some(plain)
                && !valid_utf8(plain),
            Err(Problem::BadKey(_)) => scrypt_open(wrapped@, passphrase@) matches Some(plain)
                && valid_utf8(plain) && age_public(trim(decode_utf8(plain))) is Err,
            Err(_) => false,
        },
{
    match age_decrypt_scrypt(wrapped, passphrase) {
        Ok(plain) => match key_from_wrap(plain) {
            Err(Problem::WrapIsNotAKey) => Err(Problem::RecoveryIsNotAKey),
            other => other,
        },
        Err(why) => Err(Problem::WrongPassphrase(why)),
    }
}

/// Whoever opens a wrap with the passphrase it was made for holds the key that was wrapped: the
/// text inside is read back as it was.
pub proof fn a_wrap_gives_back_its_key(wrapped: Seq<u8>, passphrase: Seq<char>, key: StoreKey)
    requires
        scrypt_open(wrapped, passphrase) == Some(encode_utf8(key@)),
        trim(key@) == key@,
    ensures
        valid_utf8(scrypt_open(wrapped, passphrase)->0),
        trim(decode_utf8(scrypt_open(wrapped, passphrase)->0)) == key@,
{
    encode_utf8_valid_utf8(key@);
    encode_utf8_decode_utf8(key@);
}

} // verus!
