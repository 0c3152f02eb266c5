//! Secure Enclave wrapping, through the helper that owns the Touch ID prompt.

use crate::outside::{as_text, to_text};
use crate::problem::Problem;
use crate::text::{trim, trimmed};
use vstd::prelude::*;
use vstd::string::*;

verus! {

/// Everything needed to open the store key on this machine, minus the fingerprint.
pub struct SeWrap {
    pub public_key: String,
    pub key_blob: String,
    pub ephemeral: String,
    pub ciphertext: String,
}

/// A key that the Secure Enclave made.
pub struct KeyPair {
    pub public_key: String,
    pub key_blob: String,
}

/// What the Secure Enclave sealed.
pub struct Sealed {
    pub ephemeral: String,
    pub ciphertext: String,
}

/// What the helper is asked to seal.
pub struct SealRequest {
    pub public_key: String,
    pub plaintext: String,
}

/// What the helper is asked to open.
pub struct OpenRequest {
    pub key_blob: String,
    pub ephemeral: String,
    pub ciphertext: String,
}

/// Ask for the store key to be sealed to a new key. The helper speaks base64.
pub fn seal_request(pair: &KeyPair, plaintext: &[u8]) -> (r: SealRequest)
    ensures
        r.public_key@ == pair.public_key@,
        r.plaintext@ == base64_text(plaintext@),
{
    SealRequest { public_key: pair.public_key.clone(), plaintext: base64(plaintext) }
}

/// The wrap that a key and what was sealed to it make.
pub fn wrap(pair: KeyPair, sealed: Sealed) -> (r: SeWrap)
    ensures
        r.public_key == pair.public_key,
        r.key_blob == pair.key_blob,
        r.ephemeral == sealed.ephemeral,
        r.ciphertext == sealed.ciphertext,
{
    SeWrap {
        public_key: pair.public_key,
        key_blob: pair.key_blob,
        ephemeral: sealed.ephemeral,
        ciphertext: sealed.ciphertext,
    }
}

/// Ask for a wrap to be opened, which raises a prompt.
pub fn unwrap(wrap: &SeWrap) -> (r: OpenRequest)
    ensures
        r.key_blob@ == wrap.key_blob@,
        r.ephemeral@ == wrap.ephemeral@,
        r.ciphertext@ == wrap.ciphertext@,
{
    OpenRequest {
        key_blob: wrap.key_blob.clone(),
        ephemeral: wrap.ephemeral.clone(),
        ciphertext: wrap.ciphertext.clone(),
    }
}

/// What came of running the helper: what it printed, or what it complained of.
pub fn outcome(success: bool, stdout: Vec<u8>, stderr: &[u8]) -> (r: Result<Vec<u8>, Problem>)
    ensures
        match r {
            Ok(out) => success && out == stdout,
            Err(Problem::Helper(why)) => !success && why@ == trim(as_text(stderr@)),
            Err(_) => false,
        },
{
    if !success {
        return Err(Problem::Helper(trimmed(to_text(stderr).as_str())));
    }
    Ok(stdout)
}

// ---------------------------------------------------------------------------------------------
// Base64

/// The character for six bits.
pub open spec fn base64_char(n: int) -> char {
    if n < 26 {
        (65 + n) as char
    } else if n < 52 {
        (97 + n - 26) as char
    } else if n < 62 {
        (48 + n - 52) as char
    } else if n == 62 {
        '+'
    } else {
        '/'
    }
}

/// The byte at an index, or zero behind the last.
pub open spec fn byte_or_zero(bytes: Seq<u8>, i: int) -> int {
    if i < bytes.len() {
        bytes[i] as int
    } else {
        0
    }
}

/// Three bytes as one number, with zeros for those that are missing.
pub open spec fn triple(bytes: Seq<u8>, q: int) -> int {
    byte_or_zero(bytes, 3 * q) * 65536 + byte_or_zero(bytes, 3 * q + 1) * 256 + byte_or_zero(
        bytes,
        3 * q + 2,
    )
}

/// One of the four groups of six bits in three bytes, the highest first.
pub open spec fn sextet(n: int, i: int) -> int {
    if i == 0 {
        n / 262144
    } else if i == 1 {
        n / 4096 % 64
    } else if i == 2 {
        n / 64 % 64
    } else {
        n % 64
    }
}

/// Four characters for every three bytes, padded with `=` where bytes are missing at the end.
pub open spec fn base64_text(bytes: Seq<u8>) -> Seq<char> {
    Seq::new(
        (4 * ((bytes.len() + 2) / 3)) as nat,
        |k: int|
            if k % 4 > bytes.len() - 3 * (k / 4) {
                '='
            } else {
                base64_char(sextet(triple(bytes, k / 4), k % 4))
            },
    )
}

fn base64_digit(n: u32) -> (r: char)
    requires
        n < 64,
    ensures
        r == base64_char(n as int),
{
    if n < 26 {
        (65 + n as u8) as char
    } else if n < 52 {
        (97 + (n - 26) as u8) as char
    } else if n < 62 {
        (48 + (n - 52) as u8) as char
    } else if n == 62 {
        '+'
    } else {
        '/'
    }
}

/// Bytes in base64.
pub fn base64(bytes: &[u8]) -> (r: String)
    ensures
        r@ == base64_text(bytes@),
{
    let mut out = String::new();
    let ghost all = base64_text(bytes@);
    let mut at: usize = 0;
    let ghost mut q: int = 0;
    while at < bytes.len()
        invariant
            0 <= q,
            at == 3 * q || (at == bytes@.len() && 3 * q >= at),
            at <= bytes@.len(),
            3 * (q - 1) < bytes@.len(),
            all == base64_text(bytes@),
            out@ == all.take(4 * q),
            4 * q <= all.len(),
        decreases bytes@.len() - at,
    {
        let left = bytes.len() - at;
        let b0: u32 = bytes[at] as u32;
        let b1: u32 = if left > 1 {
            bytes[at + 1] as u32
        } else {
            0
        };
        let b2: u32 = if left > 2 {
            bytes[at + 2] as u32
        } else {
            0
        };
        let n: u32 = b0 * 65536 + b1 * 256 + b2;
        assert(n == triple(bytes@, q));
        let c0 = base64_digit(n / 262144);
        let c1 = base64_digit(n / 4096 % 64);
        let c2 = if left > 1 {
            base64_digit(n / 64 % 64)
        } else {
            '='
        };
        let c3 = if left > 2 {
            base64_digit(n % 64)
        } else {
            '='
        };
        out.push(c0);
        out.push(c1);
        out.push(c2);
        out.push(c3);
        proof {
            assert(all.len() >= 4 * q + 4);
            assert(all[4 * q] == c0);
            assert(all[4 * q + 1] == c1);
            assert(all[4 * q + 2] == c2);
            assert(all[4 * q + 3] == c3);
            assert(all.take(4 * q).push(c0).push(c1).push(c2).push(c3) =~= all.take(4 * q + 4));
            q = q + 1;
        }
        at = if left > 3 {
            at + 3
        } else {
            bytes.len()
        };
    }
    assert(all.len() == 4 * q);
    assert(all.take(4 * q) =~= all);
    out
}

/// The six bits that a character stands for.
pub open spec fn base64_value(c: char) -> int {
    let n = c as int;
    if 65 <= n <= 90 {
        n - 65
    } else if 97 <= n <= 122 {
        n - 97 + 26
    } else if 48 <= n <= 57 {
        n - 48 + 52
    } else if c == '+' {
        62
    } else if c == '/' {
        63
    } else {
        0
    }
}

/// How many bytes a base64 text holds: three for every four characters, less one for each `=`.
pub open spec fn base64_len(text: Seq<char>) -> int {
    let full: int = text.len() as int / 4 * 3;
    if text.len() < 4 || text.last() != '=' {
        full
    } else if text[text.len() - 2] != '=' {
        full - 1
    } else {
        full - 2
    }
}

/// One byte of a base64 text.
pub open spec fn base64_byte(text: Seq<char>, i: int) -> int {
    let q = i / 3;
    let n = base64_value(text[4 * q]) * 262144 + base64_value(text[4 * q + 1]) * 4096
        + base64_value(text[4 * q + 2]) * 64 + base64_value(text[4 * q + 3]);
    if i % 3 == 0 {
        n / 65536
    } else if i % 3 == 1 {
        n / 256 % 256
    } else {
        n % 256
    }
}

proof fn lemma_base64_char(n: int)
    requires
        0 <= n < 64,
    ensures
        base64_value(base64_char(n)) == n,
        base64_char(n) != '=',
{
}

/// Bytes in base64 are read back as they were: there are as many of them, and each is the same.
pub proof fn base64_reads_back(bytes: Seq<u8>)
    ensures
        base64_len(base64_text(bytes)) == bytes.len(),
        forall|i: int|
            0 <= i < bytes.len() ==> #[trigger] base64_byte(base64_text(bytes), i) == bytes[i],
{
    let text = base64_text(bytes);
    let len = bytes.len() as int;
    if len > 0 {
        let q = (len - 1) / 3;
        assert(text.len() == 4 * q + 4);
        let n = triple(bytes, q);
        assert(0 <= n < 16777216);
        lemma_base64_char(sextet(n, 2));
        lemma_base64_char(sextet(n, 3));
        assert(text[4 * q + 2] == if 2 > len - 3 * q { '=' } else { base64_char(sextet(n, 2)) });
        assert(text[4 * q + 3] == if 3 > len - 3 * q { '=' } else { base64_char(sextet(n, 3)) });
    }
    assert forall|i: int| 0 <= i < bytes.len() implies #[trigger] base64_byte(text, i)
        == bytes[i] by {
        lemma_base64_byte(bytes, i);
    }
}

proof fn lemma_base64_byte(bytes: Seq<u8>, i: int)
    requires
        0 <= i < bytes.len(),
    ensures
        base64_byte(base64_text(bytes), i) == bytes[i],
{
    let text = base64_text(bytes);
    let q = i / 3;
    let n = triple(bytes, q);
    let left = bytes.len() - 3 * q;
    assert(text.len() >= 4 * q + 4);
    let a = sextet(n, 0);
    let b = sextet(n, 1);
    let c = sextet(n, 2);
    let d = sextet(n, 3);
    assert(0 <= n < 16777216);
    lemma_base64_char(a);
    lemma_base64_char(b);
    lemma_base64_char(c);
    lemma_base64_char(d);
    assert(text[4 * q] == base64_char(a));
    assert(text[4 * q + 1] == base64_char(b));
    assert(text[4 * q + 2] == if 2 > left { '=' } else { base64_char(c) });
    assert(text[4 * q + 3] == if 3 > left { '=' } else { base64_char(d) });
    let b0 = byte_or_zero(bytes, 3 * q);
    let b1 = byte_or_zero(bytes, 3 * q + 1);
    let b2 = byte_or_zero(bytes, 3 * q + 2);
    lemma_sextets(b0, b1, b2);
    assert(left < 3 ==> b2 == 0);
    assert(left < 2 ==> b1 == 0);
    assert(base64_value('=') == 0);
    let m = base64_value(text[4 * q]) * 262144 + base64_value(text[4 * q + 1]) * 4096
        + base64_value(text[4 * q + 2]) * 64 + base64_value(text[4 * q + 3]);
    assert(m == n);
    assert(i == 3 * q + i % 3);
}

/// Three bytes are put together from four groups of six bits, and taken apart again.
proof fn lemma_sextets(b0: int, b1: int, b2: int)
    requires
        0 <= b0 < 256,
        0 <= b1 < 256,
        0 <= b2 < 256,
    ensures
        ({
            let n = b0 * 65536 + b1 * 256 + b2;
            &&& n == sextet(n, 0) * 262144 + sextet(n, 1) * 4096 + sextet(n, 2) * 64 + sextet(n, 3)
            &&& n / 65536 == b0
            &&& n / 256 % 256 == b1
            &&& n % 256 == b2
            &&& b2 == 0 ==> sextet(n, 3) == 0
            &&& b1 == 0 && b2 == 0 ==> sextet(n, 2) == 0
        }),
{
    let n = b0 * 65536 + b1 * 256 + b2;
    let a = b0 / 4;
    let b = b0 % 4 * 16 + b1 / 16;
    let c = b1 % 16 * 4 + b2 / 64;
    let d = b2 % 64;
    assert(n == a * 262144 + b * 4096 + c * 64 + d);
    assert(0 <= b < 64 && 0 <= c < 64 && 0 <= d < 64);
    assert(n / 262144 == a);
    assert(n / 4096 == a * 64 + b);
    assert((a * 64 + b) % 64 == b);
    assert(n / 64 == (a * 64 + b) * 64 + c);
    assert(((a * 64 + b) * 64 + c) % 64 == c);
    assert(n % 64 == d);
    assert(n / 256 == b0 * 256 + b1);
    assert((b0 * 256 + b1) % 256 == b1);
}

} // verus!
