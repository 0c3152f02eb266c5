//! How an age file begins: for whom it is sealed, and how much work it takes to open.

use crate::number::{decimal, is_digit, lemma_decimal_digits, lemma_decimal_injective};
use vstd::prelude::*;
use vstd::string::*;
use vstd::utf8::{encode_utf8, is_ascii_chars, is_ascii_chars_encode_utf8};

verus! {

/// The line that every age file begins with.
pub open spec fn version_line() -> Seq<u8> {
    encode_utf8("age-encryption.org/v1\n"@)
}

/// What a stanza for an X25519 recipient begins with.
pub open spec fn x25519_tag() -> Seq<u8> {
    encode_utf8("-> X25519 "@)
}

/// `file` begins with these bytes.
pub open spec fn begins(file: Seq<u8>, bytes: Seq<u8>) -> bool {
    bytes.len() <= file.len() && file.take(bytes.len() as int) == bytes
}

/// Thirty-two bytes in base64 without padding, as one line of a file: none is a line break.
pub open spec fn is_line(line: Seq<u8>) -> bool {
    line.len() == 43 && !line.contains(10)
}

/// A stanza for an X25519 recipient: its share on the line of the tag, and its body on a line of
/// its own.
pub open spec fn stanza(pair: (Seq<u8>, Seq<u8>)) -> Seq<u8> {
    x25519_tag() + pair.0 + seq![10u8] + pair.1 + seq![10u8]
}

/// Stanzas for X25519 recipients, one after another.
pub open spec fn stanzas(pairs: Seq<(Seq<u8>, Seq<u8>)>) -> Seq<u8>
    decreases pairs.len(),
{
    if pairs.len() == 0 {
        Seq::empty()
    } else {
        stanza(pairs[0]) + stanzas(pairs.drop_first())
    }
}

/// After these bytes come stanzas for X25519 recipients with these shares and bodies, and no more
/// of them.
pub open spec fn holds_stanzas(file: Seq<u8>, pairs: Seq<(Seq<u8>, Seq<u8>)>) -> bool {
    &&& forall|i: int|
        0 <= i < pairs.len() ==> is_line((#[trigger] pairs[i]).0) && is_line(pairs[i].1)
    &&& begins(file, stanzas(pairs))
    &&& !begins(file.skip(stanzas(pairs).len() as int), x25519_tag())
}

/// The file is sealed to as many X25519 recipients, and to no more: it holds a stanza for each.
pub open spec fn sealed_to(file: Seq<u8>, n: nat) -> bool {
    &&& begins(file, version_line())
    &&& exists|pairs: Seq<(Seq<u8>, Seq<u8>)>|
        pairs.len() == n && #[trigger] holds_stanzas(
            file.skip(version_line().len() as int),
            pairs,
        )
}

/// What the stanza for a passphrase begins with.
pub open spec fn scrypt_tag() -> Seq<u8> {
    encode_utf8("-> scrypt "@)
}

/// What a file for a passphrase begins with: a salt of sixteen bytes in base64, and the work factor.
pub open spec fn scrypt_start(salt: Seq<u8>, n: int) -> Seq<u8> {
    version_line() + scrypt_tag() + salt + encode_utf8(" "@ + decimal(n) + "\n"@)
}

/// Opening the file takes this work factor.
pub open spec fn has_factor(file: Seq<u8>, n: int) -> bool {
    exists|salt: Seq<u8>|
        salt.len() == 22 && !salt.contains(32) && begins(file, #[trigger] scrypt_start(salt, n))
}

/// Opening the file takes the work factor that was asked for, and where none was the one that age
/// picks, which is never less than ten.
pub open spec fn works_at(file: Seq<u8>, log_n: Option<u8>) -> bool {
    exists|n: int| #[trigger]
        has_factor(file, n) && match log_n {
            Some(m) => n == m,
            None => 10 <= n < 64,
        }
}

proof fn lemma_stanza_len(pair: (Seq<u8>, Seq<u8>))
    requires
        is_line(pair.0),
        is_line(pair.1),
    ensures
        stanza(pair).len() == x25519_tag().len() + 88,
        stanza(pair).take(x25519_tag().len() as int) == x25519_tag(),
{
    assert(stanza(pair).take(x25519_tag().len() as int) =~= x25519_tag());
}

/// What comes after the first stanza holds the others.
proof fn lemma_rest(file: Seq<u8>, pairs: Seq<(Seq<u8>, Seq<u8>)>)
    requires
        pairs.len() > 0,
        holds_stanzas(file, pairs),
    ensures
        begins(file, x25519_tag()),
        holds_stanzas(file.skip(x25519_tag().len() as int + 88), pairs.drop_first()),
{
    let n = x25519_tag().len() as int + 88;
    let others = pairs.drop_first();
    let all = stanzas(pairs);
    let rest = file.skip(n);
    assert(is_line(pairs[0].0) && is_line(pairs[0].1));
    lemma_stanza_len(pairs[0]);
    assert(all == stanza(pairs[0]) + stanzas(others));
    assert(file.take(x25519_tag().len() as int) =~= x25519_tag()) by {
        assert forall|i: int| 0 <= i < x25519_tag().len() implies file[i] == x25519_tag()[i] by {
            assert(file.take(all.len() as int)[i] == all[i]);
            assert(stanza(pairs[0]).take(x25519_tag().len() as int)[i] == x25519_tag()[i]);
        }
    }
    assert(rest.take(stanzas(others).len() as int) =~= stanzas(others)) by {
        assert forall|i: int| 0 <= i < stanzas(others).len() implies rest[i] == stanzas(others)[i] by {
            assert(file.take(all.len() as int)[n + i] == all[n + i]);
        }
    }
    assert(rest.skip(stanzas(others).len() as int) =~= file.skip(all.len() as int));
    assert forall|i: int| 0 <= i < others.len() implies is_line((#[trigger] others[i]).0) && is_line(
        others[i].1,
    ) by {
        assert(others[i] == pairs[i + 1]);
    }
}

proof fn lemma_same_count(
    file: Seq<u8>,
    a: Seq<(Seq<u8>, Seq<u8>)>,
    b: Seq<(Seq<u8>, Seq<u8>)>,
)
    requires
        holds_stanzas(file, a),
        holds_stanzas(file, b),
    ensures
        a.len() == b.len(),
    decreases a.len(),
{
    assert(file.skip(0) =~= file);
    if a.len() == 0 {
        if b.len() > 0 {
            lemma_rest(file, b);
        }
    } else {
        lemma_rest(file, a);
        if b.len() > 0 {
            lemma_rest(file, b);
            lemma_same_count(
                file.skip(x25519_tag().len() as int + 88),
                a.drop_first(),
                b.drop_first(),
            );
        }
    }
}

/// A file says how many it is sealed to: one that is sealed to a number of recipients is sealed to
/// no other number.
pub proof fn a_file_is_sealed_to_one_number(file: Seq<u8>, m: nat, n: nat)
    requires
        sealed_to(file, m),
        sealed_to(file, n),
    ensures
        m == n,
{
    let rest = file.skip(version_line().len() as int);
    let a = choose|pairs: Seq<(Seq<u8>, Seq<u8>)>|
        pairs.len() == m && #[trigger] holds_stanzas(rest, pairs);
    let b = choose|pairs: Seq<(Seq<u8>, Seq<u8>)>|
        pairs.len() == n && #[trigger] holds_stanzas(rest, pairs);
    lemma_same_count(rest, a, b);
}

/// A digit is one byte.
proof fn lemma_digit(c: char)
    requires
        is_digit(c),
    ensures
        '0' <= c <= '9',
        c as u8 as char == c,
{
    let code = c as u32;
    assert(code == c as int);
    assert('0' <= c <= '9');
}

/// How a number and the end of its line are written: a byte for each character, and the line ends
/// nowhere before.
proof fn lemma_factor_bytes(n: int)
    requires
        0 <= n,
    ensures
        ({
            let text = " "@ + decimal(n) + "\n"@;
            let bytes = encode_utf8(text);
            &&& bytes.len() == decimal(n).len() + 2
            &&& forall|i: int|
                0 <= i < decimal(n).len() ==> #[trigger] bytes[i + 1] == decimal(n)[i] as u8 && bytes[i
                    + 1] != 10
            &&& bytes[decimal(n).len() as int + 1] == 10
        }),
{
    reveal_strlit(" ");
    reveal_strlit("\n");
    let text = " "@ + decimal(n) + "\n"@;
    let bytes = encode_utf8(text);
    lemma_decimal_digits(n);
    assert forall|i: int| 0 <= i < text.len() implies '\0' <= #[trigger] text[i] <= '\u{7f}' by {
        if 1 <= i <= decimal(n).len() {
            assert(text[i] == decimal(n)[i - 1]);
            lemma_digit(decimal(n)[i - 1]);
        }
    }
    assert(is_ascii_chars(text));
    is_ascii_chars_encode_utf8(text);
    assert forall|i: int| 0 <= i < decimal(n).len() implies #[trigger] bytes[i + 1] == decimal(
        n,
    )[i] as u8 && bytes[i + 1] != 10 by {
        assert(text[i + 1] == decimal(n)[i]);
        assert(text[i + 1] as u8 == bytes[i + 1]);
    }
    let last = decimal(n).len() as int + 1;
    assert(text[last] == '\n');
    assert(text[last] as u8 == bytes[last]);
}

/// The byte at this place behind the salt.
proof fn lemma_factor_at(file: Seq<u8>, salt: Seq<u8>, n: int, i: int)
    requires
        0 <= n,
        salt.len() == 22,
        begins(file, scrypt_start(salt, n)),
        0 <= i < decimal(n).len() + 2,
    ensures
        file[version_line().len() as int + scrypt_tag().len() as int + 22 + i] == encode_utf8(
            " "@ + decimal(n) + "\n"@,
        )[i],
{
    lemma_factor_bytes(n);
    let start = scrypt_start(salt, n);
    let k = version_line().len() as int + scrypt_tag().len() as int + 22 + i;
    assert(file.take(start.len() as int)[k] == start[k]);
}

/// A file says what work it takes: it has one work factor and no other. So a wrap made for a given
/// factor takes that one, and one made without takes no less than ten.
pub proof fn a_wrap_takes_one_work_factor(file: Seq<u8>, m: int, n: int)
    requires
        has_factor(file, m),
        has_factor(file, n),
        0 <= m,
        0 <= n,
    ensures
        m == n,
{
    let s = choose|salt: Seq<u8>|
        salt.len() == 22 && !salt.contains(32) && begins(file, #[trigger] scrypt_start(salt, m));
    let t = choose|salt: Seq<u8>|
        salt.len() == 22 && !salt.contains(32) && begins(file, #[trigger] scrypt_start(salt, n));
    let a = decimal(m);
    let b = decimal(n);
    let x = encode_utf8(" "@ + a + "\n"@);
    let y = encode_utf8(" "@ + b + "\n"@);
    lemma_factor_bytes(m);
    lemma_factor_bytes(n);
    lemma_decimal_digits(m);
    lemma_decimal_digits(n);
    if a.len() < b.len() {
        let i = a.len() as int;
        lemma_factor_at(file, s, m, i + 1);
        lemma_factor_at(file, t, n, i + 1);
        assert(y[i + 1] == b[i] as u8 && y[i + 1] != 10);
    } else if b.len() < a.len() {
        let i = b.len() as int;
        lemma_factor_at(file, s, m, i + 1);
        lemma_factor_at(file, t, n, i + 1);
        assert(x[i + 1] == a[i] as u8 && x[i + 1] != 10);
    } else {
        assert forall|i: int| 0 <= i < a.len() implies a[i] == b[i] by {
            lemma_factor_at(file, s, m, i + 1);
            lemma_factor_at(file, t, n, i + 1);
            assert(x[i + 1] == a[i] as u8 && y[i + 1] == b[i] as u8);
            lemma_digit(a[i]);
            lemma_digit(b[i]);
        }
        assert(a =~= b);
        lemma_decimal_injective(m, n);
    }
}

} // verus!
