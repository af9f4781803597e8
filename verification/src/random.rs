//! Random text in hexadecimal.
use vstd::prelude::*;
use vstd::string::*;

use crate::error::Error;
use crate::list::flat;
use crate::text::is_hex;

verus! {

/// `getrandom::fill` on `n` bytes: on success every byte is overwritten with a
/// random one, of which nothing can be promised; else what comes back is the text
/// of the `getrandom::Error`, which depends on the operating system. For no bytes
/// the system is not asked, so that cannot fail.
#[verifier::external_body]
fn random_bytes(n: usize) -> (r: Result<Vec<u8>, String>)
    ensures
        match r {
            Ok(bytes) => bytes@.len() == n,
            Err(_) => n > 0,
        },
{
    let mut bytes = vec![0_u8; n];
    match getrandom::fill(&mut bytes) {
        Ok(()) => Ok(bytes),
        Err(error) => Err(error.to_string()),
    }
}

/// The hexadecimal digit for `d`, in lower case.
pub open spec fn hex_digit(d: int) -> char {
    if d < 10 {
        ('0' as int + d) as char
    } else {
        ('a' as int + (d - 10)) as char
    }
}

/// A byte as two hexadecimal digits.
pub open spec fn hex_byte(byte: u8) -> Seq<char> {
    seq![hex_digit(byte as int / 16), hex_digit(byte as int % 16)]
}

/// Bytes as hexadecimal digits, two for each byte.
pub open spec fn hex_text(bytes: Seq<u8>) -> Seq<char> {
    flat(bytes.map_values(|b: u8| hex_byte(b)))
}

/// Whether `s` holds nothing but hexadecimal digits.
pub open spec fn all_hex(s: Seq<char>) -> bool {
    forall|i: int| 0 <= i < s.len() ==> is_hex(#[trigger] s[i])
}

/// Hexadecimal text has two digits for each byte, and nothing else.
pub proof fn hex_text_is_hex(bytes: Seq<u8>)
    ensures
        hex_text(bytes).len() == 2 * bytes.len(),
        all_hex(hex_text(bytes)),
    decreases bytes.len(),
{
    let f = |b: u8| hex_byte(b);
    if bytes.len() > 0 {
        hex_text_is_hex(bytes.drop_last());
        assert(bytes.map_values(f).drop_last() =~= bytes.drop_last().map_values(f));
        let front = hex_text(bytes.drop_last());
        assert(hex_text(bytes) == front + hex_byte(bytes.last()));
        assert forall|i: int| 0 <= i < hex_text(bytes).len() implies is_hex(
            #[trigger] hex_text(bytes)[i],
        ) by {
            if i < front.len() {
                assert(is_hex(front[i]));
            } else {
                assert(hex_text(bytes)[i] == hex_byte(bytes.last())[i - front.len()]);
            }
        }
    }
}

/// The digits of a hexadecimal byte tell it.
proof fn lemma_hex_byte(a: u8, b: u8)
    requires
        hex_byte(a) == hex_byte(b),
    ensures
        a == b,
{
    assert(hex_byte(a)[0] == hex_byte(b)[0] && hex_byte(a)[1] == hex_byte(b)[1]);
    assert(a as int == 16 * (a as int / 16) + a as int % 16);
    assert(b as int == 16 * (b as int / 16) + b as int % 16);
}

/// Different bytes give different text.
pub proof fn hex_text_is_injective(a: Seq<u8>, b: Seq<u8>)
    requires
        hex_text(a) == hex_text(b),
    ensures
        a == b,
    decreases a.len(),
{
    hex_text_is_hex(a);
    hex_text_is_hex(b);
    if a.len() > 0 {
        let f = |b: u8| hex_byte(b);
        assert(a.map_values(f).drop_last() =~= a.drop_last().map_values(f));
        assert(b.map_values(f).drop_last() =~= b.drop_last().map_values(f));
        let x = hex_text(a.drop_last());
        let y = hex_text(b.drop_last());
        hex_text_is_hex(a.drop_last());
        hex_text_is_hex(b.drop_last());
        let n = x.len() as int;
        assert(hex_text(a).take(n) =~= x);
        assert(hex_text(b).take(n) =~= y);
        assert(hex_text(a).skip(n) =~= hex_byte(a.last()));
        assert(hex_text(b).skip(n) =~= hex_byte(b.last()));
        hex_text_is_injective(a.drop_last(), b.drop_last());
        lemma_hex_byte(a.last(), b.last());
        assert(a =~= a.drop_last().push(a.last()));
        assert(b =~= b.drop_last().push(b.last()));
    } else {
        assert(a =~= b);
    }
}

/// The hexadecimal digit for `d`.
fn hex_digit_of(d: u8) -> (r: char)
    requires
        d < 16,
    ensures
        r == hex_digit(d as int),
{
    if d < 10 {
        (48 + d) as char
    } else {
        (97 + (d - 10)) as char
    }
}

/// Bytes as hexadecimal digits.
pub fn hex(bytes: &Vec<u8>) -> (r: String)
    ensures
        r@ == hex_text(bytes@),
{
    let ghost f = |b: u8| hex_byte(b);
    let mut r = String::new();
    let mut i: usize = 0;
    while i < bytes.len()
        invariant
            f == (|b: u8| hex_byte(b)),
            i <= bytes@.len(),
            r@ == hex_text(bytes@.take(i as int)),
        decreases bytes@.len() - i,
    {
        let ghost before = r@;
        let byte: u8 = bytes[i];
        r.push(hex_digit_of(byte / 16));
        r.push(hex_digit_of(byte % 16));
        proof {
            assert(bytes@.take(i + 1).map_values(f).drop_last() =~= bytes@.take(
                i as int,
            ).map_values(f));
            assert(r@ =~= before + hex_byte(byte));
        }
        i = i + 1;
    }
    assert(bytes@.take(bytes@.len() as int) == bytes@);
    r
}

/// What is said where there are no random bytes.
pub open spec fn random_fault(text: Seq<char>) -> Seq<char> {
    "failed to obtain secure randomness: "@ + text
}

/// The text for `bytes` random bytes. Which bytes come is up to the system, and so
/// is whether they come, where any are asked for.
pub fn random_hex(bytes: usize) -> (r: Result<String, Error>)
    ensures
        match r {
            Ok(text) => text@.len() == 2 * bytes && all_hex(text@) && exists|drawn: Seq<u8>|
                drawn.len() == bytes && text@ == #[trigger] hex_text(drawn),
            Err(e) => bytes > 0 && exists|text: Seq<char>| e@ == #[trigger] random_fault(text),
        },
{
    match random_bytes(bytes) {
        Ok(random) => {
            proof {
                hex_text_is_hex(random@);
            }
            Ok(hex(&random))
        },
        Err(detail) => {
            let mut message = "failed to obtain secure randomness: ".to_owned();
            message.append(detail.as_str());
            assert(message@ == random_fault(detail@));
            Err(Error::new(message))
        },
    }
}

} // verus!
