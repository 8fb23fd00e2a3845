//! Short names for notes: a base-91 code of a SHA-256 digest.

use sha2::Digest;
use vstd::prelude::*;
use vstd::string::{StrSliceExecFns, StringExecFns};
use vstd::utf8::encode_utf8;

verus! {

/// The SHA-256 digest of a sequence of bytes.
pub uninterp spec fn sha256_digest(data: Seq<u8>) -> Seq<u8>;

/// `Digest::digest` of sha2's `Sha256`: the result is the SHA-256 digest of
/// `data`, which has 32 bytes.
#[verifier::external_body]
fn sha256(data: &[u8]) -> (digest: Vec<u8>)
    ensures
        digest@ == sha256_digest(data@),
        digest@.len() == 32,
{
    sha2::Sha256::digest(data).to_vec()
}

/// The symbols of the code. A digit is one of the first 91 of them.
pub open spec fn alphabet() -> Seq<char> {
    "ABCDEFGHIJKLMNOPQRSTUVWXYZabcdefghijklmnopqrstuvwxyz0123456789!#$%&'()*+,-./:;<=>?@[\\]^_`{|}~"@
}

/// The base of the code.
pub const BASE: u64 = 91;

/// How many bytes of the digest the code is made of.
pub const CODE_BYTES: usize = 8;

/// The first `count` of the given texts with `__` between each two.
pub open spec fn joined(parts: Seq<Seq<char>>, count: nat) -> Seq<char>
    decreases count,
{
    if count == 0 {
        Seq::empty()
    } else if count == 1 {
        parts[0]
    } else {
        joined(parts, (count - 1) as nat) + seq!['_', '_'] + parts[count - 1]
    }
}

/// The number that the bytes are the digits of in base 256, the first byte
/// being the highest digit.
pub open spec fn be_value(bytes: Seq<u8>) -> nat
    decreases bytes.len(),
{
    if bytes.len() == 0 {
        0
    } else {
        be_value(bytes.drop_last()) * 256 + bytes.last() as nat
    }
}

/// The digits of a number in base 91, the highest digit first, each written
/// as its symbol. Zero has no digit.
pub open spec fn base91_digits(n: nat) -> Seq<char>
    decreases n,
{
    if n == 0 {
        Seq::empty()
    } else {
        base91_digits(n / 91).push(alphabet()[(n % 91) as int])
    }
}

/// The characters of each of the given strings.
pub open spec fn string_views(strings: Seq<String>) -> Seq<Seq<char>> {
    Seq::new(strings.len(), |i: int| strings[i]@)
}

/// The code of a digest: the digits in base 91 of the number that its first
/// eight bytes spell.
pub open spec fn digest_code(digest: Seq<u8>) -> Seq<char> {
    base91_digits(be_value(digest.take(CODE_BYTES as int)))
}

/// The code of a list of texts: that of the SHA-256 digest of the texts,
/// joined with `__` and written in UTF-8.
pub open spec fn base91_code(parts: Seq<Seq<char>>) -> Seq<char> {
    digest_code(sha256_digest(encode_utf8(joined(parts, parts.len()))))
}

/// 256 to the power of `exponent`.
pub open spec fn power_of_256(exponent: nat) -> nat
    decreases exponent,
{
    if exponent == 0 {
        1
    } else {
        256 * power_of_256((exponent - 1) as nat)
    }
}

/// The powers of 256 grow with the exponent.
pub proof fn lemma_powers_grow(low: nat, high: nat)
    requires
        low <= high,
    ensures
        power_of_256(low) <= power_of_256(high),
    decreases high - low,
{
    if low < high {
        lemma_powers_grow(low, (high - 1) as nat);
    }
}

/// The given texts with `__` between each two.
pub fn join_parts(data: &[String]) -> (text: String)
    ensures
        text@ == joined(string_views(data@), data@.len()),
{
    let ghost parts = string_views(data@);
    let mut text = String::new();
    let mut i: usize = 0;
    proof {
        reveal_strlit("__");
        assert("__"@ =~= seq!['_', '_']);
    }
    while i < data.len()
        invariant
            i <= data.len(),
            parts == string_views(data@),
            "__"@ == seq!['_', '_'],
            text@ == joined(parts, i as nat),
        decreases data.len() - i,
    {
        if i > 0 {
            text.append("__");
        }
        text.append(data[i].as_str());
        assert(parts[i as int] == data@[i as int]@);
        i = i + 1;
        assert(text@ =~= joined(parts, i as nat));
    }
    text
}

/// The symbols of a number in base 91, the highest digit first.
pub fn encode_number(n: u64) -> (code: String)
    ensures
        code@ == base91_digits(n as nat),
    decreases n,
{
    if n == 0 {
        String::new()
    } else {
        let symbols = "ABCDEFGHIJKLMNOPQRSTUVWXYZabcdefghijklmnopqrstuvwxyz0123456789!#$%&'()*+,-./:;<=>?@[\\]^_`{|}~";
        let digit = (n % BASE) as usize;
        let mut code = encode_number(n / BASE);
        proof {
            reveal_strlit(
                "ABCDEFGHIJKLMNOPQRSTUVWXYZabcdefghijklmnopqrstuvwxyz0123456789!#$%&'()*+,-./:;<=>?@[\\]^_`{|}~",
            );
        }
        code.append(symbols.substring_char(digit, digit + 1));
        assert(symbols@.subrange(digit as int, digit + 1) =~= seq![symbols@[digit as int]]);
        assert(code@ =~= base91_digits(n as nat));
        code
    }
}

/// The number that the first eight bytes of a digest spell, and from it the
/// code of the digest.
pub fn encode_digest(digest: &[u8]) -> (code: String)
    requires
        digest@.len() >= CODE_BYTES,
    ensures
        code@ == digest_code(digest@),
{
    let ghost head = digest@.take(CODE_BYTES as int);
    let mut value: u64 = 0;
    let mut i: usize = 0;
    assert(head.take(0) =~= Seq::<u8>::empty());
    while i < CODE_BYTES
        invariant
            i <= CODE_BYTES,
            digest@.len() >= CODE_BYTES,
            head == digest@.take(CODE_BYTES as int),
            value == be_value(head.take(i as int)),
            value < power_of_256(i as nat),
        decreases CODE_BYTES - i,
    {
        proof {
            lemma_powers_grow((i + 1) as nat, 8);
            reveal_with_fuel(power_of_256, 9);
            assert(power_of_256(8) == 0x1_0000_0000_0000_0000);
            let upto = head.take(i + 1);
            assert(upto.drop_last() =~= head.take(i as int));
            assert(upto.last() == digest@[i as int]);
        }
        let byte = digest[i];
        value = value * 256 + byte as u64;
        i = i + 1;
    }
    assert(head.take(CODE_BYTES as int) =~= head);
    encode_number(value)
}

/// The code of a list of texts.
pub fn base91_encode(data: &[String]) -> (code: String)
    ensures
        code@ == base91_code(string_views(data@)),
{
    let text = join_parts(data);
    let digest = sha256(text.as_str().as_bytes());
    encode_digest(digest.as_slice())
}

} // verus!
