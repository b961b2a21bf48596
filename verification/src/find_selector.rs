//! Error selectors: the first four bytes of the Keccak-256 hash of an error
//! signature, written as `0x` and eight lower-case hex digits.

use vstd::prelude::*;
use vstd::slice::slice_to_vec;
use vstd::utf8::encode_utf8;

use crate::text::string_of;

verus! {

/// What `keccak_hash::keccak256` leaves in a buffer that held `data`: the
/// Keccak-256 sponge squeezed for as many bytes as `data` has.
pub uninterp spec fn keccak256_in_place(data: Seq<u8>) -> Seq<u8>;

/// `keccak_hash::keccak256`, which hashes a buffer in place. The contract
/// claims that the new contents are a function of the old ones, and that the
/// buffer keeps its length (the function takes a slice, which it cannot
/// resize); it does not state the hash function.
#[verifier::external_body]
fn keccak256(data: &mut Vec<u8>)
    ensures
        final(data)@ == keccak256_in_place(old(data)@),
        final(data)@.len() == old(data)@.len(),
{
    keccak_hash::keccak256(data.as_mut_slice());
}

/// The lower-case hexadecimal digits, by value.
pub open spec fn hex_digits() -> Seq<char> {
    seq!['0', '1', '2', '3', '4', '5', '6', '7', '8', '9', 'a', 'b', 'c', 'd', 'e', 'f']
}

/// A byte as two lower-case hex digits (`{:02x}`).
pub open spec fn byte_hex(b: u8) -> Seq<char> {
    seq![hex_digits()[(b / 16) as int], hex_digits()[(b % 16) as int]]
}

/// Bytes as hex, two digits each, in order.
pub open spec fn bytes_hex(bytes: Seq<u8>) -> Seq<char>
    decreases bytes.len(),
{
    if bytes.len() == 0 {
        seq![]
    } else {
        bytes_hex(bytes.drop_last()) + byte_hex(bytes.last())
    }
}

/// The first four bytes of the hash of a signature's UTF-8 text.
pub open spec fn selector_bytes(signature: Seq<char>) -> Seq<u8> {
    keccak256_in_place(encode_utf8(signature)).take(4)
}

/// The selector of a signature: `0x` and its four selector bytes in hex.
pub open spec fn selector_of(signature: Seq<char>) -> Seq<char> {
    seq!['0', 'x'] + bytes_hex(selector_bytes(signature))
}

/// What a selector looks like: `0x` followed by eight lower-case hex digits.
pub open spec fn is_selector_text(s: Seq<char>) -> bool {
    &&& s.len() == 10
    &&& s[0] == '0'
    &&& s[1] == 'x'
    &&& forall|i: int| 2 <= i < 10 ==> hex_digits().contains(#[trigger] s[i])
}

proof fn lemma_bytes_hex_len(bytes: Seq<u8>)
    ensures
        bytes_hex(bytes).len() == 2 * bytes.len(),
        forall|i: int| 0 <= i < bytes_hex(bytes).len() ==> hex_digits().contains(#[trigger] bytes_hex(bytes)[i]),
    decreases bytes.len(),
{
    if bytes.len() > 0 {
        lemma_bytes_hex_len(bytes.drop_last());
        let b = bytes.last();
        assert(hex_digits()[(b / 16) as int] == byte_hex(b)[0]);
        assert(hex_digits()[(b % 16) as int] == byte_hex(b)[1]);
        let prev = bytes_hex(bytes.drop_last());
        assert forall|i: int| 0 <= i < bytes_hex(bytes).len() implies hex_digits().contains(#[trigger] bytes_hex(bytes)[i]) by {
            if i < prev.len() {
                assert(bytes_hex(bytes)[i] == prev[i]);
            } else if i == prev.len() {
                assert(bytes_hex(bytes)[i] == hex_digits()[(b / 16) as int]);
            } else {
                assert(bytes_hex(bytes)[i] == hex_digits()[(b % 16) as int]);
            }
        }
    }
}

proof fn lemma_hex_digits_distinct(i: int, j: int)
    requires
        0 <= i < 16,
        0 <= j < 16,
        hex_digits()[i] == hex_digits()[j],
    ensures
        i == j,
{
}

/// Hex spelling loses nothing: byte strings of one length have the same
/// spelling exactly when they are equal.
pub proof fn lemma_bytes_hex_injective(a: Seq<u8>, b: Seq<u8>)
    requires
        a.len() == b.len(),
        bytes_hex(a) == bytes_hex(b),
    ensures
        a == b,
    decreases a.len(),
{
    if a.len() > 0 {
        lemma_bytes_hex_len(a.drop_last());
        lemma_bytes_hex_len(b.drop_last());
        let pa = bytes_hex(a.drop_last());
        let pb = bytes_hex(b.drop_last());
        assert(bytes_hex(a)[pa.len() as int] == byte_hex(a.last())[0]);
        assert(bytes_hex(b)[pb.len() as int] == byte_hex(b.last())[0]);
        assert(bytes_hex(a)[pa.len() + 1int] == byte_hex(a.last())[1]);
        assert(bytes_hex(b)[pb.len() + 1int] == byte_hex(b.last())[1]);
        lemma_hex_digits_distinct((a.last() / 16) as int, (b.last() / 16) as int);
        lemma_hex_digits_distinct((a.last() % 16) as int, (b.last() % 16) as int);
        assert(a.last() == b.last());
        assert(pa =~= bytes_hex(a).take(pa.len() as int));
        assert(pb =~= bytes_hex(b).take(pb.len() as int));
        lemma_bytes_hex_injective(a.drop_last(), b.drop_last());
        assert(a =~= a.drop_last().push(a.last()));
        assert(b =~= b.drop_last().push(b.last()));
    }
}

/// Two signatures get the same selector exactly when the first four bytes of
/// their hashes agree (for hashes of at least four bytes, which is what
/// `find_selector` reads).
pub proof fn lemma_selector_identifies_hash_prefix(x: Seq<char>, y: Seq<char>)
    requires
        keccak256_in_place(encode_utf8(x)).len() >= 4,
        keccak256_in_place(encode_utf8(y)).len() >= 4,
    ensures
        selector_of(x) == selector_of(y) <==> selector_bytes(x) == selector_bytes(y),
        is_selector_text(selector_of(x)),
{
    lemma_bytes_hex_len(selector_bytes(x));
    lemma_bytes_hex_len(selector_bytes(y));
    if selector_of(x) == selector_of(y) {
        assert(bytes_hex(selector_bytes(x)) =~= selector_of(x).skip(2));
        assert(bytes_hex(selector_bytes(y)) =~= selector_of(y).skip(2));
        lemma_bytes_hex_injective(selector_bytes(x), selector_bytes(y));
    }
    assert forall|i: int| 2 <= i < 10 implies hex_digits().contains(#[trigger] selector_of(x)[i]) by {
        assert(selector_of(x)[i] == bytes_hex(selector_bytes(x))[i - 2]);
    }
}

fn hex_digit(n: u8) -> (c: char)
    requires
        n < 16,
    ensures
        c == hex_digits()[n as int],
{
    let digits = vec!['0', '1', '2', '3', '4', '5', '6', '7', '8', '9', 'a', 'b', 'c', 'd', 'e', 'f'];
    assert(digits@ =~= hex_digits());
    digits[n as usize]
}

/// The selector text of a hash: `0x` and the hash's first four bytes as
/// lower-case hex.
pub open spec fn selector_text(hash: Seq<u8>) -> Seq<char> {
    seq!['0', 'x'] + bytes_hex(hash.take(4))
}

/// The selector text of a hash of at least four bytes (see `selector_text`).
pub fn selector_from_hash(hash: &Vec<u8>) -> (r: String)
    requires
        hash@.len() >= 4,
    ensures
        r@ == selector_text(hash@),
        is_selector_text(r@),
{
    let mut out: Vec<char> = vec!['0', 'x'];
    let ghost sel = hash@.take(4);
    assert(out@ =~= seq!['0', 'x'] + bytes_hex(sel.take(0)));
    let mut k: usize = 0;
    while k < 4
        invariant
            k <= 4,
            hash@.len() >= 4,
            sel == hash@.take(4),
            out@ == seq!['0', 'x'] + bytes_hex(sel.take(k as int)),
        decreases 4 - k,
    {
        let b = hash[k];
        out.push(hex_digit(b / 16));
        out.push(hex_digit(b % 16));
        assert(sel.take(k + 1).drop_last() =~= sel.take(k as int));
        assert(out@ =~= seq!['0', 'x'] + bytes_hex(sel.take(k + 1)));
        k = k + 1;
    }
    assert(sel.take(4) =~= sel);
    proof {
        lemma_bytes_hex_len(sel);
        assert forall|i: int| 2 <= i < 10 implies hex_digits().contains(#[trigger] out@[i]) by {
            assert(out@[i] == bytes_hex(sel)[i - 2]);
        }
    }
    string_of(&out)
}

/// The selector of an error signature such as
/// `ErrCannotSendToUser(address,address)` (see `selector_of`): the signature's
/// UTF-8 bytes are hashed in place and the hash turned into selector text.
/// The signature's UTF-8 text must be at least four bytes long: four bytes
/// of the hash are read out of a buffer as long as it.
pub fn find_selector(abi: &str) -> (r: String)
    requires
        encode_utf8(abi@).len() >= 4,
    ensures
        r@ == selector_of(abi@),
        is_selector_text(r@),
{
    let mut bytes = slice_to_vec(abi.as_bytes());
    keccak256(&mut bytes);
    selector_from_hash(&bytes)
}

} // verus!
