//! Content hashing of circuits: the SHA-256 digest of a circuit's encoding,
//! written as hexadecimal.
use vstd::prelude::*;
use crate::circuit::Circuit;
use crate::codec::{circuit_bytes, encode_circuit};

verus! {

/// The SHA-256 digest of a byte sequence.
pub uninterp spec fn sha256_of(data: Seq<u8>) -> Seq<u8>;

/// Relies on openssl::hash::hash with MessageDigest::sha256: when it succeeds,
/// it returns the SHA-256 digest of the data, which depends on the data alone.
#[verifier::external_body]
fn sha256_digest(data: &[u8]) -> (r: Result<Vec<u8>, String>)
    ensures
        r matches Ok(d) ==> d@ == sha256_of(data@),
{
    match openssl::hash::hash(openssl::hash::MessageDigest::sha256(), data) {
        Ok(digest) => Ok(digest.to_vec()),
        Err(err) => Err(err.to_string()),
    }
}

pub open spec fn hex_alphabet() -> Seq<char> {
    seq!['0', '1', '2', '3', '4', '5', '6', '7', '8', '9', 'a', 'b', 'c', 'd', 'e', 'f']
}

/// A byte in lowercase hexadecimal, without a leading zero.
pub open spec fn byte_hex(b: u8) -> Seq<char> {
    if b < 16 {
        seq![hex_alphabet()[b as int]]
    } else {
        seq![hex_alphabet()[(b / 16) as int], hex_alphabet()[(b % 16) as int]]
    }
}

pub open spec fn hex_of(bytes: Seq<u8>) -> Seq<char>
    decreases bytes.len(),
{
    if bytes.len() == 0 {
        Seq::empty()
    } else {
        hex_of(bytes.drop_last()) + byte_hex(bytes.last())
    }
}

/// The content hash of a circuit.
pub open spec fn circuit_hash_of(c: Circuit) -> Seq<char> {
    hex_of(sha256_of(circuit_bytes(c)))
}

fn hex_digit(d: u8) -> (r: &'static str)
    requires
        d < 16,
    ensures
        r@ == seq![hex_alphabet()[d as int]],
{
    if d == 0 {
        proof { reveal_strlit("0"); }
        "0"
    } else if d == 1 {
        proof { reveal_strlit("1"); }
        "1"
    } else if d == 2 {
        proof { reveal_strlit("2"); }
        "2"
    } else if d == 3 {
        proof { reveal_strlit("3"); }
        "3"
    } else if d == 4 {
        proof { reveal_strlit("4"); }
        "4"
    } else if d == 5 {
        proof { reveal_strlit("5"); }
        "5"
    } else if d == 6 {
        proof { reveal_strlit("6"); }
        "6"
    } else if d == 7 {
        proof { reveal_strlit("7"); }
        "7"
    } else if d == 8 {
        proof { reveal_strlit("8"); }
        "8"
    } else if d == 9 {
        proof { reveal_strlit("9"); }
        "9"
    } else if d == 10 {
        proof { reveal_strlit("a"); }
        "a"
    } else if d == 11 {
        proof { reveal_strlit("b"); }
        "b"
    } else if d == 12 {
        proof { reveal_strlit("c"); }
        "c"
    } else if d == 13 {
        proof { reveal_strlit("d"); }
        "d"
    } else if d == 14 {
        proof { reveal_strlit("e"); }
        "e"
    } else {
        proof { reveal_strlit("f"); }
        "f"
    }
}

/// Writes each byte in lowercase hexadecimal, without leading zeros.
pub fn to_hex(bytes: &[u8]) -> (r: String)
    ensures
        r@ == hex_of(bytes@),
{
    let mut buf = String::new();
    let mut i: usize = 0;
    while i < bytes.len()
        invariant
            i <= bytes@.len(),
            buf@ == hex_of(bytes@.subrange(0, i as int)),
        decreases bytes@.len() - i,
    {
        let b = bytes[i];
        if b >= 16 {
            buf.append(hex_digit(b / 16));
        }
        buf.append(hex_digit(b % 16));
        proof {
            let next = bytes@.subrange(0, i + 1);
            assert(next.drop_last() =~= bytes@.subrange(0, i as int));
            assert(next.last() == b);
        }
        i = i + 1;
        assert(buf@ =~= hex_of(bytes@.subrange(0, i as int)));
    }
    assert(bytes@.subrange(0, bytes@.len() as int) =~= bytes@);
    buf
}

/// The content hash of a circuit; an `Err` carries the digest's failure.
pub fn sha256(circuit: &Circuit) -> (r: Result<String, String>)
    ensures
        r matches Ok(h) ==> h@ == circuit_hash_of(*circuit),
{
    let bytes = encode_circuit(circuit);
    match sha256_digest(bytes.as_slice()) {
        Ok(digest) => Ok(to_hex(digest.as_slice())),
        Err(e) => Err(e),
    }
}

/// Circuits with one encoding have one content hash: the hash depends on
/// the encoded bytes alone.
pub proof fn lemma_hash_deterministic(c1: Circuit, c2: Circuit)
    requires
        circuit_bytes(c1) == circuit_bytes(c2),
    ensures
        circuit_hash_of(c1) == circuit_hash_of(c2),
{
}

} // verus!
