//! Digest primitives and the small text encodings built on them.
//!
//! The two SHA-256 calls are the library's only trusted computations; their
//! results are named, never described.  Hex and decimal rendering are spelled
//! out and proved.
use vstd::prelude::*;

use bitcoin::hashes::Hash as _;

verus! {

/// The SHA-256 digest of `data`: 32 bytes, a function of the input alone.
pub uninterp spec fn sha256_of(data: Seq<u8>) -> Seq<u8>;

/// The double SHA-256 digest of `data`: 32 bytes, a function of the input
/// alone.
pub uninterp spec fn sha256d_of(data: Seq<u8>) -> Seq<u8>;

/// Relies on bitcoin::hashes::sha256::Hash::hash for the SHA-256 digest of
/// the input; the digest is 32 bytes and depends on the bytes alone.
#[verifier::external_body]
fn sha256_digest(data: &Vec<u8>) -> (r: Vec<u8>)
    ensures
        r@ == sha256_of(data@),
        r@.len() == 32,
{
    bitcoin::hashes::sha256::Hash::hash(data.as_slice()).to_byte_array().to_vec()
}

/// Relies on bitcoin::hashes::sha256d::Hash::hash for the double SHA-256
/// digest of the input; the digest is 32 bytes and depends on the bytes
/// alone.
#[verifier::external_body]
fn sha256d_digest(data: &Vec<u8>) -> (r: Vec<u8>)
    ensures
        r@ == sha256d_of(data@),
        r@.len() == 32,
{
    bitcoin::hashes::sha256d::Hash::hash(data.as_slice()).to_byte_array().to_vec()
}

/// The scripthash of a locking script: its SHA-256 digest.
pub fn compute_script_hash(script: &Vec<u8>) -> (r: Vec<u8>)
    ensures
        r@ == sha256_of(script@),
        r@.len() == 32,
{
    sha256_digest(script)
}

/// The SHA-256 digest of `data`.
pub fn sha256(data: &Vec<u8>) -> (r: Vec<u8>)
    ensures
        r@ == sha256_of(data@),
        r@.len() == 32,
{
    sha256_digest(data)
}

/// One inner node of a transaction Merkle tree: the double SHA-256 of the
/// two children side by side.
pub open spec fn merklize_of(left: Seq<u8>, right: Seq<u8>) -> Seq<u8> {
    sha256d_of(left + right)
}

/// Hash two Merkle-tree children into their parent.
pub fn merklize(left: &Vec<u8>, right: &Vec<u8>) -> (r: Vec<u8>)
    ensures
        r@ == merklize_of(left@, right@),
        r@.len() == 32,
{
    let mut data = left.clone();
    proof {
        assert(data@ =~= left@);
    }
    crate::bytes::append_bytes(&mut data, right);
    sha256d_digest(&data)
}

/// The lower-case hex character for a value below 16, as a byte.
pub open spec fn hex_digit(v: u8) -> u8
    recommends
        v < 16,
{
    if v < 10 {
        (48 + v) as u8
    } else {
        (87 + v) as u8
    }
}

/// The lower-case hex rendering of `data`, two characters per byte.
pub open spec fn hex_of(data: Seq<u8>) -> Seq<u8>
    decreases data.len(),
{
    if data.len() == 0 {
        Seq::<u8>::empty()
    } else {
        seq![hex_digit(data[0] / 16), hex_digit((data[0] % 16) as u8)] + hex_of(data.drop_first())
    }
}

/// Render `data` as lower-case hex.
pub fn hex_encode(data: &Vec<u8>) -> (r: Vec<u8>)
    ensures
        r@ == hex_of(data@),
{
    let mut out: Vec<u8> = Vec::new();
    let n = data.len();
    let mut i: usize = 0;
    proof {
        assert(data@.skip(0) =~= data@);
        assert(out@ + hex_of(data@.skip(0)) =~= hex_of(data@));
    }
    while i < n
        invariant
            n == data.len(),
            i <= n,
            hex_of(data@) == out@ + hex_of(data@.skip(i as int)),
        decreases n - i,
    {
        let b = data[i];
        let hi = b / 16;
        let lo = b % 16;
        let ghost rest = data@.skip(i as int);
        proof {
            assert(rest[0] == b);
            assert(hex_of(rest) == seq![hex_digit(b / 16), hex_digit((b % 16) as u8)] + hex_of(
                rest.drop_first(),
            ));
            assert(rest.drop_first() =~= data@.skip(i + 1));
        }
        if hi < 10 {
            out.push(48 + hi);
        } else {
            out.push(87 + hi);
        }
        if lo < 10 {
            out.push(48 + lo);
        } else {
            out.push(87 + lo);
        }
        proof {
            assert(hex_of(data@) =~= out@ + hex_of(data@.skip(i + 1)));
        }
        i = i + 1;
    }
    proof {
        assert(data@.skip(n as int).len() == 0);
        assert(out@ =~= out@ + hex_of(data@.skip(n as int)));
    }
    out
}

/// `data` in the opposite byte order.
pub fn reverse_bytes(data: &Vec<u8>) -> (r: Vec<u8>)
    ensures
        r@ == data@.reverse(),
{
    let n = data.len();
    let mut out: Vec<u8> = Vec::new();
    let mut i: usize = 0;
    while i < n
        invariant
            n == data.len(),
            i <= n,
            out@.len() == i,
            forall|j: int| 0 <= j < i ==> out@[j] == data@[n - 1 - j],
        decreases n - i,
    {
        out.push(data[n - 1 - i]);
        i = i + 1;
    }
    proof {
        assert(out@ =~= data@.reverse());
    }
    out
}

/// The decimal digits of a non-negative number, most significant first.
pub open spec fn dec_of_nat(v: nat) -> Seq<u8>
    decreases v,
{
    if v < 10 {
        seq![(48 + v) as u8]
    } else {
        dec_of_nat(v / 10) + seq![(48 + v % 10) as u8]
    }
}

/// The decimal rendering of a signed number: a minus sign, then the digits
/// of its magnitude.
pub open spec fn dec_of_int(v: int) -> Seq<u8> {
    if v < 0 {
        seq![45u8] + dec_of_nat((-v) as nat)
    } else {
        dec_of_nat(v as nat)
    }
}

/// Render a non-negative number in decimal.
pub fn dec_encode_u32(v: u32) -> (r: Vec<u8>)
    ensures
        r@ == dec_of_nat(v as nat),
    decreases v,
{
    if v < 10 {
        let mut out: Vec<u8> = Vec::new();
        out.push(48 + (v as u8));
        proof {
            assert(out@ =~= dec_of_nat(v as nat));
        }
        out
    } else {
        let mut out = dec_encode_u32(v / 10);
        out.push(48 + ((v % 10) as u8));
        proof {
            assert(out@ =~= dec_of_nat(v as nat));
        }
        out
    }
}

/// Render a signed number in decimal.
pub fn dec_encode_i32(v: i32) -> (r: Vec<u8>)
    ensures
        r@ == dec_of_int(v as int),
{
    if v >= 0 {
        dec_encode_u32(v as u32)
    } else {
        let mut out: Vec<u8> = Vec::new();
        out.push(45);
        let magnitude: u32 = (-(v as i64)) as u32;
        proof {
            assert(magnitude == -(v as int));
        }
        let digits = dec_encode_u32(magnitude);
        crate::bytes::append_bytes(&mut out, &digits);
        proof {
            assert(out@ =~= dec_of_int(v as int));
        }
        out
    }
}

} // verus!
