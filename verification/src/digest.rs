//! The pluggable digest layer: SHA-1 (Git's default, 20 bytes), SHA-256
//! (32 bytes) and XXH64 (8 bytes, either endianness), each fed one whole
//! object and finished once.

use vstd::prelude::*;
use sha1::Digest;

verus! {

/// Which digest a walk computes, and for XXH64 in which byte order its
/// 64-bit value is laid out.
#[derive(Clone, Copy, Debug, PartialEq, Eq, Structural)]
pub enum HashAlgo {
    Sha1,
    Sha256,
    Xxh64 { little_endian: bool },
}

/// The SHA-1 digest of a byte sequence; a function of the bytes alone.
pub uninterp spec fn sha1_of(bytes: Seq<u8>) -> Seq<u8>;

/// The SHA-256 digest of a byte sequence; a function of the bytes alone.
pub uninterp spec fn sha256_of(bytes: Seq<u8>) -> Seq<u8>;

/// The XXH64 value (seed zero) of a byte sequence; a function of the bytes
/// alone.
pub uninterp spec fn xxh64_of(bytes: Seq<u8>) -> u64;

/// Relies on sha1::Sha1::digest: the 20-byte SHA-1 of the input, depending
/// on the input bytes alone.
#[verifier::external_body]
fn sha1_digest(bytes: &[u8]) -> (r: Vec<u8>)
    ensures
        r@ == sha1_of(bytes@),
        r@.len() == 20,
{
    sha1::Sha1::digest(bytes).as_slice().to_vec()
}

/// Relies on sha2::Sha256::digest: the 32-byte SHA-256 of the input,
/// depending on the input bytes alone.
#[verifier::external_body]
fn sha256_digest(bytes: &[u8]) -> (r: Vec<u8>)
    ensures
        r@ == sha256_of(bytes@),
        r@.len() == 32,
{
    sha2::Sha256::digest(bytes).as_slice().to_vec()
}

/// Relies on twox_hash::XxHash64::oneshot with seed zero: a 64-bit value
/// depending on the input bytes alone.
#[verifier::external_body]
fn xxh64_oneshot(bytes: &[u8]) -> (r: u64)
    ensures
        r == xxh64_of(bytes@),
{
    twox_hash::XxHash64::oneshot(0, bytes)
}

/// The eight bytes of a 64-bit value, most significant first.
pub open spec fn be_bytes_of_u64(x: u64) -> Seq<u8> {
    seq![
        ((x / 0x100000000000000) % 256) as u8,
        ((x / 0x1000000000000) % 256) as u8,
        ((x / 0x10000000000) % 256) as u8,
        ((x / 0x100000000) % 256) as u8,
        ((x / 0x1000000) % 256) as u8,
        ((x / 0x10000) % 256) as u8,
        ((x / 0x100) % 256) as u8,
        (x % 256) as u8,
    ]
}

/// The eight bytes of a 64-bit value, least significant first.
pub open spec fn le_bytes_of_u64(x: u64) -> Seq<u8> {
    be_bytes_of_u64(x).reverse()
}

/// The digest an algorithm assigns to a byte sequence: the hash itself for
/// the SHA family, the XXH64 value laid out in the configured byte order.
pub open spec fn digest_of(algo: HashAlgo, bytes: Seq<u8>) -> Seq<u8> {
    match algo {
        HashAlgo::Sha1 => sha1_of(bytes),
        HashAlgo::Sha256 => sha256_of(bytes),
        HashAlgo::Xxh64 { little_endian } => if little_endian {
            le_bytes_of_u64(xxh64_of(bytes))
        } else {
            be_bytes_of_u64(xxh64_of(bytes))
        },
    }
}

/// How many bytes a digest of the algorithm holds.
pub open spec fn digest_len(algo: HashAlgo) -> nat {
    match algo {
        HashAlgo::Sha1 => 20,
        HashAlgo::Sha256 => 32,
        HashAlgo::Xxh64 { .. } => 8,
    }
}

fn u64_bytes(x: u64, little_endian: bool) -> (r: Vec<u8>)
    ensures
        r@ == if little_endian {
            le_bytes_of_u64(x)
        } else {
            be_bytes_of_u64(x)
        },
{
    let b7: u8 = ((x / 0x100000000000000) % 256) as u8;
    let b6: u8 = ((x / 0x1000000000000) % 256) as u8;
    let b5: u8 = ((x / 0x10000000000) % 256) as u8;
    let b4: u8 = ((x / 0x100000000) % 256) as u8;
    let b3: u8 = ((x / 0x1000000) % 256) as u8;
    let b2: u8 = ((x / 0x10000) % 256) as u8;
    let b1: u8 = ((x / 0x100) % 256) as u8;
    let b0: u8 = (x % 256) as u8;
    let mut r: Vec<u8> = Vec::new();
    if little_endian {
        r.push(b0);
        r.push(b1);
        r.push(b2);
        r.push(b3);
        r.push(b4);
        r.push(b5);
        r.push(b6);
        r.push(b7);
        proof {
            assert(r@ =~= le_bytes_of_u64(x));
        }
    } else {
        r.push(b7);
        r.push(b6);
        r.push(b5);
        r.push(b4);
        r.push(b3);
        r.push(b2);
        r.push(b1);
        r.push(b0);
        proof {
            assert(r@ =~= be_bytes_of_u64(x));
        }
    }
    r
}

/// Hashes one whole object's bytes with a fresh hasher of the given
/// algorithm and returns the finished digest.
pub fn hash_object(algo: HashAlgo, bytes: &[u8]) -> (r: Vec<u8>)
    ensures
        r@ == digest_of(algo, bytes@),
        r@.len() == digest_len(algo),
{
    match algo {
        HashAlgo::Sha1 => sha1_digest(bytes),
        HashAlgo::Sha256 => sha256_digest(bytes),
        HashAlgo::Xxh64 { little_endian } => {
            let x = xxh64_oneshot(bytes);
            let r = u64_bytes(x, little_endian);
            proof {
                assert(be_bytes_of_u64(x).len() == 8);
                assert(le_bytes_of_u64(x).len() == 8);
            }
            r
        },
    }
}

/// The streaming digest capability: feed bytes, then finish once; a fresh
/// instance serves exactly one object.
pub trait Hasher: Sized {
    /// Which algorithm this hasher computes.
    spec fn algo(&self) -> HashAlgo;

    /// The bytes fed so far.
    spec fn buffered(&self) -> Seq<u8>;

    /// Feeds more bytes into the running state.
    fn write(&mut self, bytes: &[u8])
        ensures
            final(self).buffered() == old(self).buffered() + bytes@,
            final(self).algo() == old(self).algo(),
    ;

    /// Finishes the digest over everything fed so far.
    fn result_vec(&mut self) -> (r: Vec<u8>)
        ensures
            r@ == digest_of(old(self).algo(), old(self).buffered()),
    ;
}

/// A hasher that buffers what it is fed and hashes once on finishing.
pub struct HashWriter {
    algo: HashAlgo,
    buf: Vec<u8>,
}

impl HashWriter {
    /// A fresh hasher with nothing fed yet.
    pub fn new(algo: HashAlgo) -> (h: HashWriter)
        ensures
            h.algo() == algo,
            h.buffered() == Seq::<u8>::empty(),
    {
        let h = HashWriter { algo, buf: Vec::new() };
        proof {
            assert(h.buffered() =~= Seq::<u8>::empty());
        }
        h
    }
}

impl Hasher for HashWriter {
    closed spec fn algo(&self) -> HashAlgo {
        self.algo
    }

    closed spec fn buffered(&self) -> Seq<u8> {
        self.buf@
    }

    fn write(&mut self, bytes: &[u8]) {
        crate::object::push_bytes(&mut self.buf, bytes);
    }

    fn result_vec(&mut self) -> (r: Vec<u8>) {
        hash_object(self.algo, self.buf.as_slice())
    }
}

} // verus!
