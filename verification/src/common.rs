//! Streaming SHA-256: a sink that takes an archive piece by piece and ends in
//! its digest, and the written form of a digest.

use openssl::sha::Sha256;
use vstd::prelude::*;

verus! {

/// The hasher of the `openssl` crate, `openssl::sha::Sha256`. Nothing inside
/// it is visible here.
#[verifier::external_type_specification]
#[verifier::external_body]
pub struct ExSha256(openssl::sha::Sha256);

/// The bytes that have been fed into a hasher since it was made, in the
/// order in which they came.
pub uninterp spec fn sha256_fed(hasher: Sha256) -> Seq<u8>;

/// The SHA-256 digest of a run of bytes: 32 bytes.
pub uninterp spec fn sha256_digest(data: Seq<u8>) -> Seq<u8>;

/// `openssl::sha::Sha256::new` makes a hasher into which nothing has been
/// fed yet.
pub assume_specification[ openssl::sha::Sha256::new ]() -> (hasher: Sha256)
    ensures
        sha256_fed(hasher) == Seq::<u8>::empty(),
;

/// `openssl::sha::Sha256::update` feeds the bytes of `buf` into the hasher,
/// behind what was fed before.
pub assume_specification[ openssl::sha::Sha256::update ](hasher: &mut Sha256, buf: &[u8])
    ensures
        sha256_fed(*final(hasher)) == sha256_fed(*old(hasher)) + buf@,
;

/// `openssl::sha::Sha256::finish` returns the digest of all that was fed
/// into the hasher.
pub assume_specification[ openssl::sha::Sha256::finish ](hasher: Sha256) -> (digest: [u8; 32])
    ensures
        digest@ == sha256_digest(sha256_fed(hasher)),
;

/// The lowercase hexadecimal digit for a number below sixteen.
pub open spec fn hex_digit(n: int) -> char {
    if n == 0 {
        '0'
    } else if n == 1 {
        '1'
    } else if n == 2 {
        '2'
    } else if n == 3 {
        '3'
    } else if n == 4 {
        '4'
    } else if n == 5 {
        '5'
    } else if n == 6 {
        '6'
    } else if n == 7 {
        '7'
    } else if n == 8 {
        '8'
    } else if n == 9 {
        '9'
    } else if n == 10 {
        'a'
    } else if n == 11 {
        'b'
    } else if n == 12 {
        'c'
    } else if n == 13 {
        'd'
    } else if n == 14 {
        'e'
    } else {
        'f'
    }
}

/// The lowercase hexadecimal text of a run of bytes: two digits for each
/// byte, the high half first.
pub open spec fn hex_text(data: Seq<u8>) -> Seq<char>
    decreases data.len(),
{
    if data.len() == 0 {
        Seq::empty()
    } else {
        hex_text(data.drop_last()).push(hex_digit(data.last() as int / 16)).push(
            hex_digit(data.last() as int % 16),
        )
    }
}

/// `hex::encode` writes each byte as two lowercase hexadecimal digits, the
/// high half first, in the order of the bytes.
#[verifier::external_body]
pub(crate) fn hex_encode(data: &[u8]) -> (r: String)
    ensures
        r@ == hex_text(data@),
{
    hex::encode(data)
}

/// A sink that hashes what is written to it.
pub struct WriteSha256(Sha256);

impl WriteSha256 {
    /// All the bytes that the sink has taken, and those that its hasher had
    /// taken before, in order.
    pub closed spec fn received(&self) -> Seq<u8> {
        sha256_fed(self.0)
    }

    /// A sink over the given hasher.
    pub fn new(hasher: Sha256) -> (r: WriteSha256)
        ensures
            r.received() == sha256_fed(hasher),
    {
        WriteSha256(hasher)
    }

    /// Gives the hasher back.
    pub fn into_sha256(self) -> (r: Sha256)
        ensures
            sha256_fed(r) == self.received(),
    {
        self.0
    }

    /// Takes all of `buf` and returns how many bytes that was.
    pub fn write(&mut self, buf: &[u8]) -> (n: usize)
        ensures
            n == buf@.len(),
            final(self).received() == old(self).received() + buf@,
    {
        self.0.update(buf);
        buf.len()
    }

    /// Does nothing: the sink holds nothing back.
    pub fn flush(&mut self)
        ensures
            final(self).received() == old(self).received(),
    {
    }

    /// Ends the stream and returns the lowercase hexadecimal text of the
    /// digest of everything received.
    pub fn finish_hex(self) -> (r: String)
        ensures
            r@ == hex_text(sha256_digest(self.received())),
    {
        let digest = self.0.finish();
        hex_encode(digest.as_slice())
    }
}

} // verus!
