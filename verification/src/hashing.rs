use vstd::prelude::*;
use vstd::slice::slice_subrange;

verus! {

#[verifier::external_type_specification]
#[verifier::external_body]
pub struct ExSha256(sha2::Sha256);

/// The SHA-256 digest of a byte sequence, left abstract: the digest is a
/// function of the input bytes alone, the same in every run.
pub uninterp spec fn sha256_of(data: Seq<u8>) -> Seq<u8>;

/// The stream of bytes an incremental hasher has absorbed so far.
pub uninterp spec fn absorbed(h: sha2::Sha256) -> Seq<u8>;

/// Relies on sha2's `Digest::new`: a fresh hasher has absorbed no bytes.
#[verifier::external_body]
fn sha256_new() -> (h: sha2::Sha256)
    ensures
        absorbed(h) == Seq::<u8>::empty(),
{
    <sha2::Sha256 as sha2::Digest>::new()
}

/// Relies on sha2's `Digest::update`: feeding bytes appends them to the
/// absorbed stream, independently of how the stream is split into calls.
#[verifier::external_body]
fn sha256_update(h: &mut sha2::Sha256, chunk: &[u8])
    ensures
        absorbed(*final(h)) == absorbed(*old(h)) + chunk@,
{
    <sha2::Sha256 as sha2::Digest>::update(h, chunk);
}

/// Relies on sha2's `Digest::finalize`: the output is the 32-byte SHA-256
/// digest of exactly the absorbed bytes.
#[verifier::external_body]
fn sha256_finish(h: sha2::Sha256) -> (d: Vec<u8>)
    ensures
        d@ == sha256_of(absorbed(h)),
        d@.len() == 32,
{
    <sha2::Sha256 as sha2::Digest>::finalize(h).to_vec()
}

/// An incremental content hasher. Feeding a stream in chunks absorbs their
/// concatenation, so the digest depends on the byte stream alone, never on
/// how the reader chunked it; this bounds peak memory whatever the file
/// size.
pub struct ContentHasher {
    h: sha2::Sha256,
}

impl ContentHasher {
    /// The bytes fed so far.
    pub closed spec fn absorbed_bytes(&self) -> Seq<u8> {
        absorbed(self.h)
    }

    /// A hasher that has absorbed nothing.
    pub fn new() -> (r: Self)
        ensures
            r.absorbed_bytes() == Seq::<u8>::empty(),
    {
        ContentHasher { h: sha256_new() }
    }

    /// Feeds one chunk of the stream.
    pub fn update(&mut self, chunk: &[u8])
        ensures
            final(self).absorbed_bytes() == old(self).absorbed_bytes() + chunk@,
    {
        sha256_update(&mut self.h, chunk);
    }

    /// The 32-byte digest of everything absorbed.
    pub fn finish(self) -> (d: Vec<u8>)
        ensures
            d@ == sha256_of(self.absorbed_bytes()),
            d@.len() == 32,
    {
        sha256_finish(self.h)
    }

    /// The digest of everything absorbed, as a lower-case hex string.
    pub fn finish_hex(self) -> (r: String)
        ensures
            r@ == digest_of(self.absorbed_bytes()),
    {
        let digest = self.finish();
        to_hex(digest.as_slice())
    }
}

/// Digest of a whole byte stream, fed to the hasher in bounded-size chunks.
/// The result does not depend on how the stream is chunked.
pub fn hash_bytes(data: &[u8]) -> (d: Vec<u8>)
    ensures
        d@ == sha256_of(data@),
        d@.len() == 32,
{
    let mut h = ContentHasher::new();
    let mut i: usize = 0;
    while i < data.len()
        invariant
            i <= data@.len(),
            h.absorbed_bytes() == data@.take(i as int),
        decreases data@.len() - i,
    {
        let end = if data.len() - i < 1024 {
            data.len()
        } else {
            i + 1024
        };
        let chunk = slice_subrange(data, i, end);
        h.update(chunk);
        proof {
            assert(data@.take(end as int) =~= data@.take(i as int) + data@.subrange(
                i as int,
                end as int,
            ));
        }
        i = end;
    }
    proof {
        assert(data@.take(data@.len() as int) =~= data@);
    }
    h.finish()
}

/// Hashing is deterministic: the digest depends on the byte content alone,
/// never on a file's name, path, or the moment of the call.
pub proof fn lemma_hash_deterministic(a: Seq<u8>, b: Seq<u8>)
    requires
        a == b,
    ensures
        sha256_of(a) == sha256_of(b),
{
}

/// The lower-case hex character for a value below 16.
pub open spec fn hex_digit(n: u8) -> char
    recommends
        n < 16,
{
    if n < 10 {
        (('0' as u8) + n) as char
    } else {
        (('a' as u8) + (n - 10)) as char
    }
}

/// The lower-case hex encoding of a byte sequence: two characters per byte,
/// high nibble first.
pub open spec fn hex_of(data: Seq<u8>) -> Seq<char>
    decreases data.len(),
{
    if data.len() == 0 {
        Seq::empty()
    } else {
        hex_of(data.drop_last()) + seq![
            hex_digit(data.last() / 16),
            hex_digit(data.last() % 16),
        ]
    }
}

/// The digest of a byte stream, rendered as the lower-case hex string that
/// identifies a group of identical files.
pub open spec fn digest_of(data: Seq<u8>) -> Seq<char> {
    hex_of(sha256_of(data))
}

/// Relies on std's `String::push`: appends one character.
#[verifier::external_body]
fn push_char(s: &mut String, c: char)
    ensures
        final(s)@ == old(s)@ + seq![c],
{
    s.push(c);
}

fn hex_char(n: u8) -> (c: char)
    requires
        n < 16,
    ensures
        c == hex_digit(n),
{
    if n < 10 {
        (('0' as u8) + n) as char
    } else {
        (('a' as u8) + (n - 10)) as char
    }
}

/// Lower-case hex rendering of a byte string.
pub fn to_hex(data: &[u8]) -> (r: String)
    ensures
        r@ == hex_of(data@),
{
    let mut r = String::new();
    let mut i: usize = 0;
    while i < data.len()
        invariant
            i <= data@.len(),
            r@ == hex_of(data@.take(i as int)),
        decreases data@.len() - i,
    {
        let b = data[i];
        let hi = hex_char(b / 16);
        let lo = hex_char(b % 16);
        push_char(&mut r, hi);
        push_char(&mut r, lo);
        proof {
            assert(data@.take(i + 1).drop_last() =~= data@.take(i as int));
            assert(data@.take(i + 1).last() == data@[i as int]);
        }
        i = i + 1;
    }
    proof {
        assert(data@.take(data@.len() as int) =~= data@);
    }
    r
}

/// The content digest as the scan records it: the SHA-256 digest of the
/// bytes, as a lower-case hex string.
pub fn hash_content(data: &[u8]) -> (r: String)
    ensures
        r@ == digest_of(data@),
{
    let digest = hash_bytes(data);
    to_hex(digest.as_slice())
}

} // verus!
