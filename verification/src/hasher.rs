//! The streaming content hasher.
//!
//! A `ContentHasher` accumulates a file's bytes chunk by chunk, so the
//! caller can read a file of any size through a bounded buffer, and
//! finally renders the SHA-256 digest of everything fed as a lowercase
//! hexadecimal fingerprint of 64 characters. The digest itself is
//! computed by the `sha2` crate and is named, not restated, here: two
//! equal byte sequences get equal fingerprints because `sha256_of` is a
//! function of the bytes alone.

use vstd::prelude::*;

verus! {

/// The SHA-256 digest (32 bytes) of a byte sequence, as the `sha2`
/// crate computes it. The digest depends on the bytes alone.
pub uninterp spec fn sha256_of(bytes: Seq<u8>) -> Seq<u8>;

/// Streaming SHA-256 state of the `sha2` crate, opaque to the verifier;
/// `ContentHasher` keeps beside it the ghost sequence of bytes fed.
#[verifier::external_body]
struct DigestState {
    inner: sha2::Sha256,
}

impl DigestState {
    /// Relies on `sha2::Sha256::new` (through the `Digest` trait): a
    /// fresh digest state over no bytes.
    #[verifier::external_body]
    fn fresh() -> DigestState {
        DigestState { inner: <sha2::Sha256 as sha2::Digest>::new() }
    }

    /// Relies on `sha2::Sha256::update` (through the `Digest` trait):
    /// feeds one chunk of bytes to the digest state.
    #[verifier::external_body]
    fn feed(&mut self, chunk: &[u8]) {
        <sha2::Sha256 as sha2::Digest>::update(&mut self.inner, chunk);
    }
}

/// Accumulates a file's content chunk by chunk and fingerprints it.
pub struct ContentHasher {
    state: DigestState,
    fed: Ghost<Seq<u8>>,
}

/// The lowercase hexadecimal digit for a value below 16.
pub open spec fn hex_digit(n: int) -> char {
    if n == 0 {
        '0'
    } else if n == 1 {
        '1'
    } else if n == 2 {
        '2'
    } else if n == 3 {
        '3'
    } else if n == 4 {
        '4'
    } else if n == 5 {
        '5'
    } else if n == 6 {
        '6'
    } else if n == 7 {
        '7'
    } else if n == 8 {
        '8'
    } else if n == 9 {
        '9'
    } else if n == 10 {
        'a'
    } else if n == 11 {
        'b'
    } else if n == 12 {
        'c'
    } else if n == 13 {
        'd'
    } else if n == 14 {
        'e'
    } else {
        'f'
    }
}

/// Lowercase hexadecimal rendering of a byte sequence: two digits per
/// byte, high nibble first.
pub open spec fn hex_of(bytes: Seq<u8>) -> Seq<char>
    decreases bytes.len(),
{
    if bytes.len() == 0 {
        Seq::empty()
    } else {
        hex_of(bytes.drop_last()).push(hex_digit((bytes.last() / 16) as int)).push(
            hex_digit((bytes.last() % 16) as int),
        )
    }
}

/// The content fingerprint of a byte sequence: the lowercase
/// hexadecimal rendering of its SHA-256 digest.
pub open spec fn fingerprint_of(content: Seq<u8>) -> Seq<char> {
    hex_of(sha256_of(content))
}

/// Fingerprint correctness, the provable half: the fingerprint is a
/// function of the content bytes alone, so two files with
/// byte-identical content — whatever their size, and however the
/// bytes were split into chunks — carry the same fingerprint. That
/// distinct contents give distinct fingerprints is the collision
/// resistance of SHA-256, which is not stated here.
pub proof fn lemma_fingerprint_deterministic(content_a: Seq<u8>, content_b: Seq<u8>)
    requires
        content_a == content_b,
    ensures
        fingerprint_of(content_a) == fingerprint_of(content_b),
{
}

/// Relies on `String::push`: appends one character to the string.
#[verifier::external_body]
fn push_char(s: &mut String, c: char)
    ensures
        final(s)@ == old(s)@.push(c),
{
    s.push(c);
}

/// One lowercase hexadecimal digit as a character.
fn hex_digit_char(n: u8) -> (r: char)
    requires
        n < 16,
    ensures
        r == hex_digit(n as int),
{
    match n {
        0 => '0',
        1 => '1',
        2 => '2',
        3 => '3',
        4 => '4',
        5 => '5',
        6 => '6',
        7 => '7',
        8 => '8',
        9 => '9',
        10 => 'a',
        11 => 'b',
        12 => 'c',
        13 => 'd',
        14 => 'e',
        _ => 'f',
    }
}

/// Renders bytes as lowercase hexadecimal, two digits per byte.
pub fn to_hex(bytes: &Vec<u8>) -> (r: String)
    ensures
        r@ == hex_of(bytes@),
        r@.len() == 2 * bytes@.len(),
{
    let mut out = String::new();
    let n = bytes.len();
    for i in 0..n
        invariant
            n == bytes@.len(),
            out@ == hex_of(bytes@.take(i as int)),
            out@.len() == 2 * i,
    {
        proof {
            assert(bytes@.take(i + 1).drop_last() =~= bytes@.take(i as int));
            assert(bytes@.take(i + 1).last() == bytes@[i as int]);
        }
        let b = bytes[i];
        push_char(&mut out, hex_digit_char(b / 16));
        push_char(&mut out, hex_digit_char(b % 16));
    }
    proof {
        assert(bytes@.take(n as int) =~= bytes@);
    }
    out
}

impl ContentHasher {
    /// The byte sequence fed so far.
    pub closed spec fn bytes(&self) -> Seq<u8> {
        self.fed@
    }

    /// A fresh hasher over no bytes.
    pub fn new() -> (h: ContentHasher)
        ensures
            h.bytes() == Seq::<u8>::empty(),
    {
        ContentHasher { state: DigestState::fresh(), fed: Ghost(Seq::empty()) }
    }

    /// Feeds one chunk; the hasher then stands over the bytes so far
    /// followed by the chunk.
    pub fn update(&mut self, chunk: &[u8])
        ensures
            final(self).bytes() == old(self).bytes() + chunk@,
    {
        let ghost fed = self.fed@ + chunk@;
        self.state.feed(chunk);
        self.fed = Ghost(fed);
    }

    /// Relies on `sha2::Sha256::finalize` (through the `Digest` trait):
    /// returns the 32-byte SHA-256 digest of all bytes fed, a function
    /// of those bytes alone.
    #[verifier::external_body]
    fn finalize_digest(self) -> (r: Vec<u8>)
        ensures
            r@ == sha256_of(self.bytes()),
            r@.len() == 32,
    {
        <sha2::Sha256 as sha2::Digest>::finalize(self.state.inner).to_vec()
    }

    /// Finishes the hash: the fingerprint of everything fed, as 64
    /// lowercase hexadecimal characters.
    pub fn finalize_hex(self) -> (r: String)
        ensures
            r@ == fingerprint_of(self.bytes()),
            r@.len() == 64,
    {
        let digest = self.finalize_digest();
        to_hex(&digest)
    }
}

} // verus!
