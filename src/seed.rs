use vstd::prelude::*;
use rand_core::{RngCore, SeedableRng};

verus! {

/// Number of bytes in a seed.
pub const SEED_SIZE: usize = 32;

/// A lowercase or uppercase hexadecimal digit.
pub open spec fn is_hex_digit(c: char) -> bool {
    ('0' <= c && c <= '9') || ('a' <= c && c <= 'f') || ('A' <= c && c <= 'F')
}

/// The value of a hexadecimal digit.
pub open spec fn hex_value(c: char) -> int {
    if '0' <= c && c <= '9' {
        (c as int) - ('0' as int)
    } else if 'a' <= c && c <= 'f' {
        (c as int) - ('a' as int) + 10
    } else {
        (c as int) - ('A' as int) + 10
    }
}

/// The lowercase digit of a value below 16.
pub open spec fn hex_digit(n: int) -> char {
    if n < 10 {
        ((n + ('0' as int)) as u32) as char
    } else {
        ((n - 10 + ('a' as int)) as u32) as char
    }
}

/// Lowercase hexadecimal text of a byte string: two digits per byte, high nibble first.
pub open spec fn hex_of(b: Seq<u8>) -> Seq<char> {
    Seq::new(
        2 * b.len(),
        |i: int|
            if i % 2 == 0 {
                hex_digit(b[i / 2] as int / 16)
            } else {
                hex_digit(b[i / 2] as int % 16)
            },
    )
}

/// Text made of an even number of hexadecimal digits.
pub open spec fn is_hex_text(s: Seq<char>) -> bool {
    &&& s.len() % 2 == 0
    &&& forall|i: int| 0 <= i < s.len() ==> is_hex_digit(#[trigger] s[i])
}

/// The bytes that hexadecimal text stands for.
pub open spec fn bytes_of_hex(s: Seq<char>) -> Seq<u8> {
    Seq::new(s.len() / 2, |i: int| (hex_value(s[2 * i]) * 16 + hex_value(s[2 * i + 1])) as u8)
}

/// Relies on hex::encode: two lowercase digits per byte, high nibble first.
#[verifier::external_body]
fn hex_encode(b: &Vec<u8>) -> (r: String)
    ensures
        r@ == hex_of(b@),
{
    hex::encode(b)
}

#[verifier::external_type_specification]
#[verifier::external_body]
pub struct ExFromHexError(hex::FromHexError);

/// Relies on hex::decode: it fails on an odd length or a byte that is not a
/// digit of either case, and otherwise gives one byte per pair of digits.
#[verifier::external_body]
fn hex_decode(s: &str) -> (r: Result<Vec<u8>, hex::FromHexError>)
    ensures
        r is Ok <==> is_hex_text(s@),
        r matches Ok(v) ==> v@ == bytes_of_hex(s@),
{
    hex::decode(s)
}

#[verifier::external_type_specification]
#[verifier::external_body]
pub struct ExRandError(rand_core::Error);

/// Relies on rand_core's OsRng::try_fill_bytes: on success the buffer keeps its length.
#[verifier::external_body]
fn os_try_fill(buf: &mut Vec<u8>) -> (r: Result<(), rand_core::Error>)
    ensures
        final(buf)@.len() == old(buf)@.len(),
{
    rand_core::OsRng.try_fill_bytes(buf.as_mut_slice())
}

#[verifier::external_type_specification]
#[verifier::external_body]
pub struct ExChaChaRng(rand_chacha::ChaChaRng);

/// Relies on rand_chacha's ChaChaRng::from_seed, which takes a 32-byte key.
#[verifier::external_body]
fn chacha_from_seed(bytes: &Vec<u8>) -> (r: rand_chacha::ChaChaRng)
    requires
        bytes@.len() == 32,
{
    let mut key = [0u8; 32];
    key.copy_from_slice(bytes);
    rand_chacha::ChaChaRng::from_seed(key)
}

/// Why a seed could not be read from text.
#[derive(Debug, Clone, Copy, PartialEq, Eq)]
pub enum SeedError {
    /// The text is not made of pairs of hexadecimal digits.
    InvalidHex,
    /// The text is hexadecimal but does not hold exactly one seed.
    InvalidLength,
}

/// Secret bytes from which an identity is derived.
pub struct Seed {
    bytes: Vec<u8>,
}

impl Seed {
    pub closed spec fn view(&self) -> Seq<u8> {
        self.bytes@
    }

    /// A seed always holds exactly `SEED_SIZE` bytes.
    pub open spec fn wf(&self) -> bool {
        self@.len() == SEED_SIZE
    }

    /// Generates a fresh seed from the operating system's entropy source,
    /// or returns that source's error.
    pub fn try_random() -> (r: Result<Seed, rand_core::Error>)
        ensures
            r matches Ok(s) ==> s.wf(),
    {
        let mut bytes: Vec<u8> = vec![0u8; SEED_SIZE];
        match os_try_fill(&mut bytes) {
            Ok(()) => Ok(Seed { bytes }),
            Err(e) => Err(e),
        }
    }

    /// Generates a fresh seed from the operating system's entropy source.
    /// A missing entropy source is reported to the caller, never retried.
    pub fn random() -> (r: Result<Seed, rand_core::Error>)
        ensures
            r matches Ok(s) ==> s.wf(),
    {
        Seed::try_random()
    }

    /// A seed holding the given bytes, if there are exactly `SEED_SIZE` of them.
    pub fn from_bytes(bytes: Vec<u8>) -> (r: Option<Seed>)
        ensures
            r is Some <==> bytes@.len() == SEED_SIZE,
            r matches Some(s) ==> s@ == bytes@ && s.wf(),
    {
        if bytes.len() == SEED_SIZE {
            Some(Seed { bytes })
        } else {
            None
        }
    }

    /// The seed's bytes.
    pub fn as_bytes(&self) -> (r: &Vec<u8>)
        ensures
            r@ == self@,
    {
        &self.bytes
    }

    /// Lowercase hexadecimal text of the seed.
    pub fn to_hex(&self) -> (r: String)
        ensures
            r@ == hex_of(self@),
    {
        hex_encode(&self.bytes)
    }

    /// Reads a seed from hexadecimal text of exactly `2 * SEED_SIZE` digits.
    pub fn from_hex(s: &str) -> (r: Result<Seed, SeedError>)
        ensures
            r matches Ok(seed) ==> seed.wf() && seed@ == bytes_of_hex(s@),
            r is Ok <==> is_hex_text(s@) && s@.len() == 2 * SEED_SIZE,
            r == Err::<Seed, SeedError>(SeedError::InvalidHex) <==> !is_hex_text(s@),
    {
        match hex_decode(s) {
            Err(_) => Err(SeedError::InvalidHex),
            Ok(bytes) => {
                if bytes.len() == SEED_SIZE {
                    Ok(Seed { bytes })
                } else {
                    Err(SeedError::InvalidLength)
                }
            },
        }
    }

    /// A ChaCha generator keyed with the seed, which cannot fail to give
    /// random numbers; the same seed gives the same numbers.
    pub fn into_cha_cha_rng(self) -> (r: rand_chacha::ChaChaRng)
        requires
            self.wf(),
    {
        chacha_from_seed(&self.bytes)
    }

    /// Copies the seed.
    pub fn duplicate(&self) -> (r: Seed)
        ensures
            r@ == self@,
    {
        Seed { bytes: self.bytes.clone() }
    }
}

/// Relies on keynesis' memsec::Scrubbed::scrub for byte vectors, which
/// zeroes each byte in place and keeps the length.
#[verifier::external_body]
fn scrub(bytes: &mut Vec<u8>)
    ensures
        final(bytes)@.len() == old(bytes)@.len(),
        forall|i: int| 0 <= i < final(bytes)@.len() ==> final(bytes)@[i] == 0,
    opens_invariants none
    no_unwind
{
    keynesis::memsec::Scrubbed::scrub(bytes)
}

impl Drop for Seed {
    /// The secret bytes are zeroed before the memory is released.
    fn drop(&mut self)
        opens_invariants none
        no_unwind
    {
        scrub(&mut self.bytes);
    }
}

impl std::str::FromStr for Seed {
    type Err = SeedError;

    fn from_str(s: &str) -> Result<Seed, SeedError> {
        Seed::from_hex(s)
    }
}

/// Decoding the text of a seed gives back its bytes.
pub proof fn lemma_hex_round_trip(b: Seq<u8>)
    ensures
        is_hex_text(hex_of(b)),
        bytes_of_hex(hex_of(b)) == b,
{
    let h = hex_of(b);
    assert forall|i: int| 0 <= i < h.len() implies is_hex_digit(#[trigger] h[i]) by {
        let v = b[i / 2] as int;
        assert(0 <= v / 16 < 16 && 0 <= v % 16 < 16);
    }
    assert forall|i: int| 0 <= i < b.len() implies #[trigger] bytes_of_hex(h)[i] == b[i] by {
        let v = b[i] as int;
        assert((2 * i) / 2 == i);
        assert((2 * i + 1) / 2 == i);
        assert((2 * i) % 2 == 0);
        assert((2 * i + 1) % 2 == 1);
        assert(hex_value(hex_digit(v / 16)) == v / 16);
        assert(hex_value(hex_digit(v % 16)) == v % 16);
    }
    assert(bytes_of_hex(h) =~= b);
}

} // verus!
