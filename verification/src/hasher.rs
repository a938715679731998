//! Content fingerprinting: an MD5 digest streamed chunk by chunk, rendered
//! as lowercase hex. The digest itself comes from the `md5` crate behind
//! trusted declarations; the hex rendering is verified against an exact
//! specification.

use md5::Digest;
use vstd::prelude::*;
use crate::strings::push_char;

verus! {

#[verifier::external_type_specification]
#[verifier::external_body]
pub struct ExMd5(md5::Md5);

/// The 16-byte MD5 digest of a byte sequence, a function of those bytes
/// alone; named here, never respecified.
pub uninterp spec fn md5_digest(bytes: Seq<u8>) -> Seq<u8>;

/// The lowercase-hex digit for a value below sixteen.
pub open spec fn hex_digit(n: u8) -> char {
    seq!['0', '1', '2', '3', '4', '5', '6', '7', '8', '9', 'a', 'b', 'c', 'd', 'e', 'f'][n as int]
}

/// The lowercase-hex rendering of a byte sequence: two digits per byte,
/// high nibble first.
pub open spec fn hex_lower(bytes: Seq<u8>) -> Seq<char>
    decreases bytes.len(),
{
    if bytes.len() == 0 {
        Seq::empty()
    } else {
        seq![hex_digit(bytes[0] / 16), hex_digit(bytes[0] % 16)] + hex_lower(bytes.drop_first())
    }
}

fn hex_digit_char(n: u8) -> (c: char)
    requires
        n < 16,
    ensures
        c == hex_digit(n),
{
    if n == 0 {
        '0'
    } else if n == 1 {
        '1'
    } else if n == 2 {
        '2'
    } else if n == 3 {
        '3'
    } else if n == 4 {
        '4'
    } else if n == 5 {
        '5'
    } else if n == 6 {
        '6'
    } else if n == 7 {
        '7'
    } else if n == 8 {
        '8'
    } else if n == 9 {
        '9'
    } else if n == 10 {
        'a'
    } else if n == 11 {
        'b'
    } else if n == 12 {
        'c'
    } else if n == 13 {
        'd'
    } else if n == 14 {
        'e'
    } else {
        'f'
    }
}

/// Renders `bytes` as lowercase hex, two digits per byte.
pub fn to_hex_lower(bytes: &Vec<u8>) -> (s: String)
    ensures
        s@ == hex_lower(bytes@),
{
    let ghost bv = bytes@;
    let n = bytes.len();
    let mut s = String::new();
    let mut i: usize = 0;
    proof {
        assert(bv.skip(0) =~= bv);
    }
    while i < n
        invariant
            i <= n,
            n == bv.len(),
            bv == bytes@,
            hex_lower(bv) == s@ + hex_lower(bv.skip(i as int)),
        decreases n - i,
    {
        let ghost rest = bv.skip(i as int);
        proof {
            assert(rest.len() == n - i);
            assert(rest[0] == bv[i as int]);
            assert(rest.drop_first() =~= bv.skip(i + 1));
        }
        let b = bytes[i];
        let ghost s0 = s@;
        push_char(&mut s, hex_digit_char(b / 16));
        push_char(&mut s, hex_digit_char(b % 16));
        proof {
            assert(hex_lower(rest) == seq![hex_digit(b / 16), hex_digit(b % 16)] + hex_lower(
                rest.drop_first(),
            ));
            assert(s0 + hex_lower(rest) =~= s@ + hex_lower(rest.drop_first()));
        }
        i = i + 1;
    }
    proof {
        assert(bv.skip(n as int) =~= Seq::<u8>::empty());
        assert(hex_lower(Seq::<u8>::empty()) =~= Seq::<char>::empty());
        assert(s@ + Seq::<char>::empty() =~= s@);
    }
    s
}

/// Streams a file's bytes through an MD5 fingerprint without holding the
/// whole content; the caller feeds chunks of any size.
pub struct ContentHasher {
    inner: md5::Md5,
    fed: Ghost<Seq<u8>>,
}

impl ContentHasher {
    /// Everything fed so far.
    pub closed spec fn fed(&self) -> Seq<u8> {
        self.fed@
    }

    /// Relies on the `md5` crate's `Md5::new` (the `Digest` trait): a fresh
    /// hasher state that has absorbed nothing.
    #[verifier::external_body]
    pub fn new() -> (h: ContentHasher)
        ensures
            h.fed() == Seq::<u8>::empty(),
    {
        ContentHasher { inner: <md5::Md5 as md5::Digest>::new(), fed: Ghost(Seq::empty()) }
    }

    /// Relies on the `md5` crate's `Md5::update` (the `Digest` trait):
    /// absorbs `chunk` after everything fed before.
    #[verifier::external_body]
    pub fn update(&mut self, chunk: &[u8])
        ensures
            final(self).fed() == old(self).fed() + chunk@,
    {
        self.inner.update(chunk);
    }

    /// Relies on the `md5` crate's `Md5::finalize` (the `Digest` trait): the
    /// MD5 digest of everything fed, a function of those bytes alone, named
    /// `md5_digest`.
    #[verifier::external_body]
    fn finalize_bytes(self) -> (d: Vec<u8>)
        ensures
            d@ == md5_digest(self.fed()),
    {
        self.inner.finalize().as_slice().to_vec()
    }

    /// The lowercase-hex rendering of the digest of everything fed: the
    /// content fingerprint the reconciliation compares.
    pub fn finalize_hex(self) -> (s: String)
        ensures
            s@ == hex_lower(md5_digest(self.fed())),
    {
        let d = self.finalize_bytes();
        to_hex_lower(&d)
    }
}

} // verus!
