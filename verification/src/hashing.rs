use vstd::prelude::*;

verus! {

/// The 20-byte SHA-1 digest of a byte sequence. What the digest is on
/// given bytes only the hash implementation knows; the engine relies on
/// it being a function of the bytes alone.
pub uninterp spec fn sha1_of(data: Seq<u8>) -> Seq<u8>;

/// Relies on `sha1::Sha1` (RustCrypto) through `digest::Digest::digest`:
/// the 20-byte SHA-1 digest of the input, a function of the bytes alone.
#[verifier::external_body]
fn sha1_digest(data: &Vec<u8>) -> (r: Vec<u8>)
    ensures
        r@ == sha1_of(data@),
        r@.len() == 20,
{
    let d = <sha1::Sha1 as sha1::Digest>::digest(data.as_slice());
    AsRef::<[u8]>::as_ref(&d).to_vec()
}

/// The SHA-1 digest of a piece's bytes, for building descriptors and
/// verifying pieces.
pub fn hash_piece_data(data: &Vec<u8>) -> (r: Vec<u8>)
    ensures
        r@ == sha1_of(data@),
        r@.len() == 20,
{
    sha1_digest(data)
}

/// Whether two byte strings hold the same bytes.
pub fn bytes_equal(a: &Vec<u8>, b: &Vec<u8>) -> (r: bool)
    ensures
        r == (a@ == b@),
{
    if a.len() != b.len() {
        return false;
    }
    let n = a.len();
    let mut i: usize = 0;
    while i < n
        invariant
            n == a@.len(),
            n == b@.len(),
            0 <= i <= n,
            forall|j: int| 0 <= j < i ==> a@[j] == b@[j],
        decreases n - i,
    {
        if a[i] != b[i] {
            return false;
        }
        i = i + 1;
    }
    proof {
        assert(a@ =~= b@);
    }
    true
}

/// Whether a piece's bytes hash to the descriptor's expected digest for
/// that piece. This is the integrity gate: a piece is `Verified` only
/// when this returns true.
pub fn piece_hash_matches(data: &Vec<u8>, expected: &Vec<u8>) -> (r: bool)
    ensures
        r == (sha1_of(data@) == expected@),
{
    let digest = sha1_digest(data);
    bytes_equal(&digest, expected)
}

} // verus!
