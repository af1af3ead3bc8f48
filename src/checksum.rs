use vstd::prelude::*;

verus! {

/// Width in bytes of the trailing checksum.
pub const CHECKSUM_LEN: usize = 20;

/// The SHA-1 digest of `data`.
pub uninterp spec fn sha1_of(data: Seq<u8>) -> Seq<u8>;

/// Relies on `sha1_smol::Sha1::from` and `Digest::bytes`: the 20-byte SHA-1
/// digest of `data`, which depends on `data` alone.
#[verifier::external_body]
pub(crate) fn sha1_digest(data: &[u8]) -> (r: Vec<u8>)
    ensures
        r@ == sha1_of(data@),
        r@.len() == 20,
{
    sha1_smol::Sha1::from(data).digest().bytes().to_vec()
}

/// Whether `input` ends, from `body_end` on, with exactly the bytes of `digest`.
pub fn checksum_matches(digest: &[u8], input: &[u8], body_end: usize) -> (r: bool)
    requires
        body_end <= input@.len(),
    ensures
        r == (input@.subrange(body_end as int, input@.len() as int) == digest@),
{
    if input.len() - body_end != digest.len() {
        assert(input@.subrange(body_end as int, input@.len() as int).len() != digest@.len());
        return false;
    }
    let n = input.len();
    let mut i: usize = 0;
    while i < digest.len()
        invariant
            n == input@.len(),
            i <= digest@.len(),
            body_end + digest@.len() == input@.len(),
            body_end <= input@.len(),
            forall|j: int| 0 <= j < i ==> input@[body_end + j] == digest@[j],
        decreases digest@.len() - i,
    {
        if input[body_end + i] != digest[i] {
            assert(input@.subrange(body_end as int, input@.len() as int)[i as int] != digest@[i as int]);
            return false;
        }
        i = i + 1;
    }
    assert(input@.subrange(body_end as int, input@.len() as int) =~= digest@);
    true
}

/// The SHA-1 digest of `buf[0 .. end]`.
pub fn digest_prefix(buf: &[u8], end: usize) -> (r: Vec<u8>)
    requires
        end <= buf@.len(),
    ensures
        r@ == sha1_of(buf@.subrange(0, end as int)),
        r@.len() == 20,
{
    let body = crate::bytes::copy_range(buf, 0, end);
    sha1_digest(body.as_slice())
}

} // verus!
