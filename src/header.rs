use vstd::prelude::*;
use crate::bytes::{be32, u32_at, read_be32, push_be32};
use crate::error::{DecodeError, ErrorKind, Component, fail};

verus! {

/// Length in bytes of the header that starts every index.
pub const HEADER_LEN: usize = 12;

/// The four bytes `DIRC` that open every index.
pub open spec fn magic() -> Seq<u8> {
    seq![0x44u8, 0x49u8, 0x52u8, 0x43u8]
}

/// Whether `v` is one of the supported format versions 2, 3 and 4.
pub open spec fn supported_version(v: int) -> bool {
    2 <= v <= 4
}

/// The index header: the format version and the number of entries.
#[derive(Debug, Clone, Copy, PartialEq, Eq, Structural)]
pub struct IndexHeader {
    /// Format version.
    pub version: u32,
    /// Number of entries that follow the header.
    pub index_entries: u32,
}

impl IndexHeader {
    pub open spec fn wf(&self) -> bool {
        supported_version(self.version as int)
    }
}

/// The 12 bytes that encode a header.
pub open spec fn header_image(h: IndexHeader) -> Seq<u8> {
    magic() + be32(h.version) + be32(h.index_entries)
}

/// Header `h`, well formed, opens `s`.
pub open spec fn header_at(s: Seq<u8>, h: IndexHeader) -> bool {
    h.wf() && 12 <= s.len() && s.subrange(0, 12) == header_image(h)
}

/// The error that `parse_header` reports on `s`, if any: each field is
/// judged as soon as its bytes are there.
pub open spec fn header_error(s: Seq<u8>) -> Option<ErrorKind> {
    if s.len() < 4 {
        Some(ErrorKind::TruncatedInput)
    } else if s.subrange(0, 4) != magic() {
        Some(ErrorKind::InvalidMagic)
    } else if s.len() < 8 {
        Some(ErrorKind::TruncatedInput)
    } else if !supported_version(u32_at(s, 4)) {
        Some(ErrorKind::UnsupportedVersion)
    } else if s.len() < 12 {
        Some(ErrorKind::TruncatedInput)
    } else {
        None
    }
}

/// The offset at which an error of `kind` is reported for `s`: the end of a
/// truncated input, the magic at 0, the version at 4.
pub open spec fn header_error_offset(s: Seq<u8>, kind: ErrorKind) -> int {
    match kind {
        ErrorKind::InvalidMagic => 0,
        ErrorKind::UnsupportedVersion => 4,
        _ => s.len() as int,
    }
}

/// Returns the magic bytes `DIRC`.
pub fn magic_bytes() -> (r: Vec<u8>)
    ensures
        r@ == magic(),
{
    let r = vec![0x44u8, 0x49u8, 0x52u8, 0x43u8];
    assert(r@ =~= magic());
    r
}

/// Decodes the header at the start of `input`; on success the header spans
/// exactly `HEADER_LEN` bytes.
pub fn parse_header(input: &[u8]) -> (r: Result<IndexHeader, DecodeError>)
    ensures
        r is Ok <==> header_error(input@) is None,
        r is Err ==> Some(r->Err_0.kind) == header_error(input@)
            && r->Err_0.component == Component::Header
            && r->Err_0.offset == header_error_offset(input@, r->Err_0.kind),
        r is Ok ==> r->Ok_0.wf() && input@.subrange(0, 12) == header_image(r->Ok_0)
            && r->Ok_0.version == u32_at(input@, 4) && r->Ok_0.index_entries == u32_at(input@, 8),
        forall|h2: IndexHeader| #[trigger] header_at(input@, h2) ==> r == Ok::<IndexHeader, DecodeError>(h2),
{
    if input.len() < 4 {
        assert forall|h2: IndexHeader| #[trigger] header_at(input@, h2) implies false by {}
        return fail(ErrorKind::TruncatedInput, Component::Header, input.len());
    }
    assert forall|h2: IndexHeader| #[trigger] header_at(input@, h2) implies 12 <= input@.len()
        && input@.subrange(0, 4) == magic()
        && input@.subrange(4, 8) == be32(h2.version) && input@.subrange(8, 12) == be32(h2.index_entries) by {
        let img = header_image(h2);
        crate::bytes::lemma_sub_sub(input@, 0, img, 0, 4);
        crate::bytes::lemma_sub_sub(input@, 0, img, 4, 8);
        crate::bytes::lemma_sub_sub(input@, 0, img, 8, 12);
        assert(img.subrange(0, 4) =~= magic());
        assert(img.subrange(4, 8) =~= be32(h2.version));
        assert(img.subrange(8, 12) =~= be32(h2.index_entries));
    }
    if !(input[0] == 0x44u8 && input[1] == 0x49u8 && input[2] == 0x52u8 && input[3] == 0x43u8) {
        assert(input@.subrange(0, 4) != magic()) by {
            if input@.subrange(0, 4) == magic() {
                assert(input@[0] == input@.subrange(0, 4)[0]);
                assert(input@[1] == input@.subrange(0, 4)[1]);
                assert(input@[2] == input@.subrange(0, 4)[2]);
                assert(input@[3] == input@.subrange(0, 4)[3]);
            }
        }
        return fail(ErrorKind::InvalidMagic, Component::Header, 0);
    }
    assert(input@.subrange(0, 4) =~= magic());
    if input.len() < 8 {
        return fail(ErrorKind::TruncatedInput, Component::Header, input.len());
    }
    let version = read_be32(input, 4);
    assert forall|h2: IndexHeader| #[trigger] header_at(input@, h2) implies version == h2.version by {
        crate::bytes::lemma_be32_injective(version, h2.version);
    }
    if version < 2 || version > 4 {
        return fail(ErrorKind::UnsupportedVersion, Component::Header, 4);
    }
    if input.len() < HEADER_LEN {
        return fail(ErrorKind::TruncatedInput, Component::Header, input.len());
    }
    let index_entries = read_be32(input, 8);
    let h = IndexHeader { version, index_entries };
    assert(input@.subrange(0, 12) =~= input@.subrange(0, 4) + input@.subrange(4, 8)
        + input@.subrange(8, 12));
    assert forall|h2: IndexHeader| #[trigger] header_at(input@, h2) implies h == h2 by {
        crate::bytes::lemma_be32_injective(index_entries, h2.index_entries);
    }
    Ok(h)
}

/// Appends the encoding of `h` to `out`.
pub fn encode_header(h: &IndexHeader, out: &mut Vec<u8>)
    ensures
        final(out)@ == old(out)@ + header_image(*h),
{
    out.push(0x44u8);
    out.push(0x49u8);
    out.push(0x52u8);
    out.push(0x43u8);
    assert(out@ =~= old(out)@ + magic());
    push_be32(out, h.version);
    push_be32(out, h.index_entries);
    assert(out@ =~= old(out)@ + header_image(*h));
}

} // verus!
