use vstd::prelude::*;
use crate::bytes::{
    be16, be32, read_be16, read_be32, push_be16, push_be32, push_all, push_range, push_zeros, copy_range,
};
use crate::error::{DecodeError, ErrorKind, Component, fail};
use crate::path::{
    apply_strip, common_prefix, common_prefix_len, decode_path, first_nul, no_nul, push_varint,
    read_varint, varint, varint_at, varint_framed,
};

verus! {

/// Bytes of the fixed fields of an entry, without the extended flags.
pub const ENTRY_FIXED_LEN: usize = 62;

/// Bit of the flags word that announces the extended-flags word (version 3 and later).
pub const FLAG_EXTENDED: u16 = 0x4000;

/// Bits of the flags word that hold the path length.
pub const NAME_MASK: u16 = 0x0FFF;

/// Path-length value meaning "the path is at least this long; find its NUL".
pub const NAME_SENTINEL: u16 = 0x0FFF;

/// One staged file.
#[derive(Debug, Clone, PartialEq, Eq)]
pub struct IndexEntry {
    pub ctime_s: u32,
    pub ctime_ns: u32,
    pub mtime_s: u32,
    pub mtime_ns: u32,
    pub dev: u32,
    pub ino: u32,
    pub mode: u32,
    pub uid: u32,
    pub gid: u32,
    pub file_size: u32,
    /// The 20-byte object identifier.
    pub sha_1: Vec<u8>,
    pub flags: u16,
    /// Present exactly when the version is 3 or later and `flags` has the extended bit.
    pub extended_flags: Option<u16>,
    pub path: Vec<u8>,
}

/// Whether an entry with `flags` carries an extended-flags word in `version`.
pub open spec fn has_extended(version: u32, flags: u16) -> bool {
    version >= 3 && flags & 0x4000u16 != 0
}

impl IndexEntry {
    /// The path length recorded in the flags word.
    pub open spec fn name_len(&self) -> int {
        (self.flags & 0x0FFFu16) as int
    }

    pub open spec fn wf(&self, version: u32) -> bool {
        &&& self.sha_1@.len() == 20
        &&& no_nul(self.path@)
        &&& (self.extended_flags is Some <==> has_extended(version, self.flags))
        &&& (version < 4 ==> self.name_len() == 0x0FFF || self.name_len() == self.path@.len())
    }
}

/// Big-endian image of an optional 16-bit word: nothing when absent.
pub open spec fn opt_be16(x: Option<u16>) -> Seq<u8> {
    match x {
        Some(w) => be16(w),
        None => Seq::empty(),
    }
}

/// The ten 32-bit metadata words of an entry.
pub open spec fn words_image(e: IndexEntry) -> Seq<u8> {
    be32(e.ctime_s) + be32(e.ctime_ns) + be32(e.mtime_s) + be32(e.mtime_ns) + be32(e.dev)
        + be32(e.ino) + be32(e.mode) + be32(e.uid) + be32(e.gid) + be32(e.file_size)
}

/// The fixed-size leading fields of an entry.
#[verifier::opaque]
pub open spec fn fixed_image(e: IndexEntry) -> Seq<u8> {
    words_image(e) + e.sha_1@ + be16(e.flags) + opt_be16(e.extended_flags)
}

/// Number of NUL bytes that end a version 2/3 record whose other bytes number `n`.
pub open spec fn pad_len(n: int) -> int {
    8 - n % 8
}

pub open spec fn zeros(n: int) -> Seq<u8> {
    Seq::new(n as nat, |i: int| 0u8)
}

/// The bytes of entry `e` in `version`; in version 4 the path is written as
/// `strip` bytes to drop from `prev` and the suffix to append.
pub open spec fn entry_image(e: IndexEntry, version: u32, prev: Seq<u8>, strip: nat) -> Seq<u8> {
    if version < 4 {
        fixed_image(e) + e.path@ + zeros(pad_len(fixed_image(e).len() + e.path@.len() as int))
    } else {
        fixed_image(e) + varint(strip) + e.path@.subrange(prev.len() - strip, e.path@.len() as int)
            + seq![0u8]
    }
}

/// `bytes` encode `e` in `version`, with strip count `strip` in version 4.
pub open spec fn entry_encodes(
    e: IndexEntry,
    version: u32,
    prev: Seq<u8>,
    strip: nat,
    bytes: Seq<u8>,
) -> bool {
    &&& entry_image(e, version, prev, strip) == bytes
    &&& version >= 4 ==> strip <= prev.len() && e.path@ == apply_strip(
        prev,
        strip as int,
        e.path@.subrange(prev.len() - strip, e.path@.len() as int),
    )
}

/// The strip count that version 4 writes: what `prev` has beyond the longest
/// common prefix with `path`.
pub open spec fn standard_strip(prev: Seq<u8>, path: Seq<u8>) -> nat {
    (prev.len() - common_prefix_len(prev, path)) as nat
}

/// `a` and `b` agree on everything but the path.
pub open spec fn same_fixed(a: IndexEntry, b: IndexEntry) -> bool {
    &&& a.ctime_s == b.ctime_s
    &&& a.ctime_ns == b.ctime_ns
    &&& a.mtime_s == b.mtime_s
    &&& a.mtime_ns == b.mtime_ns
    &&& a.dev == b.dev
    &&& a.ino == b.ino
    &&& a.mode == b.mode
    &&& a.uid == b.uid
    &&& a.gid == b.gid
    &&& a.file_size == b.file_size
    &&& a.sha_1@ == b.sha_1@
    &&& a.flags == b.flags
    &&& a.extended_flags == b.extended_flags
}

/// `a` and `b` hold the same values.
pub open spec fn same_entry(a: IndexEntry, b: IndexEntry) -> bool {
    same_fixed(a, b) && a.path@ == b.path@
}

/// `e`'s fixed fields, well formed for `version`, stand at `pos` in `s`.
pub open spec fn fixed_at(s: Seq<u8>, pos: int, e: IndexEntry, version: u32) -> bool {
    &&& e.sha_1@.len() == 20
    &&& (e.extended_flags is Some <==> has_extended(version, e.flags))
    &&& 0 <= pos
    &&& pos + fixed_image(e).len() <= s.len()
    &&& s.subrange(pos, pos + fixed_image(e).len()) == fixed_image(e)
}

/// Where each field stands in the fixed image.
pub proof fn lemma_fixed_layout(e: IndexEntry)
    requires
        e.sha_1@.len() == 20,
    ensures
        fixed_image(e).len() == 62 + opt_be16(e.extended_flags).len(),
        fixed_image(e).subrange(0, 4) == be32(e.ctime_s),
        fixed_image(e).subrange(4, 8) == be32(e.ctime_ns),
        fixed_image(e).subrange(8, 12) == be32(e.mtime_s),
        fixed_image(e).subrange(12, 16) == be32(e.mtime_ns),
        fixed_image(e).subrange(16, 20) == be32(e.dev),
        fixed_image(e).subrange(20, 24) == be32(e.ino),
        fixed_image(e).subrange(24, 28) == be32(e.mode),
        fixed_image(e).subrange(28, 32) == be32(e.uid),
        fixed_image(e).subrange(32, 36) == be32(e.gid),
        fixed_image(e).subrange(36, 40) == be32(e.file_size),
        fixed_image(e).subrange(40, 60) == e.sha_1@,
        fixed_image(e).subrange(60, 62) == be16(e.flags),
        fixed_image(e).subrange(62, fixed_image(e).len() as int) == opt_be16(e.extended_flags),
{
    reveal(fixed_image);
    let f = fixed_image(e);
    assert(f.subrange(0, 4) =~= be32(e.ctime_s));
    assert(f.subrange(4, 8) =~= be32(e.ctime_ns));
    assert(f.subrange(8, 12) =~= be32(e.mtime_s));
    assert(f.subrange(12, 16) =~= be32(e.mtime_ns));
    assert(f.subrange(16, 20) =~= be32(e.dev));
    assert(f.subrange(20, 24) =~= be32(e.ino));
    assert(f.subrange(24, 28) =~= be32(e.mode));
    assert(f.subrange(28, 32) =~= be32(e.uid));
    assert(f.subrange(32, 36) =~= be32(e.gid));
    assert(f.subrange(36, 40) =~= be32(e.file_size));
    assert(f.subrange(40, 60) =~= e.sha_1@);
    assert(f.subrange(60, 62) =~= be16(e.flags));
    assert(f.subrange(62, f.len() as int) =~= opt_be16(e.extended_flags));
}

/// Two entries whose fixed images both stand at `pos` agree on their fixed fields.
pub proof fn lemma_fixed_injective(s: Seq<u8>, pos: int, a: IndexEntry, b: IndexEntry, version: u32)
    requires
        fixed_at(s, pos, a, version),
        fixed_at(s, pos, b, version),
    ensures
        same_fixed(a, b),
        fixed_image(a).len() == fixed_image(b).len(),
{
    lemma_fixed_layout(a);
    lemma_fixed_layout(b);
    let fa = fixed_image(a);
    let fb = fixed_image(b);
    crate::bytes::lemma_sub_sub(s, pos, fa, 0, 4);
    crate::bytes::lemma_sub_sub(s, pos, fb, 0, 4);
    crate::bytes::lemma_be32_injective(a.ctime_s, b.ctime_s);
    crate::bytes::lemma_sub_sub(s, pos, fa, 4, 8);
    crate::bytes::lemma_sub_sub(s, pos, fb, 4, 8);
    crate::bytes::lemma_be32_injective(a.ctime_ns, b.ctime_ns);
    crate::bytes::lemma_sub_sub(s, pos, fa, 8, 12);
    crate::bytes::lemma_sub_sub(s, pos, fb, 8, 12);
    crate::bytes::lemma_be32_injective(a.mtime_s, b.mtime_s);
    crate::bytes::lemma_sub_sub(s, pos, fa, 12, 16);
    crate::bytes::lemma_sub_sub(s, pos, fb, 12, 16);
    crate::bytes::lemma_be32_injective(a.mtime_ns, b.mtime_ns);
    crate::bytes::lemma_sub_sub(s, pos, fa, 16, 20);
    crate::bytes::lemma_sub_sub(s, pos, fb, 16, 20);
    crate::bytes::lemma_be32_injective(a.dev, b.dev);
    crate::bytes::lemma_sub_sub(s, pos, fa, 20, 24);
    crate::bytes::lemma_sub_sub(s, pos, fb, 20, 24);
    crate::bytes::lemma_be32_injective(a.ino, b.ino);
    crate::bytes::lemma_sub_sub(s, pos, fa, 24, 28);
    crate::bytes::lemma_sub_sub(s, pos, fb, 24, 28);
    crate::bytes::lemma_be32_injective(a.mode, b.mode);
    crate::bytes::lemma_sub_sub(s, pos, fa, 28, 32);
    crate::bytes::lemma_sub_sub(s, pos, fb, 28, 32);
    crate::bytes::lemma_be32_injective(a.uid, b.uid);
    crate::bytes::lemma_sub_sub(s, pos, fa, 32, 36);
    crate::bytes::lemma_sub_sub(s, pos, fb, 32, 36);
    crate::bytes::lemma_be32_injective(a.gid, b.gid);
    crate::bytes::lemma_sub_sub(s, pos, fa, 36, 40);
    crate::bytes::lemma_sub_sub(s, pos, fb, 36, 40);
    crate::bytes::lemma_be32_injective(a.file_size, b.file_size);
    crate::bytes::lemma_sub_sub(s, pos, fa, 40, 60);
    crate::bytes::lemma_sub_sub(s, pos, fb, 40, 60);
    crate::bytes::lemma_sub_sub(s, pos, fa, 60, 62);
    crate::bytes::lemma_sub_sub(s, pos, fb, 60, 62);
    crate::bytes::lemma_be16_injective(a.flags, b.flags);
    match a.extended_flags {
        Some(x) => {
            let y = b.extended_flags->Some_0;
            crate::bytes::lemma_sub_sub(s, pos, fa, 62, 64);
            crate::bytes::lemma_sub_sub(s, pos, fb, 62, 64);
            crate::bytes::lemma_be16_injective(x, y);
        },
        None => {},
    }
}

/// Fewer bytes remain at `pos` than the fixed fields need, the extended-flags
/// word included.
pub open spec fn fixed_cut(s: Seq<u8>, pos: int, version: u32) -> bool {
    ||| s.len() < pos + 62
    ||| (version >= 3 && s.len() < pos + 64 && s[pos + 60] & 0x40u8 != 0)
}

/// A version 4 entry at `pos` has fixed fields `e` followed by a complete strip
/// count `n` that exceeds the previous path's length.
pub open spec fn strip_exceeds(s: Seq<u8>, pos: int, prev: Seq<u8>, e: IndexEntry, n: nat) -> bool {
    &&& fixed_at(s, pos, e, 4)
    &&& varint_framed(s, pos + fixed_image(e).len(), n)
    &&& n > prev.len()
}

/// Entry `e`, well formed for `version`, is encoded at `pos` in `s`.
pub open spec fn entry_at(s: Seq<u8>, pos: int, e: IndexEntry, version: u32, prev: Seq<u8>, strip: nat) -> bool {
    &&& e.wf(version)
    &&& 0 <= pos
    &&& pos + entry_image(e, version, prev, strip).len() <= s.len()
    &&& entry_encodes(e, version, prev, strip, s.subrange(pos, pos + entry_image(e, version, prev, strip).len()))
}

pub proof fn lemma_same_fixed_image(a: IndexEntry, b: IndexEntry)
    requires
        same_fixed(a, b),
    ensures
        fixed_image(a) == fixed_image(b),
{
    reveal(fixed_image);
}

/// Where the path and the padding of a version 2/3 entry stand.
pub proof fn lemma_v23_layout(s: Seq<u8>, pos: int, e: IndexEntry, version: u32, prev: Seq<u8>, strip: nat)
    requires
        entry_at(s, pos, e, version, prev, strip),
        version < 4,
    ensures
        ({
            let f = fixed_image(e).len() as int;
            let n = f + e.path@.len();
            &&& fixed_at(s, pos, e, version)
            &&& 1 <= pad_len(n) <= 8
            &&& pos + n + pad_len(n) <= s.len()
            &&& pos + n + pad_len(n) == pos + entry_image(e, version, prev, strip).len()
            &&& s.subrange(pos + f, pos + n) == e.path@
            &&& s.subrange(pos + n, pos + n + pad_len(n)) == zeros(pad_len(n))
            &&& s[pos + n] == 0
            &&& forall|j: int| pos + f <= j < pos + n ==> s[j] != 0
        }),
{
    let f = fixed_image(e).len() as int;
    let n = f + e.path@.len();
    let img = entry_image(e, version, prev, strip);
    lemma_fixed_layout(e);
    crate::bytes::lemma_sub_sub(s, pos, img, 0, f);
    assert(img.subrange(0, f) =~= fixed_image(e));
    crate::bytes::lemma_sub_sub(s, pos, img, f, n);
    assert(img.subrange(f, n) =~= e.path@);
    crate::bytes::lemma_sub_sub(s, pos, img, n, n + pad_len(n));
    assert(img.subrange(n, n + pad_len(n)) =~= zeros(pad_len(n)));
    assert(s.subrange(pos + n, pos + n + pad_len(n))[0] == 0);
    assert forall|j: int| pos + f <= j < pos + n implies s[j] != 0 by {
        assert(s.subrange(pos + f, pos + n)[j - pos - f] == s[j]);
    }
}

/// Where the strip count, the suffix and the terminator of a version 4 entry stand.
pub proof fn lemma_v4_layout(s: Seq<u8>, pos: int, e: IndexEntry, prev: Seq<u8>, strip: nat)
    requires
        entry_at(s, pos, e, 4, prev, strip),
    ensures
        ({
            let f = fixed_image(e).len() as int;
            let k = prev.len() - strip;
            let suffix = e.path@.subrange(k, e.path@.len() as int);
            let q = pos + f + varint(strip).len();
            &&& fixed_at(s, pos, e, 4)
            &&& varint_at(s, pos + f, strip, prev.len() as int)
            &&& 0 <= k <= e.path@.len()
            &&& e.path@ == prev.subrange(0, k) + suffix
            &&& q + suffix.len() < s.len()
            &&& q + suffix.len() + 1 == pos + entry_image(e, 4, prev, strip).len()
            &&& s.subrange(q, q + suffix.len()) == suffix
            &&& s[q + suffix.len()] == 0
            &&& forall|j: int| q <= j < q + suffix.len() ==> s[j] != 0
        }),
{
    let f = fixed_image(e).len() as int;
    let k = prev.len() - strip;
    let suffix = e.path@.subrange(k, e.path@.len() as int);
    let vl = varint(strip).len() as int;
    let img = entry_image(e, 4, prev, strip);
    let q = f + vl;
    lemma_fixed_layout(e);
    crate::bytes::lemma_sub_sub(s, pos, img, 0, f);
    assert(img.subrange(0, f) =~= fixed_image(e));
    crate::bytes::lemma_sub_sub(s, pos, img, f, q);
    assert(img.subrange(f, q) =~= varint(strip));
    crate::bytes::lemma_sub_sub(s, pos, img, q, q + suffix.len());
    assert(img.subrange(q, q + suffix.len()) =~= suffix);
    assert(img[q + suffix.len()] == 0);
    assert(s.subrange(pos, pos + img.len())[q + suffix.len()] == s[pos + q + suffix.len()]);
    assert forall|j: int| pos + q <= j < pos + q + suffix.len() implies s[j] != 0 by {
        assert(s.subrange(pos + q, pos + q + suffix.len())[j - pos - q] == s[j]);
        assert(suffix[j - pos - q] == e.path@[k + j - pos - q]);
    }
}

/// The fixed fields of an encoded entry stand at its start.
pub proof fn lemma_entry_fixed(s: Seq<u8>, pos: int, e: IndexEntry, version: u32, prev: Seq<u8>, strip: nat)
    requires
        entry_at(s, pos, e, version, prev, strip),
        2 <= version <= 4,
    ensures
        fixed_at(s, pos, e, version),
{
    if version < 4 {
        lemma_v23_layout(s, pos, e, version, prev, strip);
    } else {
        lemma_v4_layout(s, pos, e, prev, strip);
    }
}

/// The fixed fields do not depend on the path.
pub proof fn lemma_fixed_ignores_path(a: IndexEntry, b: IndexEntry)
    requires
        a == (IndexEntry { path: a.path, ..b }),
    ensures
        fixed_image(a) == fixed_image(b),
{
    reveal(fixed_image);
}

pub proof fn lemma_join(s: Seq<u8>, a: int, b: int, c: int)
    requires
        0 <= a <= b <= c <= s.len(),
    ensures
        s.subrange(a, b) + s.subrange(b, c) == s.subrange(a, c),
{
    assert(s.subrange(a, b) + s.subrange(b, c) =~= s.subrange(a, c));
}

/// Whether `buf[start .. end]` is all NUL bytes.
fn all_zero(buf: &[u8], start: usize, end: usize) -> (r: bool)
    requires
        start <= end <= buf@.len(),
    ensures
        r == (buf@.subrange(start as int, end as int) == zeros(end - start)),
{
    let mut i: usize = start;
    while i < end
        invariant
            start <= i <= end <= buf@.len(),
            buf@.subrange(start as int, i as int) == zeros(i - start),
        decreases end - i,
    {
        if buf[i] != 0 {
            assert(buf@.subrange(start as int, end as int)[i - start] != zeros(end - start)[i - start]);
            return false;
        }
        assert(buf@.subrange(start as int, i + 1) =~= zeros(i + 1 - start));
        i = i + 1;
    }
    assert(buf@.subrange(start as int, i as int) =~= zeros(end - start));
    true
}

/// Reads the fixed-size fields of the entry at `pos`; the path is left empty.
fn parse_fixed(input: &[u8], pos: usize, version: u32) -> (r: Result<(IndexEntry, usize), DecodeError>)
    requires
        pos <= input@.len(),
    ensures
        fixed_cut(input@, pos as int, version) <==> r is Err,
        r is Err ==> r == Err::<(IndexEntry, usize), DecodeError>(
            DecodeError { kind: ErrorKind::TruncatedInput, component: Component::Entry, offset: input.len() },
        ),
        r is Ok ==> {
            let (e, end) = r->Ok_0;
            &&& pos + 62 <= end <= input@.len()
            &&& end == pos + fixed_image(e).len()
            &&& input@.subrange(pos as int, end as int) == fixed_image(e)
            &&& e.sha_1@.len() == 20
            &&& (e.extended_flags is Some <==> has_extended(version, e.flags))
            &&& e.path@.len() == 0
        },
        forall|e2: IndexEntry| #[trigger] fixed_at(input@, pos as int, e2, version) ==> r is Ok
            && same_fixed(r->Ok_0.0, e2) && r->Ok_0.1 == pos + fixed_image(e2).len(),
{
    if input.len() < ENTRY_FIXED_LEN || pos > input.len() - ENTRY_FIXED_LEN {
        assert forall|e2: IndexEntry| #[trigger] fixed_at(input@, pos as int, e2, version) implies false by {
            lemma_fixed_layout(e2);
        }
        return fail(ErrorKind::TruncatedInput, Component::Entry, input.len());
    }
    let ctime_s = read_be32(input, pos);
    let ctime_ns = read_be32(input, pos + 4);
    let mtime_s = read_be32(input, pos + 8);
    let mtime_ns = read_be32(input, pos + 12);
    let dev = read_be32(input, pos + 16);
    let ino = read_be32(input, pos + 20);
    let mode = read_be32(input, pos + 24);
    let uid = read_be32(input, pos + 28);
    let gid = read_be32(input, pos + 32);
    let file_size = read_be32(input, pos + 36);
    let sha_1 = copy_range(input, pos + 40, pos + 60);
    let flags = read_be16(input, pos + 60);
    let ghost hi = input@[pos + 60];
    assert(hi == (flags >> 8u16) as u8) by {
        assert(be16(flags)[0] == input@.subrange(pos + 60, pos + 62)[0]);
    }
    assert((flags & 0x4000u16 != 0) == (hi & 0x40u8 != 0)) by (bit_vector)
        requires
            hi == (flags >> 8u16) as u8,
    ;
    let mut end: usize = pos + ENTRY_FIXED_LEN;
    let mut extended_flags: Option<u16> = None;
    if version >= 3 && flags & FLAG_EXTENDED != 0 {
        if input.len() - end < 2 {
            assert forall|e2: IndexEntry| #[trigger] fixed_at(input@, pos as int, e2, version) implies false by {
                lemma_fixed_layout(e2);
                crate::bytes::lemma_sub_sub(input@, pos as int, fixed_image(e2), 60, 62);
                crate::bytes::lemma_be16_injective(flags, e2.flags);
            }
            return fail(ErrorKind::TruncatedInput, Component::Entry, input.len());
        }
        let x = read_be16(input, end);
        extended_flags = Some(x);
        end = end + 2;
    }
    let e = IndexEntry {
        ctime_s, ctime_ns, mtime_s, mtime_ns, dev, ino, mode, uid, gid, file_size, sha_1, flags,
        extended_flags, path: Vec::new(),
    };
    proof {
        reveal(fixed_image);
        let s = input@;
        let p = pos as int;
        lemma_join(s, p, p + 4, p + 8);
        lemma_join(s, p, p + 8, p + 12);
        lemma_join(s, p, p + 12, p + 16);
        lemma_join(s, p, p + 16, p + 20);
        lemma_join(s, p, p + 20, p + 24);
        lemma_join(s, p, p + 24, p + 28);
        lemma_join(s, p, p + 28, p + 32);
        lemma_join(s, p, p + 32, p + 36);
        lemma_join(s, p, p + 36, p + 40);
        lemma_join(s, p, p + 40, p + 60);
        lemma_join(s, p, p + 60, p + 62);
        if extended_flags is Some {
            lemma_join(s, p, p + 62, p + 64);
        } else {
            assert(s.subrange(p, p + 62) =~= s.subrange(p, p + 62) + opt_be16(extended_flags));
        }
        assert(fixed_at(s, p, e, version));
        assert forall|e2: IndexEntry| #[trigger] fixed_at(s, p, e2, version) implies same_fixed(e, e2)
            && end == pos + fixed_image(e2).len() by {
            lemma_fixed_injective(s, p, e, e2, version);
        }
    }
    Ok((e, end))
}

/// Decodes the entry that starts at `pos` in a `version` index. `prev` is the
/// path of the entry before it (empty for the first); version 4 builds the path
/// from it. On success returns the entry and the position just past it.
pub fn parse_index_entry(input: &[u8], pos: usize, version: u32, prev: &[u8]) -> (r: Result<
    (IndexEntry, usize),
    DecodeError,
>)
    requires
        pos <= input@.len(),
        2 <= version <= 4,
    ensures
        fixed_cut(input@, pos as int, version) ==> r == Err::<(IndexEntry, usize), DecodeError>(
            DecodeError { kind: ErrorKind::TruncatedInput, component: Component::Entry, offset: input.len() },
        ),
        version < 4 && pos + 62 <= input@.len() && no_nul(input@.subrange(pos + 62, input@.len() as int))
            ==> r == Err::<(IndexEntry, usize), DecodeError>(
            DecodeError { kind: ErrorKind::TruncatedInput, component: Component::Entry, offset: input.len() },
        ),
        forall|e2: IndexEntry, n: nat| version == 4 && #[trigger] strip_exceeds(input@, pos as int, prev@, e2, n)
            ==> r is Err && r->Err_0.kind == ErrorKind::InvalidPathEncoding,
        r is Err ==> r->Err_0.kind == ErrorKind::TruncatedInput
            || r->Err_0.kind == ErrorKind::InvalidPathEncoding,
        r is Ok ==> {
            let (e, end) = r->Ok_0;
            &&& pos < end <= input@.len()
            &&& exists|strip: nat| #[trigger] entry_encodes(e, version, prev@, strip, input@.subrange(pos as int, end as int))
            &&& (version < 4 || no_nul(prev@)) ==> e.wf(version)
        },
        forall|e2: IndexEntry, st: nat| #[trigger] entry_at(input@, pos as int, e2, version, prev@, st)
            ==> r is Ok && same_entry(r->Ok_0.0, e2)
            && r->Ok_0.1 == pos + entry_image(e2, version, prev@, st).len(),
{
    let (mut e, start) = match parse_fixed(input, pos, version) {
        Ok(x) => x,
        Err(err) => {
            assert forall|e2: IndexEntry, st: nat| #[trigger] entry_at(input@, pos as int, e2, version, prev@, st)
                implies false by {
                lemma_entry_fixed(input@, pos as int, e2, version, prev@, st);
            }
            return Err(err);
        },
    };
    assert forall|e2: IndexEntry, st: nat| #[trigger] entry_at(input@, pos as int, e2, version, prev@, st)
        implies same_fixed(e, e2) by {
        lemma_entry_fixed(input@, pos as int, e2, version, prev@, st);
    }
    if version < 4 {
        let r = parse_tail_v23(input, pos, start, version, e, Ghost(prev@));
        proof {
            if r is Ok {
                let (e2, end) = r->Ok_0;
                assert(entry_encodes(e2, version, prev@, 0, input@.subrange(pos as int, end as int)));
                assert(exists|st: nat| #[trigger] entry_encodes(e2, version, prev@, st, input@.subrange(pos as int, end as int)));
            }
        }
        assert(r is Ok ==> {
            let (e, end) = r->Ok_0;
            &&& pos < end <= input@.len()
            &&& exists|strip: nat| #[trigger] entry_encodes(e, version, prev@, strip, input@.subrange(pos as int, end as int))
            &&& (version < 4 || no_nul(prev@)) ==> e.wf(version)
        });
        r
    } else {
        assert forall|e2: IndexEntry, n: nat| version == 4 && #[trigger] strip_exceeds(input@, pos as int, prev@, e2, n)
            implies varint_framed(input@, start as int, n) && n > prev@.len() by {
        }
        let (e2, end, strip) = match parse_tail_v4(input, pos, start, e, prev) {
            Ok(v) => v,
            Err(err) => return Err(err),
        };
        proof {
            assert(entry_encodes(e2, version, prev@, strip as nat, input@.subrange(pos as int, end as int)));
            assert(exists|st: nat| #[trigger] entry_encodes(e2, version, prev@, st, input@.subrange(pos as int, end as int)));
        }
        Ok((e2, end))
    }
}

/// The path, terminator and padding of a version 2/3 entry whose fixed fields
/// `e` span `input[pos .. start]`.
fn parse_tail_v23(
    input: &[u8],
    pos: usize,
    start: usize,
    version: u32,
    fixed_part: IndexEntry,
    prev: Ghost<Seq<u8>>,
) -> (r: Result<(IndexEntry, usize), DecodeError>)
    requires
        pos + 62 <= start <= input@.len(),
        2 <= version < 4,
        input@.subrange(pos as int, start as int) == fixed_image(fixed_part),
        start == pos + fixed_image(fixed_part).len(),
        fixed_part.sha_1@.len() == 20,
        fixed_part.extended_flags is Some <==> has_extended(version, fixed_part.flags),
    ensures
        r is Err ==> r->Err_0.kind == ErrorKind::TruncatedInput
            || r->Err_0.kind == ErrorKind::InvalidPathEncoding,
        r is Ok ==> {
            let (e2, end) = r->Ok_0;
            &&& pos < end <= input@.len()
            &&& entry_encodes(e2, version, prev@, 0, input@.subrange(pos as int, end as int))
            &&& e2.wf(version)
        },
        forall|e2: IndexEntry, st: nat| #[trigger] entry_at(input@, pos as int, e2, version, prev@, st)
            && same_fixed(fixed_part, e2) ==> r is Ok && same_entry(r->Ok_0.0, e2)
            && r->Ok_0.1 == pos + entry_image(e2, version, prev@, st).len(),
        no_nul(input@.subrange(pos + 62, input@.len() as int)) ==> r == Err::<(IndexEntry, usize), DecodeError>(
            DecodeError { kind: ErrorKind::TruncatedInput, component: Component::Entry, offset: input.len() },
        ),
{
    let mut e = fixed_part;
    let any_nul = first_nul(input, start, input.len());
    if any_nul == input.len() {
        assert forall|e2: IndexEntry, st: nat| #[trigger] entry_at(input@, pos as int, e2, version, prev@, st)
            && same_fixed(fixed_part, e2) implies false by {
            lemma_v23_layout(input@, pos as int, e2, version, prev@, st);
            lemma_same_fixed_image(fixed_part, e2);
            let q = pos + fixed_image(e2).len() + e2.path@.len();
            assert(input@.subrange(start as int, any_nul as int)[q - start] == input@[q]);
        }
        return fail(ErrorKind::TruncatedInput, Component::Entry, input.len());
    }
    assert(!no_nul(input@.subrange(pos + 62, input@.len() as int))) by {
        assert(input@.subrange(pos + 62, input@.len() as int)[any_nul - pos - 62] == input@[any_nul as int]);
    }
    let name_len = (e.flags & NAME_MASK) as usize;
    let ghost flags = e.flags;
    assert(flags & 0x0FFFu16 <= 0x0FFFu16) by (bit_vector);
    let path_end: usize;
    if name_len < NAME_SENTINEL as usize {
        if input.len() - start <= name_len {
            assert forall|e2: IndexEntry, st: nat| #[trigger] entry_at(input@, pos as int, e2, version, prev@, st)
                && same_fixed(fixed_part, e2) implies false by {
                lemma_v23_layout(input@, pos as int, e2, version, prev@, st);
                lemma_same_fixed_image(fixed_part, e2);
            }
            return fail(ErrorKind::TruncatedInput, Component::Entry, input.len());
        }
        let z = first_nul(input, start, start + name_len);
        if z < start + name_len {
            assert forall|e2: IndexEntry, st: nat| #[trigger] entry_at(input@, pos as int, e2, version, prev@, st)
                && same_fixed(fixed_part, e2) implies false by {
                lemma_v23_layout(input@, pos as int, e2, version, prev@, st);
                lemma_same_fixed_image(fixed_part, e2);
                assert(input@[z as int] != 0);
            }
            return fail(ErrorKind::InvalidPathEncoding, Component::Entry, z);
        }
        path_end = z;
    } else {
        let z = first_nul(input, start, input.len());
        if z == input.len() {
            assert forall|e2: IndexEntry, st: nat| #[trigger] entry_at(input@, pos as int, e2, version, prev@, st)
                && same_fixed(fixed_part, e2) implies false by {
                lemma_v23_layout(input@, pos as int, e2, version, prev@, st);
                lemma_same_fixed_image(fixed_part, e2);
                let q = start + e2.path@.len();
                assert(input@.subrange(start as int, z as int)[q - start] == input@[q]);
            }
            return fail(ErrorKind::TruncatedInput, Component::Entry, input.len());
        }
        path_end = z;
    }
    assert forall|e2: IndexEntry, st: nat| #[trigger] entry_at(input@, pos as int, e2, version, prev@, st)
        && same_fixed(fixed_part, e2) implies path_end == start + e2.path@.len() by {
        lemma_v23_layout(input@, pos as int, e2, version, prev@, st);
        lemma_same_fixed_image(fixed_part, e2);
        let q = start + e2.path@.len();
        if path_end > q {
            assert(input@.subrange(start as int, path_end as int)[q - start] == input@[q]);
        }
        if path_end < q {
            assert(input@[path_end as int] != 0);
        }
    }
    let record = path_end - pos;
    let pad = 8 - record % 8;
    if input.len() - path_end < pad {
        assert forall|e2: IndexEntry, st: nat| #[trigger] entry_at(input@, pos as int, e2, version, prev@, st)
            && same_fixed(fixed_part, e2) implies false by {
            lemma_v23_layout(input@, pos as int, e2, version, prev@, st);
            lemma_same_fixed_image(fixed_part, e2);
        }
        return fail(ErrorKind::TruncatedInput, Component::Entry, input.len());
    }
    let end = path_end + pad;
    if !all_zero(input, path_end, end) {
        assert forall|e2: IndexEntry, st: nat| #[trigger] entry_at(input@, pos as int, e2, version, prev@, st)
            && same_fixed(fixed_part, e2) implies false by {
            lemma_v23_layout(input@, pos as int, e2, version, prev@, st);
            lemma_same_fixed_image(fixed_part, e2);
        }
        return fail(ErrorKind::InvalidPathEncoding, Component::Entry, path_end);
    }
    e.path = copy_range(input, start, path_end);
    proof {
        lemma_fixed_ignores_path(e, fixed_part);
        lemma_join(input@, pos as int, start as int, path_end as int);
        lemma_join(input@, pos as int, path_end as int, end as int);
        assert(entry_encodes(e, version, prev@, 0, input@.subrange(pos as int, end as int)));
        assert(e.wf(version));
    }
    assert forall|e2: IndexEntry, st: nat| #[trigger] entry_at(input@, pos as int, e2, version, prev@, st)
        && same_fixed(fixed_part, e2) implies same_entry(e, e2)
        && end == pos + entry_image(e2, version, prev@, st).len() by {
        lemma_v23_layout(input@, pos as int, e2, version, prev@, st);
        lemma_same_fixed_image(fixed_part, e2);
    }
    Ok((e, end))
}

/// The compressed path of a version 4 entry whose fixed fields `e` span
/// `input[pos .. start]`.
#[verifier::spinoff_prover]
fn parse_tail_v4(input: &[u8], pos: usize, start: usize, fixed_part: IndexEntry, prev: &[u8]) -> (r: Result<
    (IndexEntry, usize, usize),
    DecodeError,
>)
    requires
        pos + 62 <= start <= input@.len(),
        input@.subrange(pos as int, start as int) == fixed_image(fixed_part),
        start == pos + fixed_image(fixed_part).len(),
        fixed_part.sha_1@.len() == 20,
        fixed_part.extended_flags is Some <==> has_extended(4, fixed_part.flags),
    ensures
        r is Err ==> r->Err_0.kind == ErrorKind::TruncatedInput
            || r->Err_0.kind == ErrorKind::InvalidPathEncoding,
        r is Ok ==> {
            let (e2, end, strip) = r->Ok_0;
            &&& pos < end <= input@.len()
            &&& entry_encodes(e2, 4, prev@, strip as nat, input@.subrange(pos as int, end as int))
            &&& no_nul(prev@) ==> e2.wf(4)
        },
        forall|e2: IndexEntry, st: nat| #[trigger] entry_at(input@, pos as int, e2, 4, prev@, st)
            && same_fixed(fixed_part, e2) ==> r is Ok && same_entry(r->Ok_0.0, e2)
            && r->Ok_0.1 == pos + entry_image(e2, 4, prev@, st).len(),
        forall|n: nat| #[trigger] varint_framed(input@, start as int, n) && n > prev@.len()
            ==> r is Err && r->Err_0.kind == ErrorKind::InvalidPathEncoding,
{
    let mut e = fixed_part;
    assert forall|e2: IndexEntry, st: nat| #[trigger] entry_at(input@, pos as int, e2, 4, prev@, st)
        && same_fixed(fixed_part, e2) implies varint_at(input@, start as int, st, prev@.len() as int) by {
        lemma_v4_layout(input@, pos as int, e2, prev@, st);
        lemma_same_fixed_image(fixed_part, e2);
    }
    let version: u32 = 4;
    let (strip, q) = match read_varint(input, start, prev.len()) {
        Ok(x) => x,
        Err(err) => return Err(err),
    };
    let z = first_nul(input, q, input.len());
    assert forall|e2: IndexEntry, st: nat| #[trigger] entry_at(input@, pos as int, e2, 4, prev@, st)
        && same_fixed(fixed_part, e2) implies strip == st && z == q + (e2.path@.len() - (prev@.len() - st)) by {
        lemma_v4_layout(input@, pos as int, e2, prev@, st);
        lemma_same_fixed_image(fixed_part, e2);
        let w = q + (e2.path@.len() - (prev@.len() - st));
        if z > w {
            assert(input@.subrange(q as int, z as int)[w - q] == input@[w]);
        }
        if z < w {
            assert(input@[z as int] != 0);
        }
    }
    if z == input.len() {
        assert forall|e2: IndexEntry, st: nat| #[trigger] entry_at(input@, pos as int, e2, 4, prev@, st)
            && same_fixed(fixed_part, e2) implies false by {
            lemma_v4_layout(input@, pos as int, e2, prev@, st);
            lemma_same_fixed_image(fixed_part, e2);
            assert(z == q + (e2.path@.len() - (prev@.len() - st)));
        }
        return fail(ErrorKind::TruncatedInput, Component::Entry, input.len());
    }
    let suffix = copy_range(input, q, z);
    let path = match decode_path(prev, strip, suffix.as_slice()) {
        Some(p) => p,
        None => return fail(ErrorKind::InvalidPathEncoding, Component::Path, start),
    };
    e.path = path;
    proof {
        let k = prev@.len() - strip;
        lemma_fixed_ignores_path(e, fixed_part);
        assert(e.path@.subrange(k, e.path@.len() as int) =~= suffix@);
        lemma_join(input@, pos as int, start as int, q as int);
        lemma_join(input@, pos as int, q as int, z as int);
        lemma_join(input@, pos as int, z as int, z + 1);
        assert(input@.subrange(z as int, z + 1) =~= seq![0u8]);
        assert(entry_encodes(e, version, prev@, strip as nat, input@.subrange(pos as int, z + 1)));
        assert(e.sha_1@.len() == 20);
        if no_nul(prev@) {
            assert(no_nul(e.path@)) by {
                assert forall|i: int| 0 <= i < e.path@.len() implies e.path@[i] != 0 by {
                    if i >= k {
                        assert(e.path@[i] == suffix@[i - k]);
                    }
                }
            }
        }
    }
    assert forall|e2: IndexEntry, st: nat| #[trigger] entry_at(input@, pos as int, e2, 4, prev@, st)
        && same_fixed(fixed_part, e2) implies same_entry(e, e2)
        && z + 1 == pos + entry_image(e2, 4, prev@, st).len() by {
        lemma_v4_layout(input@, pos as int, e2, prev@, st);
        lemma_same_fixed_image(fixed_part, e2);
        assert(suffix@ =~= e2.path@.subrange(prev@.len() - st, e2.path@.len() as int));
        assert(e.path@ =~= e2.path@);
    }
    let end: usize = z + 1;
    assert(entry_encodes(e, 4, prev@, strip as nat, input@.subrange(pos as int, end as int)));
    Ok((e, end, strip))
}

/// The standard strip count always rebuilds `path` from `prev`.
pub proof fn lemma_standard_strip(prev: Seq<u8>, path: Seq<u8>)
    ensures
        standard_strip(prev, path) <= prev.len(),
        path == apply_strip(
            prev,
            standard_strip(prev, path) as int,
            path.subrange(prev.len() - standard_strip(prev, path), path.len() as int),
        ),
{
    assert(prev.subrange(0, 0) =~= path.subrange(0, 0));
    crate::path::lemma_lcp_bounds(prev, path, 0);
    let k = common_prefix_len(prev, path);
    assert(path =~= prev.subrange(0, k) + path.subrange(k, path.len() as int));
}

/// Appends the fixed-size fields of `e` to `out`.
fn encode_fixed(e: &IndexEntry, out: &mut Vec<u8>)
    ensures
        final(out)@ == old(out)@ + fixed_image(*e),
{
    let ghost start = out@;
    push_be32(out, e.ctime_s);
    push_be32(out, e.ctime_ns);
    push_be32(out, e.mtime_s);
    push_be32(out, e.mtime_ns);
    push_be32(out, e.dev);
    push_be32(out, e.ino);
    push_be32(out, e.mode);
    push_be32(out, e.uid);
    push_be32(out, e.gid);
    push_be32(out, e.file_size);
    push_all(out, e.sha_1.as_slice());
    push_be16(out, e.flags);
    match e.extended_flags {
        Some(x) => push_be16(out, x),
        None => {},
    }
    proof {
        reveal(fixed_image);
    }
    assert(out@ =~= start + fixed_image(*e));
}

/// Appends the encoding of `e` in a `version` index to `out`; `prev` is the
/// path of the entry before it. Version 4 writes the standard strip count.
pub fn encode_entry(e: &IndexEntry, version: u32, prev: &[u8], out: &mut Vec<u8>)
    ensures
        final(out)@ == old(out)@ + entry_image(*e, version, prev@, standard_strip(prev@, e.path@)),
        entry_encodes(
            *e,
            version,
            prev@,
            standard_strip(prev@, e.path@),
            entry_image(*e, version, prev@, standard_strip(prev@, e.path@)),
        ),
{
    let ghost start = out@;
    let base = out.len();
    encode_fixed(e, out);
    proof {
        lemma_standard_strip(prev@, e.path@);
    }
    if version < 4 {
        push_all(out, e.path.as_slice());
        let n = out.len() - base;
        let pad = 8 - n % 8;
        assert(n == fixed_image(*e).len() + e.path@.len());
        push_zeros(out, pad);
        assert(out@ =~= start + entry_image(*e, version, prev@, standard_strip(prev@, e.path@)));
    } else {
        let k = common_prefix(prev, e.path.as_slice());
        push_varint(out, prev.len() - k);
        push_range(out, e.path.as_slice(), k, e.path.len());
        out.push(0u8);
        assert(out@ =~= start + entry_image(*e, version, prev@, standard_strip(prev@, e.path@)));
    }
}

} // verus!
