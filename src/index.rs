use vstd::prelude::*;
use crate::bytes::copy_range;
use crate::checksum::{CHECKSUM_LEN, sha1_of, checksum_matches, digest_prefix};
use crate::entry::{
    IndexEntry, entry_at, entry_image, entry_encodes, same_entry, standard_strip, encode_entry,
    parse_index_entry, lemma_join, lemma_same_fixed_image,
};
use crate::error::{DecodeError, ErrorKind, Component, fail};
use crate::extension::{
    IndexExtension, extensions_at, is_optional, extensions_image, parse_extensions, encode_extension,
    same_extension,
};
use crate::header::{IndexHeader, header_at, header_image, header_error, parse_header, encode_header, HEADER_LEN};
use crate::path::{common_prefix, common_prefix_len, no_nul};

verus! {

/// A decoded index: header, entries in path order, extensions in the order
/// they were read, and the trailing checksum.
#[derive(Debug, Clone, PartialEq, Eq)]
pub struct Index {
    pub header: IndexHeader,
    pub entries: Vec<IndexEntry>,
    pub extensions: Vec<IndexExtension>,
    /// SHA-1 of every byte before it.
    pub sha1_checksum: Vec<u8>,
}

/// Byte-wise order of paths: `a` sorts strictly before `b`.
pub open spec fn path_lt(a: Seq<u8>, b: Seq<u8>) -> bool {
    let k = common_prefix_len(a, b);
    if k == a.len() {
        k < b.len()
    } else {
        k < b.len() && a[k] < b[k]
    }
}

/// Each entry's path sorts strictly after the one before it.
pub open spec fn entries_sorted(es: Seq<IndexEntry>) -> bool {
    forall|i: int| 0 < i < es.len() ==> path_lt(es[i - 1].path@, (#[trigger] es[i]).path@)
}

/// The path of the entry before entry `i`; empty for the first.
pub open spec fn prev_path(es: Seq<IndexEntry>, i: int) -> Seq<u8> {
    if i <= 0 {
        Seq::empty()
    } else {
        es[i - 1].path@
    }
}

/// The bytes of the entries, entry `i` written with strip count `strips[i]` in version 4.
pub open spec fn entries_image(es: Seq<IndexEntry>, version: u32, strips: Seq<nat>) -> Seq<u8>
    decreases es.len(),
{
    if es.len() == 0 {
        Seq::empty()
    } else {
        entries_image(es.drop_last(), version, strips.drop_last()) + entry_image(
            es.last(),
            version,
            prev_path(es, es.len() - 1),
            strips.last(),
        )
    }
}

/// Every entry's strip count rebuilds its path from the path before it.
pub open spec fn strips_valid(es: Seq<IndexEntry>, version: u32, strips: Seq<nat>) -> bool {
    &&& strips.len() == es.len()
    &&& forall|i: int| 0 <= i < es.len() ==> #[trigger] entry_encodes(
        es[i],
        version,
        prev_path(es, i),
        strips[i],
        entry_image(es[i], version, prev_path(es, i), strips[i]),
    )
}

/// The strip counts that the encoder writes.
pub open spec fn standard_strips(es: Seq<IndexEntry>) -> Seq<nat> {
    Seq::new(es.len(), |i: int| standard_strip(prev_path(es, i), es[i].path@))
}

impl Index {
    pub open spec fn wf(&self) -> bool {
        let v = self.header.version;
        &&& self.header.wf()
        &&& self.header.index_entries == self.entries@.len()
        &&& forall|i: int| 0 <= i < self.entries@.len() ==> (#[trigger] self.entries@[i]).wf(v)
        &&& entries_sorted(self.entries@)
        &&& forall|i: int| 0 <= i < self.extensions@.len()
            ==> (#[trigger] self.extensions@[i]).wf() && is_optional(self.extensions@[i].signature@)
        &&& self.sha1_checksum@.len() == 20
    }
}

/// Everything before the checksum, with the given strip counts.
pub open spec fn body_image(idx: Index, strips: Seq<nat>) -> Seq<u8> {
    header_image(idx.header) + entries_image(idx.entries@, idx.header.version, strips)
        + extensions_image(idx.extensions@)
}

/// `bytes` lay out `idx` with strip counts `strips`, its checksum last.
pub open spec fn index_frames(idx: Index, strips: Seq<nat>, bytes: Seq<u8>) -> bool {
    &&& strips_valid(idx.entries@, idx.header.version, strips)
    &&& bytes == body_image(idx, strips) + idx.sha1_checksum@
}

/// `bytes` are an encoding of `idx` with strip counts `strips`, and its
/// checksum is the digest of what precedes it.
pub open spec fn index_encodes(idx: Index, strips: Seq<nat>, bytes: Seq<u8>) -> bool {
    &&& index_frames(idx, strips, bytes)
    &&& idx.sha1_checksum@ == sha1_of(body_image(idx, strips))
}

/// `bytes` lay out `idx`, and when `verify` is set its checksum is right.
pub open spec fn index_matches(idx: Index, strips: Seq<nat>, bytes: Seq<u8>, verify: bool) -> bool {
    &&& index_frames(idx, strips, bytes)
    &&& verify ==> idx.sha1_checksum@ == sha1_of(body_image(idx, strips))
}

/// Every extension payload fits its 32-bit length field.
pub open spec fn extensions_fit(xs: Seq<IndexExtension>) -> bool {
    forall|i: int| 0 <= i < xs.len() ==> (#[trigger] xs[i]).data@.len() <= u32::MAX
}

/// What `encode` writes for `idx`: standard compression and a fresh checksum.
pub open spec fn encoded(idx: Index) -> Seq<u8> {
    body_image(idx, standard_strips(idx.entries@)) + sha1_of(
        body_image(idx, standard_strips(idx.entries@)),
    )
}

/// Whether path `a` sorts strictly before path `b`, byte by byte.
pub fn path_less(a: &[u8], b: &[u8]) -> (r: bool)
    ensures
        r == path_lt(a@, b@),
{
    let k = common_prefix(a, b);
    if k == a.len() {
        k < b.len()
    } else if k == b.len() {
        false
    } else {
        a[k] < b[k]
    }
}

/// Entries `es`, well formed and sorted, written with strip counts `strips`,
/// stand from `start` in `s`.
pub open spec fn entries_at(s: Seq<u8>, start: int, es: Seq<IndexEntry>, version: u32, strips: Seq<nat>) -> bool {
    &&& strips_valid(es, version, strips)
    &&& forall|i: int| 0 <= i < es.len() ==> (#[trigger] es[i]).wf(version)
    &&& entries_sorted(es)
    &&& 0 <= start
    &&& start + entries_image(es, version, strips).len() <= s.len()
    &&& s.subrange(start, start + entries_image(es, version, strips).len()) == entries_image(es, version, strips)
}

proof fn lemma_entries_take(es: Seq<IndexEntry>, version: u32, strips: Seq<nat>, k: int)
    requires
        0 <= k < es.len(),
        strips.len() == es.len(),
    ensures
        entries_image(es.take(k + 1), version, strips.take(k + 1)) == entries_image(es.take(k), version, strips.take(k))
            + entry_image(es[k], version, prev_path(es, k), strips[k]),
{
    let t = es.take(k + 1);
    assert(t.drop_last() =~= es.take(k));
    assert(strips.take(k + 1).drop_last() =~= strips.take(k));
    assert(prev_path(t, k) == prev_path(es, k));
}

proof fn lemma_entries_prefix(es: Seq<IndexEntry>, version: u32, strips: Seq<nat>, k: int)
    requires
        0 <= k <= es.len(),
        strips.len() == es.len(),
    ensures
        entries_image(es.take(k), version, strips.take(k)).len() <= entries_image(es, version, strips).len(),
        entries_image(es, version, strips).subrange(0, entries_image(es.take(k), version, strips.take(k)).len() as int)
            == entries_image(es.take(k), version, strips.take(k)),
    decreases es.len(),
{
    let img = entries_image(es, version, strips);
    if k == es.len() {
        assert(es.take(k) =~= es);
        assert(strips.take(k) =~= strips);
        assert(img.subrange(0, img.len() as int) =~= img);
    } else {
        let dl = es.drop_last();
        let sdl = strips.drop_last();
        lemma_entries_prefix(dl, version, sdl, k);
        assert(dl.take(k) =~= es.take(k));
        assert(sdl.take(k) =~= strips.take(k));
        let n = entries_image(es.take(k), version, strips.take(k)).len() as int;
        assert(img.subrange(0, n) =~= entries_image(dl, version, sdl).subrange(0, n));
    }
}

/// Entry `k` of entries that stand from the header on stands right after the ones before it.
proof fn lemma_entry_in_place(s: Seq<u8>, es: Seq<IndexEntry>, version: u32, strips: Seq<nat>, k: int)
    requires
        entries_at(s, HEADER_LEN as int, es, version, strips),
        0 <= k < es.len(),
    ensures
        entry_at(
            s,
            HEADER_LEN + entries_image(es.take(k), version, strips.take(k)).len(),
            es[k],
            version,
            prev_path(es, k),
            strips[k],
        ),
{
    let full = entries_image(es, version, strips);
    let a = entries_image(es.take(k), version, strips.take(k)).len() as int;
    let img = entry_image(es[k], version, prev_path(es, k), strips[k]);
    lemma_entries_take(es, version, strips, k);
    lemma_entries_prefix(es, version, strips, k + 1);
    let b = a + img.len();
    crate::bytes::lemma_sub_sub(s, HEADER_LEN as int, full, a, b);
    assert(full.subrange(a, b) =~= entries_image(es.take(k + 1), version, strips.take(k + 1)).subrange(a, b));
    assert(entries_image(es.take(k + 1), version, strips.take(k + 1)).subrange(a, b) =~= img);
    assert(es[k].wf(version));
    assert(entry_encodes(es[k], version, prev_path(es, k), strips[k], img));
}

/// Decodes the entries that follow the header; returns them with the position
/// just past the last one.
fn parse_entries(bytes: &[u8], h: IndexHeader) -> (r: Result<(Vec<IndexEntry>, usize, Ghost<Seq<nat>>), DecodeError>)
    requires
        h.wf(),
        HEADER_LEN <= bytes@.len(),
    ensures
        r is Err ==> r->Err_0.kind == ErrorKind::TruncatedInput
            || r->Err_0.kind == ErrorKind::InvalidPathEncoding,
        r is Ok ==> {
            let (es, pos, strips) = r->Ok_0;
            &&& HEADER_LEN <= pos <= bytes@.len()
            &&& es@.len() == h.index_entries
            &&& bytes@.subrange(HEADER_LEN as int, pos as int) == entries_image(es@, h.version, strips@)
            &&& strips_valid(es@, h.version, strips@)
            &&& forall|i: int| 0 <= i < es@.len() ==> (#[trigger] es@[i]).wf(h.version)
            &&& entries_sorted(es@)
        },
        forall|es2: Seq<IndexEntry>, st2: Seq<nat>|
            #[trigger] entries_at(bytes@, HEADER_LEN as int, es2, h.version, st2) && es2.len() == h.index_entries
            ==> r is Ok && r->Ok_0.0@.len() == es2.len()
                && (forall|j: int| 0 <= j < es2.len() ==> same_entry(#[trigger] r->Ok_0.0@[j], es2[j]))
                && r->Ok_0.1 == HEADER_LEN + entries_image(es2, h.version, st2).len(),
{
    let version = h.version;
    let empty: Vec<u8> = Vec::new();
    let mut es: Vec<IndexEntry> = Vec::new();
    let ghost mut strips: Seq<nat> = Seq::empty();
    let mut pos: usize = HEADER_LEN;
    let mut i: u32 = 0;
    assert(bytes@.subrange(HEADER_LEN as int, HEADER_LEN as int) =~= Seq::<u8>::empty());
    while i < h.index_entries
        invariant
            h.wf(),
            version == h.version,
            empty@.len() == 0,
            HEADER_LEN <= pos <= bytes@.len(),
            i <= h.index_entries,
            es@.len() == i,
            bytes@.subrange(HEADER_LEN as int, pos as int) == entries_image(es@, version, strips),
            strips_valid(es@, version, strips),
            forall|j: int| 0 <= j < es@.len() ==> (#[trigger] es@[j]).wf(version),
            entries_sorted(es@),
            forall|es2: Seq<IndexEntry>, st2: Seq<nat>|
                #[trigger] entries_at(bytes@, HEADER_LEN as int, es2, version, st2) && es2.len() == h.index_entries
                ==> (forall|j: int| 0 <= j < i ==> same_entry(#[trigger] es@[j], es2[j]))
                && pos == HEADER_LEN + entries_image(es2.take(i as int), version, st2.take(i as int)).len(),
        decreases h.index_entries - i,
    {
        let prev: &[u8] = if i == 0 { empty.as_slice() } else { es[i as usize - 1].path.as_slice() };
        assert(prev@ == prev_path(es@, i as int));
        assert(no_nul(prev@)) by {
            if i > 0 {
                assert(es@[i - 1].wf(version));
            }
        }
        proof {
            {
                assert forall|es2: Seq<IndexEntry>, st2: Seq<nat>|
                    #[trigger] entries_at(bytes@, HEADER_LEN as int, es2, version, st2) && es2.len() == h.index_entries
                    implies entry_at(bytes@, pos as int, es2[i as int], version, prev@, st2[i as int]) by {
                    lemma_entry_in_place(bytes@, es2, version, st2, i as int);
                    if i > 0 {
                        assert(same_entry(es@[i - 1], es2[i - 1]));
                    }
                }
            }
        }
        let (e, next) = match parse_index_entry(bytes, pos, version, prev) {
            Ok(v) => v,
            Err(err) => return Err(err),
        };
        if i > 0 && !path_less(prev, e.path.as_slice()) {
            assert(forall|es2: Seq<IndexEntry>, st2: Seq<nat>|
                #[trigger] entries_at(bytes@, HEADER_LEN as int, es2, version, st2) && es2.len() == h.index_entries
                ==> false);
            return fail(ErrorKind::InvalidPathEncoding, Component::Entry, pos);
        }
        let ghost st = choose|st: nat| #[trigger] entry_encodes(e, version, prev@, st, bytes@.subrange(pos as int, next as int));
        let ghost old_es = es@;
        let ghost old_strips = strips;
        es.push(e);
        proof {
            strips = strips.push(st);
            assert(es@.drop_last() =~= old_es);
            assert(strips.drop_last() =~= old_strips);
            assert(prev_path(es@, i as int) == prev@);
            lemma_join(bytes@, HEADER_LEN as int, pos as int, next as int);
            assert forall|j: int| 0 <= j < es@.len() implies #[trigger] entry_encodes(
                es@[j],
                version,
                prev_path(es@, j),
                strips[j],
                entry_image(es@[j], version, prev_path(es@, j), strips[j]),
            ) by {
                if j < i {
                    assert(prev_path(es@, j) == prev_path(old_es, j));
                    assert(es@[j] == old_es[j]);
                    assert(strips[j] == old_strips[j]);
                }
            }
            assert forall|j: int| 0 <= j < es@.len() implies (#[trigger] es@[j]).wf(version) by {
                if j < i {
                    assert(es@[j] == old_es[j]);
                }
            }
            assert forall|j: int| 0 < j < es@.len() implies path_lt(es@[j - 1].path@, (#[trigger] es@[j]).path@) by {
                if j < i {
                    assert(es@[j] == old_es[j]);
                    assert(es@[j - 1] == old_es[j - 1]);
                }
            }
        }
        proof {
            {
                assert forall|es2: Seq<IndexEntry>, st2: Seq<nat>|
                    #[trigger] entries_at(bytes@, HEADER_LEN as int, es2, version, st2) && es2.len() == h.index_entries
                    implies (forall|j: int| 0 <= j < i + 1 ==> same_entry(#[trigger] es@[j], es2[j]))
                    && next == HEADER_LEN + entries_image(es2.take(i + 1), version, st2.take(i + 1)).len() by {
                    lemma_entries_take(es2, version, st2, i as int);
                    assert forall|j: int| 0 <= j < i + 1 implies same_entry(#[trigger] es@[j], es2[j]) by {
                        if j < i {
                            assert(es@[j] == old_es[j]);
                        }
                    }
                }
            }
        }
        pos = next;
        i = i + 1;
    }
    proof {
        {
            assert forall|es2: Seq<IndexEntry>, st2: Seq<nat>|
                #[trigger] entries_at(bytes@, HEADER_LEN as int, es2, version, st2) && es2.len() == h.index_entries
                implies pos == HEADER_LEN + entries_image(es2, version, st2).len() by {
                assert(es2.take(i as int) =~= es2);
                assert(st2.take(i as int) =~= st2);
            }
        }
    }
    Ok((es, pos, Ghost(strips)))
}

/// `a` and `b` hold the same values.
pub open spec fn same_index(a: Index, b: Index) -> bool {
    &&& a.header == b.header
    &&& a.entries@.len() == b.entries@.len()
    &&& forall|i: int| 0 <= i < a.entries@.len() ==> same_entry(#[trigger] a.entries@[i], b.entries@[i])
    &&& a.extensions@.len() == b.extensions@.len()
    &&& forall|i: int| 0 <= i < a.extensions@.len() ==> same_extension(#[trigger] a.extensions@[i], b.extensions@[i])
    &&& a.sha1_checksum@ == b.sha1_checksum@
}

/// Where the parts of an encoded index stand.
proof fn lemma_index_layout(idx: Index, strips: Seq<nat>, bytes: Seq<u8>)
    requires
        idx.wf(),
        index_frames(idx, strips, bytes),
    ensures
        ({
            let e = entries_image(idx.entries@, idx.header.version, strips).len() as int;
            let x = extensions_image(idx.extensions@).len() as int;
            &&& bytes.len() == 12 + e + x + 20
            &&& header_at(bytes, idx.header)
            &&& entries_at(bytes, 12, idx.entries@, idx.header.version, strips)
            &&& extensions_at(bytes, 12 + e, 12 + e + x, idx.extensions@)
            &&& bytes.subrange(0, 12 + e + x) == body_image(idx, strips)
            &&& bytes.subrange(12 + e + x, bytes.len() as int) == idx.sha1_checksum@
        }),
{
    let h = header_image(idx.header);
    let es = entries_image(idx.entries@, idx.header.version, strips);
    let xs = extensions_image(idx.extensions@);
    let e = es.len() as int;
    let x = xs.len() as int;
    assert(bytes.subrange(0, 12) =~= h);
    assert(bytes.subrange(12, 12 + e) =~= es);
    assert(bytes.subrange(12 + e, 12 + e + x) =~= xs);
    assert(bytes.subrange(0, 12 + e + x) =~= body_image(idx, strips));
    assert(bytes.subrange(12 + e + x, bytes.len() as int) =~= idx.sha1_checksum@);
}

/// Decodes a whole index, failing on the first error; the checksum is
/// compared only when `verify_checksum` is set (diagnostic tools may skip it).
/// On success the result is well formed and `bytes` lay it out. Success is
/// owed exactly when `bytes` lay out some well-formed index (with the right
/// checksum, when it is verified), and that index is then the result.
#[verifier::spinoff_prover]
#[verifier::rlimit(60)]
pub fn decode_with(bytes: &[u8], verify_checksum: bool) -> (r: Result<Index, DecodeError>)
    ensures
        header_error(bytes@) is Some ==> r is Err && Some(r->Err_0.kind) == header_error(bytes@),
        r is Ok ==> r->Ok_0.wf() && exists|strips: Seq<nat>| #[trigger] index_matches(r->Ok_0, strips, bytes@, verify_checksum),
        forall|idx2: Index, st2: Seq<nat>| idx2.wf() && #[trigger] index_matches(idx2, st2, bytes@, verify_checksum)
            ==> r is Ok && same_index(r->Ok_0, idx2),
        forall|idx2: Index, st2: Seq<nat>| verify_checksum && idx2.wf() && #[trigger] index_frames(idx2, st2, bytes@)
            && idx2.sha1_checksum@ != sha1_of(body_image(idx2, st2)) ==> r == Err::<Index, DecodeError>(
            DecodeError {
                kind: ErrorKind::ChecksumMismatch,
                component: Component::Checksum,
                offset: (bytes@.len() - 20) as usize,
            },
        ),
{
    let header = match parse_header(bytes) {
        Ok(h) => h,
        Err(err) => {
            assert forall|idx2: Index, st2: Seq<nat>| idx2.wf() && #[trigger] index_frames(idx2, st2, bytes@)
                implies false by {
                lemma_index_layout(idx2, st2, bytes@);
                assert(header_at(bytes@, idx2.header));
            }
            return Err(err);
        },
    };
    let (entries, pos, Ghost(strips)) = match parse_entries(bytes, header) {
        Ok(v) => v,
        Err(err) => {
            assert forall|idx2: Index, st2: Seq<nat>| idx2.wf() && #[trigger] index_frames(idx2, st2, bytes@)
                implies false by {
                lemma_index_layout(idx2, st2, bytes@);
                assert(header_at(bytes@, idx2.header));
                assert(entries_at(bytes@, HEADER_LEN as int, idx2.entries@, idx2.header.version, st2));
            }
            return Err(err);
        },
    };
    assert forall|idx2: Index, st2: Seq<nat>| idx2.wf() && #[trigger] index_frames(idx2, st2, bytes@)
        implies header == idx2.header
        && entries@.len() == idx2.entries@.len()
        && (forall|j: int| 0 <= j < entries@.len() ==> same_entry(#[trigger] entries@[j], idx2.entries@[j]))
        && pos == 12 + entries_image(idx2.entries@, idx2.header.version, st2).len() by {
        lemma_index_layout(idx2, st2, bytes@);
        assert(header_at(bytes@, idx2.header));
        assert(entries_at(bytes@, HEADER_LEN as int, idx2.entries@, idx2.header.version, st2));
    }
    if bytes.len() - pos < CHECKSUM_LEN {
        assert forall|idx2: Index, st2: Seq<nat>| idx2.wf() && #[trigger] index_frames(idx2, st2, bytes@)
            implies false by {
            lemma_index_layout(idx2, st2, bytes@);
        }
        return fail(ErrorKind::TruncatedInput, Component::Checksum, bytes.len());
    }
    let body_end = bytes.len() - CHECKSUM_LEN;
    let extensions = match parse_extensions(bytes, pos, body_end) {
        Ok(xs) => xs,
        Err(err) => {
            assert forall|idx2: Index, st2: Seq<nat>| idx2.wf() && #[trigger] index_frames(idx2, st2, bytes@)
                implies false by {
                lemma_index_layout(idx2, st2, bytes@);
                assert(extensions_at(bytes@, pos as int, body_end as int, idx2.extensions@));
            }
            return Err(err);
        },
    };
    assert forall|idx2: Index, st2: Seq<nat>| idx2.wf() && #[trigger] index_frames(idx2, st2, bytes@)
        implies extensions@.len() == idx2.extensions@.len()
        && (forall|j: int| 0 <= j < extensions@.len() ==> same_extension(#[trigger] extensions@[j], idx2.extensions@[j]))
        && bytes@.subrange(0, body_end as int) == body_image(idx2, st2)
        && bytes@.subrange(body_end as int, bytes@.len() as int) == idx2.sha1_checksum@ by {
        lemma_index_layout(idx2, st2, bytes@);
        assert(extensions_at(bytes@, pos as int, body_end as int, idx2.extensions@));
    }
    if verify_checksum {
        let digest = digest_prefix(bytes, body_end);
        if !checksum_matches(digest.as_slice(), bytes, body_end) {
            assert forall|idx2: Index, st2: Seq<nat>| idx2.wf() && #[trigger] index_frames(idx2, st2, bytes@)
                implies idx2.sha1_checksum@ != sha1_of(body_image(idx2, st2)) by {
            }
            return fail(ErrorKind::ChecksumMismatch, Component::Checksum, body_end);
        }
        assert forall|idx2: Index, st2: Seq<nat>| idx2.wf() && #[trigger] index_frames(idx2, st2, bytes@)
            implies idx2.sha1_checksum@ == sha1_of(body_image(idx2, st2)) by {
        }
    }
    let sha1_checksum = copy_range(bytes, body_end, bytes.len());
    let idx = Index { header, entries, extensions, sha1_checksum };
    proof {
        lemma_join(bytes@, 0, HEADER_LEN as int, pos as int);
        lemma_join(bytes@, 0, pos as int, body_end as int);
        lemma_join(bytes@, 0, body_end as int, bytes@.len() as int);
        assert(bytes@.subrange(0, bytes@.len() as int) =~= bytes@);
        assert(body_image(idx, strips) == bytes@.subrange(0, body_end as int));
        assert(index_matches(idx, strips, bytes@, verify_checksum));
        assert(idx.wf());
        assert(exists|st: Seq<nat>| #[trigger] index_matches(idx, st, bytes@, verify_checksum));
    }
    assert forall|idx2: Index, st2: Seq<nat>| idx2.wf() && #[trigger] index_matches(idx2, st2, bytes@, verify_checksum)
        implies same_index(idx, idx2) by {
        assert(index_frames(idx2, st2, bytes@));
    }
    let r: Result<Index, DecodeError> = Ok(idx);
    assert(r->Ok_0.wf());
    assert(exists|st: Seq<nat>| #[trigger] index_matches(r->Ok_0, st, bytes@, verify_checksum));
    assert(header_error(bytes@) is None);
    r
}

/// Decodes a whole index and verifies its checksum, failing on the first
/// error. On success the result is well formed and `bytes` encode it,
/// checksum included. Success is owed exactly when `bytes` encode some
/// well-formed index, and that index is then the result.
pub fn decode(bytes: &[u8]) -> (r: Result<Index, DecodeError>)
    ensures
        header_error(bytes@) is Some ==> r is Err && Some(r->Err_0.kind) == header_error(bytes@),
        r is Ok ==> r->Ok_0.wf() && exists|strips: Seq<nat>| #[trigger] index_encodes(r->Ok_0, strips, bytes@),
        forall|idx2: Index, st2: Seq<nat>| idx2.wf() && #[trigger] index_encodes(idx2, st2, bytes@)
            ==> r is Ok && same_index(r->Ok_0, idx2),
        forall|idx2: Index, st2: Seq<nat>| idx2.wf() && #[trigger] index_frames(idx2, st2, bytes@)
            && idx2.sha1_checksum@ != sha1_of(body_image(idx2, st2)) ==> r == Err::<Index, DecodeError>(
            DecodeError {
                kind: ErrorKind::ChecksumMismatch,
                component: Component::Checksum,
                offset: (bytes@.len() - 20) as usize,
            },
        ),
{
    let r = decode_with(bytes, true);
    assert forall|idx2: Index, st2: Seq<nat>| idx2.wf() && #[trigger] index_encodes(idx2, st2, bytes@)
        implies r is Ok && same_index(r->Ok_0, idx2) by {
        assert(index_matches(idx2, st2, bytes@, true));
    }
    proof {
        if r is Ok {
            let st = choose|st: Seq<nat>| #[trigger] index_matches(r->Ok_0, st, bytes@, true);
            assert(index_encodes(r->Ok_0, st, bytes@));
        }
    }
    r
}

/// Whether the entries are in strictly ascending path order.
pub fn entries_in_order(entries: &Vec<IndexEntry>) -> (r: bool)
    ensures
        r == entries_sorted(entries@),
{
    let mut i: usize = 1;
    while i < entries.len()
        invariant
            1 <= i,
            forall|j: int| 0 < j < i && j < entries@.len() ==> path_lt(entries@[j - 1].path@, (#[trigger] entries@[j]).path@),
        decreases entries@.len() - i,
    {
        if !path_less(entries[i - 1].path.as_slice(), entries[i].path.as_slice()) {
            return false;
        }
        i = i + 1;
    }
    true
}

/// Appends the encoding of the entries to `out`, each version-4 path written
/// against the path before it with the standard strip count.
fn encode_entries(es: &Vec<IndexEntry>, version: u32, out: &mut Vec<u8>)
    ensures
        final(out)@ == old(out)@ + entries_image(es@, version, standard_strips(es@)),
{
    let ghost start = out@;
    let empty: Vec<u8> = Vec::new();
    let mut i: usize = 0;
    assert(es@.subrange(0, 0) =~= Seq::<IndexEntry>::empty());
    assert(standard_strips(es@).subrange(0, 0) =~= Seq::<nat>::empty());
    while i < es.len()
        invariant
            i <= es@.len(),
            empty@.len() == 0,
            out@ == start + entries_image(es@.subrange(0, i as int), version, standard_strips(es@).subrange(0, i as int)),
        decreases es@.len() - i,
    {
        let prev: &[u8] = if i == 0 { empty.as_slice() } else { es[i - 1].path.as_slice() };
        assert(prev@ == prev_path(es@, i as int));
        encode_entry(&es[i], version, prev, out);
        proof {
            let a = es@.subrange(0, i + 1);
            let b = standard_strips(es@).subrange(0, i + 1);
            assert(a.drop_last() =~= es@.subrange(0, i as int));
            assert(b.drop_last() =~= standard_strips(es@).subrange(0, i as int));
            assert(prev_path(a, i as int) == prev_path(es@, i as int));
            assert(a.last() == es@[i as int]);
        }
        i = i + 1;
    }
    assert(es@.subrange(0, i as int) =~= es@);
    assert(standard_strips(es@).subrange(0, i as int) =~= standard_strips(es@));
}

/// Appends the encoding of the extensions to `out`.
fn encode_extensions(xs: &Vec<IndexExtension>, out: &mut Vec<u8>)
    requires
        extensions_fit(xs@),
    ensures
        final(out)@ == old(out)@ + extensions_image(xs@),
{
    let ghost start = out@;
    let mut i: usize = 0;
    assert(xs@.subrange(0, 0) =~= Seq::<IndexExtension>::empty());
    while i < xs.len()
        invariant
            i <= xs@.len(),
            extensions_fit(xs@),
            out@ == start + extensions_image(xs@.subrange(0, i as int)),
        decreases xs@.len() - i,
    {
        assert(xs@[i as int].data@.len() <= u32::MAX);
        encode_extension(&xs[i], out);
        assert(xs@.subrange(0, i + 1).drop_last() =~= xs@.subrange(0, i as int));
        i = i + 1;
    }
    assert(xs@.subrange(0, i as int) =~= xs@);
}

/// Encodes `idx` with the standard version-4 compression and a freshly
/// computed checksum. Refuses (returns `None`) an index whose entries are not
/// in strictly ascending path order, or whose extension payload is too long
/// for its length field.
pub fn encode(idx: &Index) -> (r: Option<Vec<u8>>)
    ensures
        r is Some <==> entries_sorted(idx.entries@) && extensions_fit(idx.extensions@),
        r is Some ==> r->Some_0@ == encoded(*idx),
{
    if !entries_in_order(&idx.entries) {
        return None;
    }
    let mut i: usize = 0;
    while i < idx.extensions.len()
        invariant
            i <= idx.extensions@.len(),
            forall|j: int| 0 <= j < i ==> (#[trigger] idx.extensions@[j]).data@.len() <= u32::MAX,
        decreases idx.extensions@.len() - i,
    {
        if idx.extensions[i].data.len() > 0xFFFF_FFFFusize {
            return None;
        }
        i = i + 1;
    }
    let mut out: Vec<u8> = Vec::new();
    encode_header(&idx.header, &mut out);
    encode_entries(&idx.entries, idx.header.version, &mut out);
    encode_extensions(&idx.extensions, &mut out);
    assert(out@ =~= body_image(*idx, standard_strips(idx.entries@)));
    let digest = digest_prefix(out.as_slice(), out.len());
    assert(out@.subrange(0, out@.len() as int) =~= out@);
    crate::bytes::push_all(&mut out, digest.as_slice());
    Some(out)
}

/// In versions 2 and 3 the entry bytes do not depend on strip counts.
proof fn lemma_image_ignores_strips(es: Seq<IndexEntry>, version: u32, a: Seq<nat>, b: Seq<nat>)
    requires
        version < 4,
    ensures
        entries_image(es, version, a) == entries_image(es, version, b),
    decreases es.len(),
{
    if es.len() > 0 {
        lemma_image_ignores_strips(es.drop_last(), version, a.drop_last(), b.drop_last());
    }
}

/// Decoding then encoding gives back the original bytes: for any bytes that
/// encode a well-formed index (as `decode` ensures of its result), `encode`
/// accepts the index and reproduces those bytes, provided the version-4 paths
/// were written with the standard strip counts. Versions 2 and 3 need nothing more.
pub proof fn lemma_decode_then_encode(idx: Index, strips: Seq<nat>, bytes: Seq<u8>)
    requires
        idx.wf(),
        index_encodes(idx, strips, bytes),
        idx.header.version < 4 || strips == standard_strips(idx.entries@),
    ensures
        entries_sorted(idx.entries@),
        extensions_fit(idx.extensions@),
        encoded(idx) == bytes,
{
    if idx.header.version < 4 {
        lemma_image_ignores_strips(
            idx.entries@,
            idx.header.version,
            strips,
            standard_strips(idx.entries@),
        );
    }
    assert forall|i: int| 0 <= i < idx.extensions@.len() implies (#[trigger] idx.extensions@[i]).data@.len() <= u32::MAX by {
        assert(idx.extensions@[i].wf());
    }
}

/// What `encode` writes is a valid encoding of the index it was given, with
/// the standard strip counts, once the index carries the checksum that
/// `encode` computes. So `decode` gives that index back (see its contract).
pub proof fn lemma_encode_then_decode(idx: Index)
    requires
        idx.wf(),
        idx.sha1_checksum@ == sha1_of(body_image(idx, standard_strips(idx.entries@))),
    ensures
        index_encodes(idx, standard_strips(idx.entries@), encoded(idx)),
{
    let es = idx.entries@;
    let v = idx.header.version;
    let st = standard_strips(es);
    assert forall|i: int| 0 <= i < es.len() implies #[trigger] entry_encodes(
        es[i],
        v,
        prev_path(es, i),
        st[i],
        entry_image(es[i], v, prev_path(es, i), st[i]),
    ) by {
        crate::entry::lemma_standard_strip(prev_path(es, i), es[i].path@);
    }
}

} // verus!
