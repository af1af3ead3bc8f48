use vstd::prelude::*;
use crate::bytes::{be32, u32_at, read_be32, push_be32, push_all, copy_range};
use crate::error::{DecodeError, ErrorKind, Component, fail};

verus! {

/// Bytes of an extension header: the signature and the payload length.
pub const EXTENSION_HEADER_LEN: usize = 8;

/// A named block between the last entry and the checksum.
#[derive(Debug, Clone, PartialEq, Eq)]
pub struct IndexExtension {
    /// Four bytes; an uppercase ASCII first byte marks the extension optional.
    pub signature: Vec<u8>,
    /// The payload, kept as it was read.
    pub data: Vec<u8>,
}

impl IndexExtension {
    pub open spec fn wf(&self) -> bool {
        &&& self.signature@.len() == 4
        &&& self.data@.len() <= u32::MAX
    }
}

/// An extension whose signature starts with `A`..`Z` may be skipped by a reader
/// that does not understand it.
pub open spec fn is_optional(sig: Seq<u8>) -> bool {
    sig.len() > 0 && 0x41 <= sig[0] <= 0x5A
}

/// The bytes of one extension: signature, big-endian payload length, payload.
pub open spec fn extension_image(x: IndexExtension) -> Seq<u8> {
    x.signature@ + be32(x.data@.len() as u32) + x.data@
}

/// The bytes of a sequence of extensions, in order.
pub open spec fn extensions_image(xs: Seq<IndexExtension>) -> Seq<u8>
    decreases xs.len(),
{
    if xs.len() == 0 {
        Seq::empty()
    } else {
        extensions_image(xs.drop_last()) + extension_image(xs.last())
    }
}

/// `a` and `b` hold the same values.
pub open spec fn same_extension(a: IndexExtension, b: IndexExtension) -> bool {
    a.signature@ == b.signature@ && a.data@ == b.data@
}

/// Extension `x`, well formed and optional, is encoded at `pos` in `s`, ending by `end`.
pub open spec fn extension_at(s: Seq<u8>, pos: int, end: int, x: IndexExtension) -> bool {
    &&& x.wf()
    &&& is_optional(x.signature@)
    &&& 0 <= pos
    &&& pos + extension_image(x).len() <= end <= s.len()
    &&& s.subrange(pos, pos + extension_image(x).len()) == extension_image(x)
}

/// Whether the extension framed at `pos` fits before `end`.
pub open spec fn extension_fits(s: Seq<u8>, pos: int, end: int) -> bool {
    end - pos >= 8 && u32_at(s, pos + 4) <= end - pos - 8
}

/// Decodes the extension that starts at `pos` and must end by `end`; returns it
/// and the position just past it. No mandatory extension (first signature byte
/// not `A`..`Z`) has a handler here, so a well-framed one is refused.
pub fn parse_index_extension(input: &[u8], pos: usize, end: usize) -> (r: Result<
    (IndexExtension, usize),
    DecodeError,
>)
    requires
        pos <= end <= input@.len(),
    ensures
        r is Ok <==> extension_fits(input@, pos as int, end as int)
            && is_optional(input@.subrange(pos as int, pos + 4)),
        r is Err ==> r->Err_0 == (DecodeError {
            kind: if extension_fits(input@, pos as int, end as int) {
                ErrorKind::UnsupportedMandatoryExtension
            } else {
                ErrorKind::TrailingExtensionData
            },
            component: Component::Extension,
            offset: pos,
        }),
        r is Ok ==> {
            let (x, next) = r->Ok_0;
            &&& x.wf()
            &&& is_optional(x.signature@)
            &&& next == pos + 8 + x.data@.len() <= end
            &&& x.signature@ == input@.subrange(pos as int, pos + 4)
            &&& x.data@.len() == u32_at(input@, pos + 4)
            &&& input@.subrange(pos as int, next as int) == extension_image(x)
        },
        forall|x2: IndexExtension| #[trigger] extension_at(input@, pos as int, end as int, x2) ==> r is Ok
            && same_extension(r->Ok_0.0, x2) && r->Ok_0.1 == pos + extension_image(x2).len(),
{
    if end - pos < EXTENSION_HEADER_LEN {
        assert forall|x2: IndexExtension| #[trigger] extension_at(input@, pos as int, end as int, x2) implies false by {
        }
        return fail(ErrorKind::TrailingExtensionData, Component::Extension, pos);
    }
    let signature = copy_range(input, pos, pos + 4);
    let len = read_be32(input, pos + 4);
    assert forall|x2: IndexExtension| #[trigger] extension_at(input@, pos as int, end as int, x2) implies len == x2.data@.len() by {
        let img = extension_image(x2);
        crate::bytes::lemma_sub_sub(input@, pos as int, img, 4, 8);
        assert(img.subrange(4, 8) =~= be32(x2.data@.len() as u32));
        crate::bytes::lemma_be32_injective(len, x2.data@.len() as u32);
    }
    if len as usize > end - pos - EXTENSION_HEADER_LEN {
        return fail(ErrorKind::TrailingExtensionData, Component::Extension, pos);
    }
    if !(0x41u8 <= signature[0] && signature[0] <= 0x5Au8) {
        assert forall|x2: IndexExtension| #[trigger] extension_at(input@, pos as int, end as int, x2) implies false by {
            let img = extension_image(x2);
            crate::bytes::lemma_sub_sub(input@, pos as int, img, 0, 4);
            assert(img.subrange(0, 4) =~= x2.signature@);
        }
        return fail(ErrorKind::UnsupportedMandatoryExtension, Component::Extension, pos);
    }
    let next = pos + EXTENSION_HEADER_LEN + len as usize;
    let data = copy_range(input, pos + EXTENSION_HEADER_LEN, next);
    let x = IndexExtension { signature, data };
    assert((x.data@.len() as u32) == len);
    assert(input@.subrange(pos as int, next as int) =~= extension_image(x));
    assert forall|x2: IndexExtension| #[trigger] extension_at(input@, pos as int, end as int, x2) implies same_extension(x, x2)
        && next == pos + extension_image(x2).len() by {
        let img = extension_image(x2);
        crate::bytes::lemma_sub_sub(input@, pos as int, img, 0, 4);
        assert(img.subrange(0, 4) =~= x2.signature@);
        crate::bytes::lemma_sub_sub(input@, pos as int, img, 8, img.len() as int);
        assert(img.subrange(8, img.len() as int) =~= x2.data@);
    }
    Ok((x, next))
}

/// Extensions `xs`, each well formed and optional, fill `s[pos .. end]`.
pub open spec fn extensions_at(s: Seq<u8>, pos: int, end: int, xs: Seq<IndexExtension>) -> bool {
    &&& 0 <= pos <= end <= s.len()
    &&& forall|i: int| 0 <= i < xs.len() ==> (#[trigger] xs[i]).wf() && is_optional(xs[i].signature@)
    &&& extensions_image(xs) == s.subrange(pos, end)
}

pub proof fn lemma_extensions_split(xs: Seq<IndexExtension>, k: int)
    requires
        0 <= k <= xs.len(),
    ensures
        extensions_image(xs) == extensions_image(xs.take(k)) + extensions_image(xs.skip(k)),
    decreases xs.len(),
{
    if k == xs.len() {
        assert(xs.take(k) =~= xs);
        assert(xs.skip(k) =~= Seq::<IndexExtension>::empty());
        assert(extensions_image(xs) + Seq::<u8>::empty() =~= extensions_image(xs));
    } else {
        let dl = xs.drop_last();
        lemma_extensions_split(dl, k);
        assert(dl.take(k) =~= xs.take(k));
        assert(xs.skip(k).drop_last() =~= dl.skip(k));
        assert(xs.skip(k).last() == xs.last());
        assert(extensions_image(xs.skip(k)) == extensions_image(dl.skip(k)) + extension_image(xs.last()));
        assert(extensions_image(xs) =~= extensions_image(xs.take(k)) + extensions_image(xs.skip(k)));
    }
}

/// The first of a non-empty sequence of extensions is encoded first.
pub proof fn lemma_extensions_first(xs: Seq<IndexExtension>)
    requires
        xs.len() > 0,
    ensures
        extensions_image(xs) == extension_image(xs[0]) + extensions_image(xs.skip(1)),
{
    lemma_extensions_split(xs, 1);
    let t = xs.take(1);
    assert(t.drop_last() =~= Seq::<IndexExtension>::empty());
    assert(t.last() == xs[0]);
    assert(extensions_image(t.drop_last()) =~= Seq::<u8>::empty());
    assert(extensions_image(t) == extensions_image(t.drop_last()) + extension_image(t.last()));
    assert(extensions_image(t) =~= extension_image(xs[0]));
}

/// A step of the decoding loop: once `k` extensions of `xs` are read up to
/// `p`, the next one stands at `p`.
proof fn lemma_extensions_step(s: Seq<u8>, pos: int, p: int, end: int, xs: Seq<IndexExtension>, k: int)
    requires
        extensions_at(s, pos, end, xs),
        0 <= k <= xs.len(),
        pos <= p <= end,
        s.subrange(p, end) == extensions_image(xs.skip(k)),
    ensures
        k < xs.len() <==> p < end,
        k < xs.len() ==> extension_at(s, p, end, xs[k]) && is_optional(xs[k].signature@)
            && s.subrange(p + extension_image(xs[k]).len(), end) == extensions_image(xs.skip(k + 1)),
{
    if k < xs.len() {
        let ys = xs.skip(k);
        lemma_extensions_first(ys);
        assert(ys.skip(1) =~= xs.skip(k + 1));
        assert(ys[0] == xs[k]);
        assert(xs[k].wf());
        let img = extension_image(xs[k]);
        assert(img.len() >= 8);
        assert(s.subrange(p, end).len() == end - p);
        assert(img.len() <= end - p);
        assert(s.subrange(p, end).subrange(0, img.len() as int) =~= s.subrange(p, p + img.len()));
        assert(s.subrange(p, end).subrange(0, img.len() as int) =~= img);
        assert(s.subrange(p, end).subrange(img.len() as int, end - p) =~= s.subrange(p + img.len(), end));
        assert(s.subrange(p, end).subrange(img.len() as int, end - p) =~= extensions_image(xs.skip(k + 1)));
    } else {
        assert(xs.skip(k) =~= Seq::<IndexExtension>::empty());
        assert(extensions_image(xs.skip(k)) =~= Seq::<u8>::empty());
        assert(s.subrange(p, end).len() == 0);
    }
}

/// Decodes the extensions that fill `input[pos .. end]`, stopping at the first
/// one that `parse_index_extension` refuses.
pub fn parse_extensions(input: &[u8], pos: usize, end: usize) -> (r: Result<
    Vec<IndexExtension>,
    DecodeError,
>)
    requires
        pos <= end <= input@.len(),
    ensures
        r is Err ==> {
            let e = r->Err_0;
            &&& e.component == Component::Extension
            &&& pos <= e.offset < end
            &&& e.kind == if extension_fits(input@, e.offset as int, end as int) {
                ErrorKind::UnsupportedMandatoryExtension
            } else {
                ErrorKind::TrailingExtensionData
            }
            &&& exists|xs2: Seq<IndexExtension>| #[trigger] extensions_at(input@, pos as int, e.offset as int, xs2)
        },
        r is Ok ==> {
            let xs = r->Ok_0@;
            &&& extensions_image(xs) == input@.subrange(pos as int, end as int)
            &&& forall|i: int| 0 <= i < xs.len() ==> (#[trigger] xs[i]).wf() && is_optional(xs[i].signature@)
        },
        forall|xs2: Seq<IndexExtension>| #[trigger] extensions_at(input@, pos as int, end as int, xs2) ==> r is Ok
            && r->Ok_0@.len() == xs2.len()
            && forall|i: int| 0 <= i < xs2.len() ==> same_extension(#[trigger] r->Ok_0@[i], xs2[i]),
{
    let mut xs: Vec<IndexExtension> = Vec::new();
    let mut p: usize = pos;
    assert(input@.subrange(pos as int, pos as int) =~= Seq::<u8>::empty());
    assert forall|xs2: Seq<IndexExtension>| #[trigger] extensions_at(input@, pos as int, end as int, xs2) implies
        input@.subrange(p as int, end as int) == extensions_image(xs2.skip(0)) by {
        assert(xs2.skip(0) =~= xs2);
    }
    while p < end
        invariant
            pos <= p <= end <= input@.len(),
            extensions_image(xs@) == input@.subrange(pos as int, p as int),
            forall|i: int| 0 <= i < xs@.len() ==> (#[trigger] xs@[i]).wf() && is_optional(xs@[i].signature@),
            forall|xs2: Seq<IndexExtension>| #[trigger] extensions_at(input@, pos as int, end as int, xs2) ==> xs@.len() <= xs2.len()
                && (forall|i: int| 0 <= i < xs@.len() ==> same_extension(#[trigger] xs@[i], xs2[i]))
                && input@.subrange(p as int, end as int) == extensions_image(xs2.skip(xs@.len() as int)),
        decreases end - p,
    {
        let (x, next) = match parse_index_extension(input, p, end) {
            Ok(v) => v,
            Err(e) => {
                assert forall|xs2: Seq<IndexExtension>| #[trigger] extensions_at(input@, pos as int, end as int, xs2) implies false by {
                    lemma_extensions_step(input@, pos as int, p as int, end as int, xs2, xs@.len() as int);
                }
                assert(extensions_at(input@, pos as int, p as int, xs@));
                return Err(e);
            },
        };
        assert forall|xs2: Seq<IndexExtension>| #[trigger] extensions_at(input@, pos as int, end as int, xs2) implies xs@.len() < xs2.len()
            && same_extension(x, xs2[xs@.len() as int])
            && input@.subrange(next as int, end as int) == extensions_image(xs2.skip(xs@.len() + 1int)) by {
            lemma_extensions_step(input@, pos as int, p as int, end as int, xs2, xs@.len() as int);
        }
        let ghost old_xs = xs@;
        xs.push(x);
        proof {
            assert(xs@.drop_last() =~= old_xs);
            crate::entry::lemma_join(input@, pos as int, p as int, next as int);
        }
        assert forall|xs2: Seq<IndexExtension>| #[trigger] extensions_at(input@, pos as int, end as int, xs2) implies
            forall|i: int| 0 <= i < xs@.len() ==> same_extension(#[trigger] xs@[i], xs2[i]) by {
            assert forall|i: int| 0 <= i < xs@.len() implies same_extension(#[trigger] xs@[i], xs2[i]) by {
                if i < old_xs.len() {
                    assert(xs@[i] == old_xs[i]);
                }
            }
        }
        p = next;
    }
    assert forall|xs2: Seq<IndexExtension>| #[trigger] extensions_at(input@, pos as int, end as int, xs2) implies xs@.len() == xs2.len() by {
        lemma_extensions_step(input@, pos as int, p as int, end as int, xs2, xs@.len() as int);
    }
    Ok(xs)
}

/// Appends the encoding of `x` to `out`.
pub fn encode_extension(x: &IndexExtension, out: &mut Vec<u8>)
    requires
        x.data@.len() <= u32::MAX,
    ensures
        final(out)@ == old(out)@ + extension_image(*x),
{
    let ghost start = out@;
    push_all(out, x.signature.as_slice());
    push_be32(out, x.data.len() as u32);
    push_all(out, x.data.as_slice());
    assert(out@ =~= start + extension_image(*x));
}

} // verus!
