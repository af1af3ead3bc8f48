use vstd::prelude::*;
use crate::error::{DecodeError, ErrorKind, Component, fail};

verus! {

/// Path reconstruction for version 4: drop the last `n` bytes of `prev`,
/// then append `suffix`.
pub open spec fn apply_strip(prev: Seq<u8>, n: int, suffix: Seq<u8>) -> Seq<u8> {
    prev.subrange(0, prev.len() - n) + suffix
}

/// Whether `s` holds no NUL byte.
pub open spec fn no_nul(s: Seq<u8>) -> bool {
    forall|i: int| 0 <= i < s.len() ==> s[i] != 0
}

/// Length of the longest common prefix of `a` and `b`, counted from `i`.
pub open spec fn lcp_from(a: Seq<u8>, b: Seq<u8>, i: int) -> int
    decreases a.len() - i,
{
    if 0 <= i < a.len() && i < b.len() && a[i] == b[i] {
        lcp_from(a, b, i + 1)
    } else {
        i
    }
}

/// Length of the longest common prefix of `a` and `b`.
pub open spec fn common_prefix_len(a: Seq<u8>, b: Seq<u8>) -> int {
    lcp_from(a, b, 0)
}

/// Bytes of the git variable-length integer: seven bits per byte, most
/// significant group first, each continued group offset by one.
pub open spec fn varint(v: nat) -> Seq<u8>
    decreases v,
{
    if v < 128 {
        seq![v as u8]
    } else {
        varint_lead((v / 128 - 1) as nat) + seq![(v % 128) as u8]
    }
}

/// The leading bytes of a variable-length integer: all have the high bit set.
pub open spec fn varint_lead(v: nat) -> Seq<u8>
    decreases v,
{
    if v < 128 {
        seq![(v + 128) as u8]
    } else {
        varint_lead((v / 128 - 1) as nat) + seq![(v % 128 + 128) as u8]
    }
}

/// Whether `p` is a prefix of `s`.
pub open spec fn is_prefix(p: Seq<u8>, s: Seq<u8>) -> bool {
    p.len() <= s.len() && s.subrange(0, p.len() as int) == p
}

/// The value `v` is written, complete, at `pos` in `s`.
pub open spec fn varint_framed(s: Seq<u8>, pos: int, v: nat) -> bool {
    &&& 0 <= pos
    &&& pos + varint(v).len() <= s.len()
    &&& s.subrange(pos, pos + varint(v).len()) == varint(v)
}

/// The value `v` is written, within `limit`, at `pos` in `s`.
pub open spec fn varint_at(s: Seq<u8>, pos: int, v: nat, limit: int) -> bool {
    v <= limit && varint_framed(s, pos, v)
}

proof fn lemma_lead_shape(a: nat)
    ensures
        varint_lead(a).len() >= 1,
        varint_lead(a).len() == 1 <==> a < 128,
        forall|i: int| 0 <= i < varint_lead(a).len() ==> varint_lead(a)[i] >= 128,
    decreases a,
{
    if a >= 128 {
        lemma_lead_shape((a / 128 - 1) as nat);
    }
}

/// Appending one byte to leading bytes.
proof fn lemma_lead_extend(a: nat, low: nat)
    requires
        low < 128,
    ensures
        varint_lead(((a + 1) * 128 + low) as nat) == varint_lead(a) + seq![(low + 128) as u8],
        varint(((a + 1) * 128 + low) as nat) == varint_lead(a) + seq![low as u8],
{
    let n = ((a + 1) * 128 + low) as nat;
    assert(n / 128 - 1 == a && n % 128 == low && n >= 128) by (nonlinear_arith)
        requires
            n == (a + 1) * 128 + low,
            low < 128,
    ;
}

proof fn lemma_lead_injective(a: nat, w: nat)
    requires
        varint_lead(a) == varint_lead(w),
    ensures
        a == w,
    decreases a,
{
    lemma_lead_shape(a);
    lemma_lead_shape(w);
    if a < 128 {
        assert(w < 128);
        assert(varint_lead(a)[0] == varint_lead(w)[0]);
        assert(varint_lead(a)[0] == (a + 128) as u8);
        assert(varint_lead(w)[0] == (w + 128) as u8);
    } else {
        let a1 = (a / 128 - 1) as nat;
        let w1 = (w / 128 - 1) as nat;
        assert(varint_lead(a).drop_last() =~= varint_lead(a1));
        assert(varint_lead(w).drop_last() =~= varint_lead(w1));
        lemma_lead_injective(a1, w1);
        assert(w >= 128);
        assert(varint_lead(a).last() == (a % 128 + 128) as u8);
        assert(varint_lead(w).last() == (w % 128 + 128) as u8);
        assert(a % 128 == w % 128);
        assert(a / 128 == w / 128);
        assert(a == (a / 128) * 128 + a % 128) by (nonlinear_arith);
        assert(w == (w / 128) * 128 + w % 128) by (nonlinear_arith);
        assert((a / 128) * 128 == (w / 128) * 128);
    }
}

/// Leading bytes that are a strict prefix of longer leading bytes.
proof fn lemma_lead_step(a: nat, w: nat)
    requires
        varint_lead(a).len() < varint_lead(w).len(),
        is_prefix(varint_lead(a), varint_lead(w)),
    ensures
        a < w,
        is_prefix(varint_lead(a).push(varint_lead(w)[varint_lead(a).len() as int]), varint_lead(w)),
    decreases w,
{
    lemma_lead_shape(a);
    lemma_lead_shape(w);
    let la = varint_lead(a);
    let lw = varint_lead(w);
    let w1 = (w / 128 - 1) as nat;
    assert(lw.drop_last() =~= varint_lead(w1));
    if la.len() < varint_lead(w1).len() {
        assert(varint_lead(w1).subrange(0, la.len() as int) =~= lw.subrange(0, la.len() as int));
        lemma_lead_step(a, w1);
        assert(lw.subrange(0, la.len() + 1int) =~= varint_lead(w1).subrange(0, la.len() + 1int));
        assert(w1 < w);
    } else {
        assert(la =~= varint_lead(w1));
        lemma_lead_injective(a, w1);
        assert(lw.subrange(0, la.len() + 1int) =~= lw);
        assert(la.push(lw[la.len() as int]) =~= lw);
    }
}

/// Leading bytes that are a prefix of the encoding of `v`: the byte after them
/// either ends the encoding or extends them.
proof fn lemma_varint_step(a: nat, v: nat)
    requires
        is_prefix(varint_lead(a), varint(v)),
    ensures
        varint_lead(a).len() < varint(v).len(),
        a < v,
        ({
            let d = varint(v)[varint_lead(a).len() as int];
            &&& d < 128 ==> varint(v) == varint_lead(a).push(d) && v == (a + 1) * 128 + d
            &&& d >= 128 ==> is_prefix(varint_lead(a).push(d), varint(v))
        }),
{
    lemma_lead_shape(a);
    let la = varint_lead(a);
    if v < 128 {
        assert(varint(v).subrange(0, la.len() as int)[0] == la[0]);
    } else {
        let v1 = (v / 128 - 1) as nat;
        let lv = varint_lead(v1);
        lemma_lead_shape(v1);
        assert(varint(v).drop_last() =~= lv);
        if la.len() == varint(v).len() {
            assert(varint(v).subrange(0, la.len() as int)[la.len() - 1] == la[la.len() - 1]);
        }
        if la.len() < lv.len() {
            assert(lv.subrange(0, la.len() as int) =~= varint(v).subrange(0, la.len() as int));
            lemma_lead_step(a, v1);
            assert(varint(v).subrange(0, la.len() + 1int) =~= lv.subrange(0, la.len() + 1int));
            assert(v1 < v);
        } else {
            assert(la =~= lv);
            lemma_lead_injective(a, v1);
            assert(varint(v) =~= la.push(varint(v)[la.len() as int]));
            assert(v == (v / 128) * 128 + v % 128);
        }
    }
}

pub proof fn lemma_lcp_bounds(a: Seq<u8>, b: Seq<u8>, i: int)
    requires
        0 <= i <= a.len(),
        i <= b.len(),
        a.subrange(0, i) == b.subrange(0, i),
    ensures
        i <= lcp_from(a, b, i) <= a.len(),
        lcp_from(a, b, i) <= b.len(),
        a.subrange(0, lcp_from(a, b, i)) == b.subrange(0, lcp_from(a, b, i)),
    decreases a.len() - i,
{
    if i < a.len() && i < b.len() && a[i] == b[i] {
        assert(a.subrange(0, i + 1) =~= a.subrange(0, i).push(a[i]));
        assert(b.subrange(0, i + 1) =~= b.subrange(0, i).push(b[i]));
        lemma_lcp_bounds(a, b, i + 1);
    }
}

/// Reconstructs a version-4 path from the previous path, the strip count and
/// the suffix; `None` when the strip count exceeds the previous path's length.
pub fn decode_path(prev: &[u8], strip: usize, suffix: &[u8]) -> (r: Option<Vec<u8>>)
    ensures
        r is Some <==> strip <= prev@.len(),
        r is Some ==> r->Some_0@ == apply_strip(prev@, strip as int, suffix@),
{
    if strip > prev.len() {
        return None;
    }
    let keep = prev.len() - strip;
    let mut out: Vec<u8> = Vec::new();
    let mut i: usize = 0;
    while i < keep
        invariant
            keep <= prev@.len(),
            i <= keep,
            out@ == prev@.subrange(0, i as int),
        decreases keep - i,
    {
        out.push(prev[i]);
        i = i + 1;
        assert(out@ =~= prev@.subrange(0, i as int));
    }
    crate::bytes::push_all(&mut out, suffix);
    Some(out)
}

/// Index of the first NUL byte of `buf[start .. end]`, or `end` if there is none.
pub fn first_nul(buf: &[u8], start: usize, end: usize) -> (r: usize)
    requires
        start <= end <= buf@.len(),
    ensures
        start <= r <= end,
        no_nul(buf@.subrange(start as int, r as int)),
        r < end ==> buf@[r as int] == 0,
{
    let mut i: usize = start;
    while i < end && buf[i] != 0
        invariant
            start <= i <= end <= buf@.len(),
            no_nul(buf@.subrange(start as int, i as int)),
        decreases end - i,
    {
        assert(buf@.subrange(start as int, i + 1) =~= buf@.subrange(start as int, i as int).push(buf@[i as int]));
        i = i + 1;
    }
    i
}

/// Decodes the variable-length integer at `pos`, which must not exceed `limit`.
/// On success returns the value and the position just past it.
pub fn read_varint(buf: &[u8], pos: usize, limit: usize) -> (r: Result<(usize, usize), DecodeError>)
    requires
        pos <= buf@.len(),
    ensures
        r is Ok ==> pos < r->Ok_0.1 <= buf@.len() && r->Ok_0.0 <= limit
            && buf@.subrange(pos as int, r->Ok_0.1 as int) == varint(r->Ok_0.0 as nat),
        r is Err ==> r->Err_0.kind == ErrorKind::TruncatedInput
            || r->Err_0.kind == ErrorKind::InvalidPathEncoding,
        forall|v: nat| #[trigger] varint_framed(buf@, pos as int, v) ==> (v <= limit ==> r is Ok
            && r->Ok_0.0 == v && r->Ok_0.1 == pos + varint(v).len())
            && (v > limit ==> r is Err && r->Err_0.kind == ErrorKind::InvalidPathEncoding),
{
    if pos >= buf.len() {
        assert forall|v: nat| #[trigger] varint_framed(buf@, pos as int, v) implies false by {
            if v >= 128 {
                lemma_lead_shape((v / 128 - 1) as nat);
            }
        }
        return fail(ErrorKind::TruncatedInput, Component::Path, buf.len());
    }
    let c = buf[pos];
    assert forall|v: nat| #[trigger] varint_framed(buf@, pos as int, v) implies varint(v)[0] == c by {
        if v >= 128 {
            lemma_lead_shape((v / 128 - 1) as nat);
        }
        assert(buf@.subrange(pos as int, pos + varint(v).len())[0] == buf@[pos as int]);
    }
    if c < 128 {
        assert forall|v: nat| #[trigger] varint_framed(buf@, pos as int, v) implies v == c && varint(v).len() == 1 by {
            if v >= 128 {
                lemma_lead_shape((v / 128 - 1) as nat);
                assert(varint(v)[0] == varint_lead((v / 128 - 1) as nat)[0]);
            }
        }
        if c as usize > limit {
            return fail(ErrorKind::InvalidPathEncoding, Component::Path, pos);
        }
        assert(buf@.subrange(pos as int, pos + 1) =~= varint(c as nat));
        return Ok((c as usize, pos + 1));
    }
    let mut acc: u128 = (c - 128) as u128;
    let mut i: usize = pos + 1;
    assert(buf@.subrange(pos as int, i as int) =~= varint_lead(acc as nat));
    assert forall|v: nat| #[trigger] varint_framed(buf@, pos as int, v) implies is_prefix(varint_lead(acc as nat), varint(v)) by {
        if v >= 128 {
            lemma_lead_shape((v / 128 - 1) as nat);
        }
        assert(varint(v).subrange(0, 1) =~= varint_lead(acc as nat));
    }
    if acc > limit as u128 {
        assert forall|v: nat| #[trigger] varint_framed(buf@, pos as int, v) implies v > limit by {
            lemma_varint_step(acc as nat, v);
        }
        return fail(ErrorKind::InvalidPathEncoding, Component::Path, pos);
    }
    loop
        invariant
            pos < i <= buf@.len(),
            acc <= limit,
            buf@.subrange(pos as int, i as int) == varint_lead(acc as nat),
            forall|v: nat| #[trigger] varint_framed(buf@, pos as int, v) ==> is_prefix(varint_lead(acc as nat), varint(v)),
        decreases buf@.len() - i,
    {
        assert forall|v: nat| #[trigger] varint_framed(buf@, pos as int, v) implies i < pos + varint(v).len() && varint(v)[i - pos] == buf@[i as int] by {
            lemma_varint_step(acc as nat, v);
            assert(buf@.subrange(pos as int, pos + varint(v).len())[i - pos] == buf@[i as int]);
        }
        if i >= buf.len() {
            assert forall|v: nat| #[trigger] varint_framed(buf@, pos as int, v) implies false by {
                lemma_varint_step(acc as nat, v);
            }
            return fail(ErrorKind::TruncatedInput, Component::Path, buf.len());
        }
        let d = buf[i];
        let low: u128 = if d < 128 { d as u128 } else { (d - 128) as u128 };
        let next: u128 = (acc + 1) * 128 + low;
        assert(next / 128 - 1 == acc && next % 128 == low && next >= 128) by (nonlinear_arith)
            requires
                next == (acc + 1) * 128 + low,
                low < 128,
        ;
        assert(buf@.subrange(pos as int, i + 1) =~= buf@.subrange(pos as int, i as int).push(d));
        proof {
            lemma_lead_extend(acc as nat, low as nat);
        }
        assert forall|v: nat| #[trigger] varint_framed(buf@, pos as int, v) implies (d < 128 ==> v == next && varint(v).len() == i + 1 - pos)
            && (d >= 128 ==> next < v && is_prefix(varint_lead(next as nat), varint(v))) by {
            lemma_varint_step(acc as nat, v);
            if d >= 128 {
                assert(varint_lead(next as nat) =~= varint_lead(acc as nat).push(d));
                lemma_varint_step(next as nat, v);
            }
        }
        if next > limit as u128 {
            return fail(ErrorKind::InvalidPathEncoding, Component::Path, pos);
        }
        if d < 128 {
            assert(buf@.subrange(pos as int, i + 1) =~= varint(next as nat));
            return Ok((next as usize, i + 1));
        }
        assert(buf@.subrange(pos as int, i + 1) =~= varint_lead(next as nat));
        acc = next;
        i = i + 1;
    }
}

/// Length of the longest common prefix of `a` and `b`.
pub fn common_prefix(a: &[u8], b: &[u8]) -> (r: usize)
    ensures
        r == common_prefix_len(a@, b@),
        r <= a@.len(),
        r <= b@.len(),
        a@.subrange(0, r as int) == b@.subrange(0, r as int),
{
    proof {
        assert(a@.subrange(0, 0) =~= b@.subrange(0, 0));
        lemma_lcp_bounds(a@, b@, 0);
    }
    let mut i: usize = 0;
    while i < a.len() && i < b.len() && a[i] == b[i]
        invariant
            i <= a@.len(),
            i <= b@.len(),
            lcp_from(a@, b@, i as int) == lcp_from(a@, b@, 0),
        decreases a@.len() - i,
    {
        i = i + 1;
    }
    assert(lcp_from(a@, b@, i as int) == i);
    i
}

/// Appends the leading bytes of a variable-length integer to `out`.
fn push_varint_lead(out: &mut Vec<u8>, v: usize)
    ensures
        final(out)@ == old(out)@ + varint_lead(v as nat),
    decreases v,
{
    if v < 128 {
        out.push((v + 128) as u8);
        assert(final(out)@ =~= old(out)@ + varint_lead(v as nat));
    } else {
        push_varint_lead(out, v / 128 - 1);
        out.push((v % 128 + 128) as u8);
        assert(final(out)@ =~= old(out)@ + varint_lead(v as nat));
    }
}

/// Appends the variable-length encoding of `v` to `out`.
pub fn push_varint(out: &mut Vec<u8>, v: usize)
    ensures
        final(out)@ == old(out)@ + varint(v as nat),
{
    if v < 128 {
        out.push(v as u8);
        assert(final(out)@ =~= old(out)@ + varint(v as nat));
    } else {
        push_varint_lead(out, v / 128 - 1);
        out.push((v % 128) as u8);
        assert(final(out)@ =~= old(out)@ + varint(v as nat));
    }
}

} // verus!
