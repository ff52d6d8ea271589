//! Byte-level building blocks: lexicographic order and length framing.
use vstd::prelude::*;

verus! {

/// Strict lexicographic order on byte sequences.
pub open spec fn bytes_lt(a: Seq<u8>, b: Seq<u8>) -> bool
    decreases a.len(),
{
    if a.len() == 0 {
        b.len() > 0
    } else if b.len() == 0 {
        false
    } else if a[0] != b[0] {
        a[0] < b[0]
    } else {
        bytes_lt(a.drop_first(), b.drop_first())
    }
}

pub proof fn lemma_lt_irrefl(a: Seq<u8>)
    ensures
        !bytes_lt(a, a),
    decreases a.len(),
{
    if a.len() > 0 {
        lemma_lt_irrefl(a.drop_first());
    }
}

pub proof fn lemma_lt_trans(a: Seq<u8>, b: Seq<u8>, c: Seq<u8>)
    requires
        bytes_lt(a, b),
        bytes_lt(b, c),
    ensures
        bytes_lt(a, c),
    decreases a.len(),
{
    if a.len() > 0 && b.len() > 0 && c.len() > 0 && a[0] == b[0] && b[0] == c[0] {
        lemma_lt_trans(a.drop_first(), b.drop_first(), c.drop_first());
    }
}

proof fn lemma_lt_step(a: Seq<u8>, b: Seq<u8>, i: int)
    requires
        0 <= i < a.len(),
        i < b.len(),
        a[i] == b[i],
    ensures
        bytes_lt(a.skip(i), b.skip(i)) == bytes_lt(a.skip(i + 1), b.skip(i + 1)),
{
    assert(a.skip(i).drop_first() =~= a.skip(i + 1));
    assert(b.skip(i).drop_first() =~= b.skip(i + 1));
}

/// Three-way comparison: negative, zero or positive as `a` is below, equal to
/// or above `b` in lexicographic order.
pub fn compare_bytes(a: &[u8], b: &[u8]) -> (r: i8)
    ensures
        (r < 0) == bytes_lt(a@, b@),
        (r == 0) == (a@ == b@),
        (r > 0) == bytes_lt(b@, a@),
{
    proof {
        assert(a@.skip(0) =~= a@);
        assert(b@.skip(0) =~= b@);
        lemma_lt_irrefl(a@);
    }
    let mut i: usize = 0;
    while i < a.len() && i < b.len() && a[i] == b[i]
        invariant
            i <= a@.len(),
            i <= b@.len(),
            a@.subrange(0, i as int) == b@.subrange(0, i as int),
            bytes_lt(a@, b@) == bytes_lt(a@.skip(i as int), b@.skip(i as int)),
            bytes_lt(b@, a@) == bytes_lt(b@.skip(i as int), a@.skip(i as int)),
        decreases a@.len() - i,
    {
        proof {
            lemma_lt_step(a@, b@, i as int);
            lemma_lt_step(b@, a@, i as int);
            assert(a@.subrange(0, i + 1) =~= a@.subrange(0, i as int).push(a@[i as int]));
            assert(b@.subrange(0, i + 1) =~= b@.subrange(0, i as int).push(b@[i as int]));
        }
        i = i + 1;
    }
    if i == a.len() && i == b.len() {
        assert(a@ =~= a@.subrange(0, i as int));
        assert(b@ =~= b@.subrange(0, i as int));
        assert(a@.skip(i as int).len() == 0);
        assert(b@.skip(i as int).len() == 0);
        0
    } else if i == a.len() {
        assert(a@.skip(i as int).len() == 0);
        assert(a@ != b@);
        -1
    } else if i == b.len() {
        assert(b@.skip(i as int).len() == 0);
        assert(a@ != b@);
        1
    } else if a[i] < b[i] {
        assert(a@[i as int] != b@[i as int]);
        -1
    } else {
        assert(a@[i as int] != b@[i as int]);
        1
    }
}

/// The 64-bit big-endian encoding of a number.
pub open spec fn be64(n: u64) -> Seq<u8> {
    seq![
        (n >> 56u64) as u8,
        (n >> 48u64) as u8,
        (n >> 40u64) as u8,
        (n >> 32u64) as u8,
        (n >> 24u64) as u8,
        (n >> 16u64) as u8,
        (n >> 8u64) as u8,
        n as u8,
    ]
}

/// Distinct numbers have distinct encodings.
pub proof fn lemma_be64_injective(n: u64, m: u64)
    requires
        be64(n) == be64(m),
    ensures
        n == m,
{
    assert(be64(n)[0] == be64(m)[0]);
    assert(be64(n)[1] == be64(m)[1]);
    assert(be64(n)[2] == be64(m)[2]);
    assert(be64(n)[3] == be64(m)[3]);
    assert(be64(n)[4] == be64(m)[4]);
    assert(be64(n)[5] == be64(m)[5]);
    assert(be64(n)[6] == be64(m)[6]);
    assert(be64(n)[7] == be64(m)[7]);
    assert(((n >> 56u64) as u8 == (m >> 56u64) as u8 && (n >> 48u64) as u8 == (m >> 48u64) as u8
        && (n >> 40u64) as u8 == (m >> 40u64) as u8 && (n >> 32u64) as u8 == (m >> 32u64) as u8
        && (n >> 24u64) as u8 == (m >> 24u64) as u8 && (n >> 16u64) as u8 == (m >> 16u64) as u8
        && (n >> 8u64) as u8 == (m >> 8u64) as u8 && n as u8 == m as u8) ==> n == m) by (bit_vector);
}

/// A byte sequence framed by its length, so that concatenated frames parse
/// back unambiguously.
pub open spec fn framed(b: Seq<u8>) -> Seq<u8> {
    be64(b.len() as u64) + b
}

/// Appends the big-endian encoding of `n`.
pub fn push_be64(out: &mut Vec<u8>, n: u64)
    ensures
        final(out)@ == old(out)@ + be64(n),
{
    out.push((n >> 56u64) as u8);
    out.push((n >> 48u64) as u8);
    out.push((n >> 40u64) as u8);
    out.push((n >> 32u64) as u8);
    out.push((n >> 24u64) as u8);
    out.push((n >> 16u64) as u8);
    out.push((n >> 8u64) as u8);
    out.push(n as u8);
    assert(out@ =~= old(out)@ + be64(n));
}

/// Appends `b` framed by its length.
pub fn push_framed(out: &mut Vec<u8>, b: &[u8])
    ensures
        final(out)@ == old(out)@ + framed(b@),
{
    let ghost start = out@;
    push_be64(out, b.len() as u64);
    let mut i: usize = 0;
    while i < b.len()
        invariant
            i <= b@.len(),
            out@ == start + be64(b@.len() as u64) + b@.subrange(0, i as int),
        decreases b@.len() - i,
    {
        out.push(b[i]);
        proof {
            assert(out@ =~= start + be64(b@.len() as u64) + b@.subrange(0, i + 1));
        }
        i = i + 1;
    }
    assert(b@.subrange(0, b@.len() as int) =~= b@);
    assert(start + be64(b@.len() as u64) + b@ =~= start + framed(b@));
}

/// A length-framed prefix parses back uniquely: equal streams that start
/// with a frame start with the same frame and continue alike.
pub proof fn lemma_framed_prefix(a: Seq<u8>, b: Seq<u8>, r1: Seq<u8>, r2: Seq<u8>)
    requires
        a.len() <= u64::MAX,
        b.len() <= u64::MAX,
        framed(a) + r1 == framed(b) + r2,
    ensures
        a == b,
        r1 == r2,
{
    let x = framed(a) + r1;
    assert(x.subrange(0, 8) =~= be64(a.len() as u64));
    assert((framed(b) + r2).subrange(0, 8) =~= be64(b.len() as u64));
    lemma_be64_injective(a.len() as u64, b.len() as u64);
    assert(a =~= x.subrange(8, 8 + a.len() as int));
    assert(b =~= (framed(b) + r2).subrange(8, 8 + b.len() as int));
    assert(r1 =~= x.subrange(8 + a.len() as int, x.len() as int));
    assert(r2 =~= (framed(b) + r2).subrange(8 + b.len() as int, x.len() as int));
}

} // verus!
