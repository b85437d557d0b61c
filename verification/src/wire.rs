//! Big-endian numbers in byte sequences.
use vstd::arithmetic::power2::*;
use vstd::prelude::*;

verus! {

/// The `n` low bytes of `x`, most significant first.
pub open spec fn be_bytes(x: nat, n: nat) -> Seq<u8>
    decreases n,
{
    if n == 0 {
        Seq::empty()
    } else {
        be_bytes(x / 256, (n - 1) as nat).push((x % 256) as u8)
    }
}

/// The number that a byte sequence spells, most significant first.
pub open spec fn be_value(s: Seq<u8>) -> nat
    decreases s.len(),
{
    if s.len() == 0 {
        0
    } else {
        be_value(s.drop_last()) * 256 + s.last() as nat
    }
}

pub proof fn lemma_be_bytes_len(x: nat, n: nat)
    ensures
        be_bytes(x, n).len() == n,
    decreases n,
{
    if n > 0 {
        lemma_be_bytes_len(x / 256, (n - 1) as nat);
    }
}

pub proof fn lemma_be_value_bound(s: Seq<u8>)
    ensures
        be_value(s) < pow2(8 * s.len()),
    decreases s.len(),
{
    lemma2_to64();
    if s.len() > 0 {
        lemma_be_value_bound(s.drop_last());
        lemma_pow2_adds((8 * (s.len() - 1)) as nat, 8);
    }
}

/// Reading what was written gives the number back.
pub proof fn lemma_value_of_bytes(x: nat, n: nat)
    requires
        x < pow2(8 * n),
    ensures
        be_value(be_bytes(x, n)) == x,
    decreases n,
{
    lemma2_to64();
    if n > 0 {
        lemma_pow2_adds((8 * (n - 1)) as nat, 8);
        lemma_value_of_bytes(x / 256, (n - 1) as nat);
        assert(be_bytes(x, n).drop_last() =~= be_bytes(x / 256, (n - 1) as nat));
    }
}

/// Writing what was read gives the bytes back.
pub proof fn lemma_bytes_of_value(s: Seq<u8>)
    ensures
        be_bytes(be_value(s), s.len()) == s,
    decreases s.len(),
{
    if s.len() > 0 {
        lemma_bytes_of_value(s.drop_last());
        assert(be_value(s) / 256 == be_value(s.drop_last()));
        assert(be_value(s) % 256 == s.last());
        assert(s.drop_last().push(s.last()) =~= s);
    }
}

/// Appends the `n` low bytes of `x`.
pub fn put_be(out: &mut Vec<u8>, x: u64, n: usize)
    ensures
        final(out)@ == old(out)@ + be_bytes(x as nat, n as nat),
    decreases n,
{
    if n > 0 {
        put_be(out, x / 256, n - 1);
        out.push((x % 256) as u8);
        assert(out@ =~= old(out)@ + be_bytes(x as nat, n as nat));
    } else {
        assert(out@ =~= old(out)@ + be_bytes(x as nat, n as nat));
    }
}

/// The number in the `n` bytes from `at`.
pub fn get_be(bytes: &[u8], at: usize, n: usize) -> (r: u64)
    requires
        n <= 8,
        at + n <= bytes@.len(),
    ensures
        r == be_value(bytes@.subrange(at as int, at + n)),
        r < pow2(8 * n as nat),
{
    let mut value: u64 = 0;
    let mut i: usize = 0;
    assert(bytes.len() <= usize::MAX);
    assert(bytes@.subrange(at as int, at as int) =~= Seq::empty());
    proof {
        lemma2_to64();
    }
    while i < n
        invariant
            i <= n <= 8,
            at + n <= bytes@.len() <= usize::MAX,
            value == be_value(bytes@.subrange(at as int, at + i)),
            value < pow2(8 * i as nat),
        decreases n - i,
    {
        let ghost next: Seq<u8> = bytes@.subrange(at as int, at + i + 1);
        proof {
            assert(next.drop_last() =~= bytes@.subrange(at as int, at + i));
            lemma_be_value_bound(next);
            lemma2_to64();
            lemma2_to64_rest();
            if i < 7 {
                lemma_pow2_strictly_increases((8 * (i + 1)) as nat, 64);
            }
        }
        value = value * 256 + bytes[at + i] as u64;
        i = i + 1;
    }
    value
}

/// Appends a copy of a slice.
pub fn put_all(out: &mut Vec<u8>, bytes: &[u8])
    ensures
        final(out)@ == old(out)@ + bytes@,
{
    out.extend_from_slice(bytes);
    assert(out@ =~= old(out)@ + bytes@);
}

/// A copy of the bytes from `from` up to `to`.
pub fn copy_range(bytes: &[u8], from: usize, to: usize) -> (r: Vec<u8>)
    requires
        from <= to <= bytes@.len(),
    ensures
        r@ == bytes@.subrange(from as int, to as int),
{
    let mut out: Vec<u8> = Vec::new();
    let part: &[u8] = vstd::slice::slice_subrange(bytes, from, to);
    put_all(&mut out, part);
    assert(out@ =~= bytes@.subrange(from as int, to as int));
    out
}

/// A copy of the whole slice.
pub fn copy_bytes(bytes: &[u8]) -> (r: Vec<u8>)
    ensures
        r@ == bytes@,
{
    let mut out: Vec<u8> = Vec::new();
    put_all(&mut out, bytes);
    assert(out@ =~= bytes@);
    out
}

/// Whether a text stands at a place.
pub fn matches_at(bytes: &[u8], at: usize, text: &[u8]) -> (r: bool)
    requires
        at + text@.len() <= bytes@.len(),
    ensures
        r == (bytes@.subrange(at as int, at + text@.len()) == text@),
{
    assert(bytes.len() <= usize::MAX);
    let mut i: usize = 0;
    while i < text.len()
        invariant
            i <= text@.len(),
            at + text@.len() <= bytes@.len() <= usize::MAX,
            forall|j: int| 0 <= j < i ==> bytes@[at + j] == #[trigger] text@[j],
        decreases text@.len() - i,
    {
        if bytes[at + i] != text[i] {
            assert(bytes@.subrange(at as int, at + text@.len())[i as int] != text@[i as int]);
            return false;
        }
        i = i + 1;
    }
    assert(bytes@.subrange(at as int, at + text@.len()) =~= text@);
    true
}

/// Whether two texts are the same.
pub fn same_bytes(a: &[u8], b: &[u8]) -> (r: bool)
    ensures
        r == (a@ == b@),
{
    if a.len() != b.len() {
        return false;
    }
    let r: bool = matches_at(a, 0, b);
    assert(a@.subrange(0, b@.len() as int) =~= a@);
    r
}

} // verus!
