use vstd::prelude::*;

verus! {

/// A 256-bit identifier, stored as 32 big-endian bytes.
#[derive(Clone, Copy, Debug, Hash)]
pub struct U256 {
    pub bytes: [u8; 32],
}

/// Identifier of a node in the network.
pub type NodeID = U256;

impl PartialEq for U256 {
    fn eq(&self, other: &Self) -> (r: bool) {
        let mut i: usize = 0;
        while i < 32
            invariant
                0 <= i <= 32,
                forall|j: int| 0 <= j < i ==> self.bytes@[j] == other.bytes@[j],
            decreases 32 - i,
        {
            if self.bytes[i] != other.bytes[i] {
                return false;
            }
            i = i + 1;
        }
        proof {
            assert(self.bytes@ =~= other.bytes@);
        }
        true
    }
}

impl Eq for U256 {}

impl vstd::std_specs::cmp::PartialEqSpecImpl for U256 {
    open spec fn obeys_eq_spec() -> bool {
        true
    }

    open spec fn eq_spec(&self, other: &Self) -> bool {
        self.bytes@ == other.bytes@
    }
}

/// The bit at position `i` (0 is the most significant bit of the first byte).
pub open spec fn bit_at(b: Seq<u8>, i: int) -> bool {
    (b[i / 8] >> ((7 - i % 8) as u8)) & 1u8 == 1u8
}

/// The two identifiers differ at bit position `i`.
pub open spec fn differs_at(a: U256, b: U256, i: int) -> bool {
    bit_at(a.bytes@, i) != bit_at(b.bytes@, i)
}

/// The index of the first bit at or after `i` where `a` and `b` differ, or 256 if
/// they agree on all those bits.
pub open spec fn first_difference_from(a: U256, b: U256, i: int) -> int
    decreases 256 - i,
{
    if i >= 256 {
        256
    } else if differs_at(a, b, i) {
        i
    } else {
        first_difference_from(a, b, i + 1)
    }
}

/// The index of the first differing bit of `a` and `b`, or 256 for equal identifiers.
pub open spec fn first_difference(a: U256, b: U256) -> int {
    first_difference_from(a, b, 0)
}

/// If no bit in `[i, k)` differs, the search from `i` gives the same as from `k`.
pub proof fn lemma_first_difference_skip(a: U256, b: U256, i: int, k: int)
    requires
        0 <= i <= k <= 256,
        forall|j: int| i <= j < k ==> !differs_at(a, b, j),
    ensures
        first_difference_from(a, b, i) == first_difference_from(a, b, k),
    decreases k - i,
{
    if i < k {
        lemma_first_difference_skip(a, b, i + 1, k);
    }
}

/// `first_difference` is the first bit where the identifiers differ.
pub proof fn lemma_first_difference_spec(a: U256, b: U256, i: int)
    requires
        0 <= i <= 256,
    ensures
        i <= first_difference_from(a, b, i) <= 256,
        forall|j: int| i <= j < first_difference_from(a, b, i) ==> !differs_at(a, b, j),
        first_difference_from(a, b, i) < 256 ==> differs_at(a, b, first_difference_from(a, b, i)),
    decreases 256 - i,
{
    if i < 256 && !differs_at(a, b, i) {
        lemma_first_difference_spec(a, b, i + 1);
    }
}

proof fn lemma_byte_bit(x: u8, y: u8, s: u8)
    requires
        s < 8,
    ensures
        ((x ^ y) & (1u8 << s) != 0u8) == (((x >> s) & 1u8 == 1u8) != ((y >> s) & 1u8 == 1u8)),
{
    assert(((x ^ y) & (1u8 << s) != 0u8) == (((x >> s) & 1u8 == 1u8) != ((y >> s) & 1u8 == 1u8)))
        by (bit_vector)
        requires
            s < 8,
    ;
}

proof fn lemma_byte_zero(x: u8, y: u8, s: u8)
    requires
        s < 8,
        x ^ y == 0u8,
    ensures
        ((x >> s) & 1u8 == 1u8) == ((y >> s) & 1u8 == 1u8),
{
    assert(((x >> s) & 1u8 == 1u8) == ((y >> s) & 1u8 == 1u8)) by (bit_vector)
        requires
            s < 8,
            x ^ y == 0u8,
    ;
}

proof fn lemma_byte_all_equal(x: u8, y: u8)
    requires
        ((x >> 7u8) & 1u8 == 1u8) == ((y >> 7u8) & 1u8 == 1u8),
        ((x >> 6u8) & 1u8 == 1u8) == ((y >> 6u8) & 1u8 == 1u8),
        ((x >> 5u8) & 1u8 == 1u8) == ((y >> 5u8) & 1u8 == 1u8),
        ((x >> 4u8) & 1u8 == 1u8) == ((y >> 4u8) & 1u8 == 1u8),
        ((x >> 3u8) & 1u8 == 1u8) == ((y >> 3u8) & 1u8 == 1u8),
        ((x >> 2u8) & 1u8 == 1u8) == ((y >> 2u8) & 1u8 == 1u8),
        ((x >> 1u8) & 1u8 == 1u8) == ((y >> 1u8) & 1u8 == 1u8),
        ((x >> 0u8) & 1u8 == 1u8) == ((y >> 0u8) & 1u8 == 1u8),
    ensures
        x ^ y == 0u8,
{
    assert(x ^ y == 0u8) by (bit_vector)
        requires
            ((x >> 7u8) & 1u8 == 1u8) == ((y >> 7u8) & 1u8 == 1u8),
            ((x >> 6u8) & 1u8 == 1u8) == ((y >> 6u8) & 1u8 == 1u8),
            ((x >> 5u8) & 1u8 == 1u8) == ((y >> 5u8) & 1u8 == 1u8),
            ((x >> 4u8) & 1u8 == 1u8) == ((y >> 4u8) & 1u8 == 1u8),
            ((x >> 3u8) & 1u8 == 1u8) == ((y >> 3u8) & 1u8 == 1u8),
            ((x >> 2u8) & 1u8 == 1u8) == ((y >> 2u8) & 1u8 == 1u8),
            ((x >> 1u8) & 1u8 == 1u8) == ((y >> 1u8) & 1u8 == 1u8),
            ((x >> 0u8) & 1u8 == 1u8) == ((y >> 0u8) & 1u8 == 1u8),
    ;
}

/// Identifiers that agree on every bit are equal.
pub proof fn lemma_no_difference_equal(a: U256, b: U256)
    requires
        forall|j: int| 0 <= j < 256 ==> !differs_at(a, b, j),
    ensures
        a == b,
{
    broadcast use vstd::array::group_array_axioms;

    assert forall|idx: int| 0 <= idx < 32 implies a.bytes@[idx] == b.bytes@[idx] by {
        let x = a.bytes@[idx];
        let y = b.bytes@[idx];
        let base = idx * 8;
        assert((base + 7) / 8 == idx && (base + 7) % 8 == 7);
        assert((base + 6) / 8 == idx && (base + 6) % 8 == 6);
        assert((base + 5) / 8 == idx && (base + 5) % 8 == 5);
        assert((base + 4) / 8 == idx && (base + 4) % 8 == 4);
        assert((base + 3) / 8 == idx && (base + 3) % 8 == 3);
        assert((base + 2) / 8 == idx && (base + 2) % 8 == 2);
        assert((base + 1) / 8 == idx && (base + 1) % 8 == 1);
        assert((base + 0) / 8 == idx && (base + 0) % 8 == 0);
        assert(!differs_at(a, b, base + 0));
        assert(!differs_at(a, b, base + 1));
        assert(!differs_at(a, b, base + 2));
        assert(!differs_at(a, b, base + 3));
        assert(!differs_at(a, b, base + 4));
        assert(!differs_at(a, b, base + 5));
        assert(!differs_at(a, b, base + 6));
        assert(!differs_at(a, b, base + 7));
        lemma_byte_all_equal(x, y);
        assert(x == y) by (bit_vector)
            requires
                x ^ y == 0u8,
        ;
    }
    assert(a.bytes@ =~= b.bytes@);
    assert(a.bytes =~= b.bytes);
}

/// Returns the index of the first bit where `a` and `b` differ, counting from the
/// most significant bit of the first byte, or 256 if they are equal.
pub fn first_differing_bit(a: &U256, b: &U256) -> (r: usize)
    ensures
        r == first_difference(*a, *b),
        r <= 256,
{
    let mut index: usize = 0;
    while index < 32
        invariant
            0 <= index <= 32,
            forall|j: int| 0 <= j < index * 8 ==> !differs_at(*a, *b, j),
        decreases 32 - index,
    {
        let x: u8 = a.bytes[index] ^ b.bytes[index];
        if x != 0 {
            let mut i: u8 = 8;
            while i > 0
                invariant
                    0 <= i <= 8,
                    x == a.bytes@[index as int] ^ b.bytes@[index as int],
                    x != 0,
                    index < 32,
                    forall|j: int| 0 <= j < index * 8 + (8 - i) ==> !differs_at(*a, *b, j),
                decreases i,
            {
                i = i - 1;
                let pos: usize = index * 8 + 7 - i as usize;
                proof {
                    lemma_byte_bit(a.bytes@[index as int], b.bytes@[index as int], i);
                    assert(pos / 8 == index as int);
                    assert(7 - pos % 8 == i as int);
                }
                if x & (1u8 << i) != 0 {
                    proof {
                        assert(differs_at(*a, *b, pos as int));
                        lemma_first_difference_skip(*a, *b, 0, pos as int);
                    }
                    return pos;
                }
            }
            proof {
                let xa = a.bytes@[index as int];
                let xb = b.bytes@[index as int];
                let base = index * 8;
                assert(!differs_at(*a, *b, base + 0));
                assert(!differs_at(*a, *b, base + 1));
                assert(!differs_at(*a, *b, base + 2));
                assert(!differs_at(*a, *b, base + 3));
                assert(!differs_at(*a, *b, base + 4));
                assert(!differs_at(*a, *b, base + 5));
                assert(!differs_at(*a, *b, base + 6));
                assert(!differs_at(*a, *b, base + 7));
                lemma_byte_all_equal(xa, xb);
                assert(false);
            }
        }
        proof {
            assert forall|j: int| index * 8 <= j < index * 8 + 8 implies !differs_at(*a, *b, j) by {
                let s: u8 = (7 - j % 8) as u8;
                assert(j / 8 == index as int);
                lemma_byte_zero(a.bytes@[index as int], b.bytes@[index as int], s);
            }
        }
        index = index + 1;
    }
    proof {
        lemma_first_difference_skip(*a, *b, 0, 256);
    }
    256
}

/// Tells whether `id` is in `v`.
pub fn ids_contain(v: &Vec<U256>, id: &U256) -> (r: bool)
    ensures
        r == v@.contains(*id),
{
    let mut i: usize = 0;
    while i < v.len()
        invariant
            0 <= i <= v.len(),
            forall|j: int| 0 <= j < i ==> v@[j] != *id,
        decreases v.len() - i,
    {
        if v[i].same(id) {
            proof {
                assert(v@[i as int] == *id);
            }
            return true;
        }
        i = i + 1;
    }
    false
}

/// Appends the bytes of `src` to `dst`.
pub fn push_bytes(dst: &mut Vec<u8>, src: &[u8])
    ensures
        final(dst)@ == old(dst)@ + src@,
{
    let mut i: usize = 0;
    while i < src.len()
        invariant
            0 <= i <= src.len(),
            dst@ == old(dst)@ + src@.take(i as int),
        decreases src.len() - i,
    {
        proof {
            assert(old(dst)@ + src@.take(i + 1) =~= (old(dst)@ + src@.take(i as int)).push(src@[i as int]));
        }
        dst.push(src[i]);
        i = i + 1;
    }
    proof {
        assert(src@.take(src.len() as int) =~= src@);
    }
}

impl U256 {
    pub fn from_bytes(bytes: [u8; 32]) -> (r: U256)
        ensures
            r.bytes == bytes,
    {
        U256 { bytes }
    }

    pub fn same(&self, other: &U256) -> (r: bool)
        ensures r == (*self == *other),
    {
        proof { broadcast use vstd::array::group_array_axioms; }
        let r = *self == *other;
        proof {
            if r { assert(self.bytes =~= other.bytes); }
        }
        r
    }
}

} // verus!
