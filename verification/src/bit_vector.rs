//! Densely packed bit vectors: bit `i` is the bit of weight `0x80 >> (i % 8)` of
//! byte `i / 8`.
use vstd::prelude::*;

verus! {

/// A bit vector of `size` bits, most significant bit of the first byte first.
#[derive(Debug, Clone, PartialEq, Eq)]
pub struct BitVector {
    pub size: u64,
    pub data: Vec<u8>,
}

/// Bit `k` of a byte, counted from the most significant one.
pub open spec fn byte_bit(byte: u8, k: int) -> bool {
    byte & (0x80u8 >> (k as u8)) != 0
}

/// How many bytes `bits` bits take.
pub open spec fn byte_count(bits: int) -> int {
    (bits + 7) / 8
}

/// The bits of packed bytes.
pub open spec fn bits_of(data: Seq<u8>, size: nat) -> Seq<bool> {
    Seq::new(size, |i: int| byte_bit(data[i / 8], i % 8))
}

/// The positions of the set bits, from the position `from` on, in increasing order.
pub open spec fn set_positions(bits: Seq<bool>, from: int) -> Seq<u64>
    decreases bits.len() - from,
{
    if from < 0 || from >= bits.len() {
        Seq::empty()
    } else if bits[from] {
        seq![from as u64] + set_positions(bits, from + 1)
    } else {
        set_positions(bits, from + 1)
    }
}

/// The parity of the bits at the listed positions.
pub open spec fn parity_at(bits: Seq<bool>, positions: Seq<u64>) -> bool
    decreases positions.len(),
{
    if positions.len() == 0 {
        false
    } else {
        parity_at(bits, positions.drop_last()) != bits[positions.last() as int]
    }
}

/// The parity of bits is odd exactly if an odd number of the listed positions hold a set
/// bit.
pub proof fn law_parity_counts_set_bits(bits: Seq<bool>, positions: Seq<u64>)
    ensures
        parity_at(bits, positions) == (positions.filter(|p: u64| bits[p as int]).len() % 2 == 1),
    decreases positions.len(),
{
    reveal(Seq::filter);
    if positions.len() > 0 {
        law_parity_counts_set_bits(bits, positions.drop_last());
    }
}

/// Inverting one bit inverts a parity exactly if the position is listed an odd number of
/// times; without set bits no parity is odd.
pub proof fn law_flipped_bit_flips_parity(bits: Seq<bool>, positions: Seq<u64>, i: u64)
    requires
        i < bits.len(),
        forall|k: int| 0 <= k < positions.len() ==> (#[trigger] positions[k]) < bits.len(),
    ensures
        parity_at(bits.update(i as int, !bits[i as int]), positions) == (parity_at(bits, positions) != (positions.filter(
            |p: u64| p == i,
        ).len() % 2 == 1)),
        (forall|k: int| 0 <= k < positions.len() ==> !bits[#[trigger] positions[k] as int]) ==> !parity_at(bits, positions),
    decreases positions.len(),
{
    reveal(Seq::filter);
    if positions.len() > 0 {
        let rest = positions.drop_last();
        assert forall|k: int| 0 <= k < rest.len() implies (#[trigger] rest[k]) < bits.len() by {
            assert(rest[k] == positions[k]);
        }
        assert(positions.last() == positions[positions.len() - 1]);
        law_flipped_bit_flips_parity(bits, rest, i);
        if forall|k: int| 0 <= k < positions.len() ==> !bits[#[trigger] positions[k] as int] {
            assert forall|k: int| 0 <= k < rest.len() implies !bits[#[trigger] rest[k] as int] by {
                assert(rest[k] == positions[k]);
            }
        }
    }
}

impl BitVector {
    /// The bytes hold exactly the bits.
    pub open spec fn wf(self) -> bool {
        &&& self.data@.len() == byte_count(self.size as int)
        &&& self.size <= usize::MAX
    }

    /// The bits of the last byte that are not in use are clear.
    pub open spec fn padded(self) -> bool {
        forall|p: int| self.size <= p < 8 * self.data@.len() ==> !#[trigger] byte_bit(self.data@[p / 8], p % 8)
    }

    /// The bits, in order.
    pub open spec fn view(self) -> Seq<bool> {
        bits_of(self.data@, self.size as nat)
    }
}

proof fn lemma_byte_write(byte: u8, k: u8, j: u8)
    requires
        k < 8,
        j < 8,
    ensures
        byte_bit(byte | (0x80u8 >> k), j as int) == (j == k || byte_bit(byte, j as int)),
        byte_bit(byte & !(0x80u8 >> k), j as int) == (j != k && byte_bit(byte, j as int)),
{
    assert((byte | (0x80u8 >> k)) & (0x80u8 >> j) != 0 <==> (j == k || byte & (0x80u8 >> j) != 0)) by (bit_vector)
        requires
            k < 8,
            j < 8,
    ;
    assert((byte & !(0x80u8 >> k)) & (0x80u8 >> j) != 0 <==> (j != k && byte & (0x80u8 >> j) != 0)) by (bit_vector)
        requires
            k < 8,
            j < 8,
    ;
}

proof fn lemma_zero_byte(k: int)
    requires
        0 <= k < 8,
    ensures
        !byte_bit(0u8, k),
{
    let m: u8 = 0x80u8 >> (k as u8);
    assert(0u8 & m == 0) by (bit_vector);
}

/// Bit `index` of a vector.
pub fn get_bit(bits: &BitVector, index: u64) -> (bit: bool)
    requires
        bits.wf(),
        index < bits.size,
    ensures
        bit == bits@[index as int],
{
    let byte: u8 = bits.data[(index / 8) as usize];
    byte & (0x80u8 >> ((index % 8) as u8)) != 0
}

/// Bit `index`, if the vector has such a bit.
pub open spec fn bit_if_any(bits: BitVector, index: int) -> Option<bool> {
    if 0 <= index < bits.size && index / 8 < bits.data@.len() {
        Some(byte_bit(bits.data@[index / 8], index % 8))
    } else {
        None
    }
}

/// Bit `index`, if the vector has such a bit.
pub fn try_get_bit(bits: &BitVector, index: u64) -> (bit: Option<bool>)
    ensures
        bit == bit_if_any(*bits, index as int),
{
    if index < bits.size && index / 8 < bits.data.len() as u64 {
        let byte: u8 = bits.data[(index / 8) as usize];
        Some(byte & (0x80u8 >> ((index % 8) as u8)) != 0)
    } else {
        None
    }
}

/// Writes bit `index` of a vector.
pub fn set_bit(bits: &mut BitVector, index: u64, value: bool)
    requires
        old(bits).wf(),
        index < old(bits).size,
    ensures
        final(bits).wf(),
        final(bits).size == old(bits).size,
        final(bits)@ == old(bits)@.update(index as int, value),
        old(bits).padded() ==> final(bits).padded(),
{
    let at: usize = (index / 8) as usize;
    let k: u8 = (index % 8) as u8;
    let byte: u8 = bits.data[at];
    let written: u8 = if value {
        byte | (0x80u8 >> k)
    } else {
        byte & !(0x80u8 >> k)
    };
    bits.data.set(at, written);
    proof {
        assert forall|i: int| 0 <= i < bits.size implies #[trigger] bits@[i] == old(bits)@.update(index as int, value)[i] by {
            lemma_byte_write(byte, k, (i % 8) as u8);
            if i / 8 == at && i % 8 == k {
                assert(i == index);
            }
        }
        assert(bits@ =~= old(bits)@.update(index as int, value));
        if old(bits).padded() {
            assert forall|p: int| bits.size <= p < 8 * bits.data@.len() implies !#[trigger] byte_bit(bits.data@[p / 8], p % 8) by {
                lemma_byte_write(byte, k, (p % 8) as u8);
                assert(!byte_bit(old(bits).data@[p / 8], p % 8));
            }
        }
    }
}

/// Inverts bit `index` of a vector.
pub fn flip_bit(bits: &mut BitVector, index: u64)
    requires
        old(bits).wf(),
        index < old(bits).size,
    ensures
        final(bits).wf(),
        final(bits).size == old(bits).size,
        final(bits)@ == old(bits)@.update(index as int, !old(bits)@[index as int]),
        old(bits).padded() ==> final(bits).padded(),
{
    let bit = get_bit(bits, index);
    set_bit(bits, index, !bit);
}

/// The vector of `size` zero bits.
pub fn zeros(size: u64) -> (bits: BitVector)
    requires
        size <= usize::MAX,
    ensures
        bits.wf(),
        bits.size == size,
        bits@ == Seq::new(size as nat, |i: int| false),
        bits.padded(),
        forall|k: int| 0 <= k < bits.data@.len() ==> bits.data@[k] == 0,
{
    let count: u64 = size / 8 + (if size % 8 == 0 { 0 } else { 1 });
    let mut data: Vec<u8> = Vec::new();
    let mut i: u64 = 0;
    while i < count
        invariant
            i <= count,
            data@.len() == i,
            forall|k: int| 0 <= k < data@.len() ==> data@[k] == 0,
        decreases count - i,
    {
        data.push(0);
        i += 1;
    }
    let bits = BitVector { size, data };
    proof {
        assert forall|i: int| 0 <= i < size implies !#[trigger] bits@[i] by {
            lemma_zero_byte(i % 8);
        }
        assert(bits@ =~= Seq::new(size as nat, |i: int| false));
        assert forall|p: int| size <= p < 8 * bits.data@.len() implies !#[trigger] byte_bit(bits.data@[p / 8], p % 8) by {
            lemma_zero_byte(p % 8);
        }
    }
    bits
}

/// A byte without set bits is zero.
proof fn lemma_clear_byte(byte: u8)
    requires
        forall|k: int| 0 <= k < 8 ==> !#[trigger] byte_bit(byte, k),
    ensures
        byte == 0,
{
    assert(!byte_bit(byte, 0) && !byte_bit(byte, 1) && !byte_bit(byte, 2) && !byte_bit(byte, 3));
    assert(!byte_bit(byte, 4) && !byte_bit(byte, 5) && !byte_bit(byte, 6) && !byte_bit(byte, 7));
    assert(byte == 0) by (bit_vector)
        requires
            byte & (0x80u8 >> 0u8) == 0,
            byte & (0x80u8 >> 1u8) == 0,
            byte & (0x80u8 >> 2u8) == 0,
            byte & (0x80u8 >> 3u8) == 0,
            byte & (0x80u8 >> 4u8) == 0,
            byte & (0x80u8 >> 5u8) == 0,
            byte & (0x80u8 >> 6u8) == 0,
            byte & (0x80u8 >> 7u8) == 0,
    ;
}

/// A vector whose unused bits are clear has only zero bytes exactly if no bit is set.
pub proof fn law_clear_means_zero_bytes(bits: BitVector)
    requires
        bits.wf(),
        bits.padded(),
    ensures
        (forall|i: int| 0 <= i < bits.size ==> !#[trigger] bits@[i]) <==> (forall|k: int|
            0 <= k < bits.data@.len() ==> bits.data@[k] == 0),
{
    if forall|i: int| 0 <= i < bits.size ==> !#[trigger] bits@[i] {
        assert forall|k: int| 0 <= k < bits.data@.len() implies bits.data@[k] == 0 by {
            assert forall|j: int| 0 <= j < 8 implies !#[trigger] byte_bit(bits.data@[k], j) by {
                let p = 8 * k + j;
                assert(p / 8 == k && p % 8 == j);
                if p < bits.size {
                    assert(!bits@[p]);
                } else {
                    assert(!byte_bit(bits.data@[p / 8], p % 8));
                }
            }
            lemma_clear_byte(bits.data@[k]);
        }
    }
    if forall|k: int| 0 <= k < bits.data@.len() ==> bits.data@[k] == 0 {
        assert forall|i: int| 0 <= i < bits.size implies !#[trigger] bits@[i] by {
            assert(bits.data@[i / 8] == 0);
            lemma_zero_byte(i % 8);
        }
    }
}

/// The vector of `size` bits whose set bits are the listed ones.
pub fn from_sparse_indices(size: u64, indices: &[u64]) -> (bits: BitVector)
    requires
        size <= usize::MAX,
        forall|i: int| 0 <= i < indices@.len() ==> indices@[i] < size,
    ensures
        bits.wf(),
        bits.size == size,
        bits@ == Seq::new(size as nat, |i: int| indices@.contains(i as u64)),
        bits.padded(),
{
    let mut bits = zeros(size);
    let mut n: usize = 0;
    while n < indices.len()
        invariant
            n <= indices@.len(),
            bits.wf(),
            bits.size == size,
            bits.padded(),
            forall|i: int| 0 <= i < indices@.len() ==> indices@[i] < size,
            bits@ =~= Seq::new(size as nat, |i: int| indices@.take(n as int).contains(i as u64)),
        decreases indices@.len() - n,
    {
        set_bit(&mut bits, indices[n], true);
        proof {
            let before = indices@.take(n as int);
            let after = indices@.take(n as int + 1);
            assert(after =~= before.push(indices@[n as int]));
            assert forall|i: u64| #[trigger] after.contains(i) == (before.contains(i) || i == indices@[n as int]) by {
                if before.contains(i) {
                    let k = choose|k: int| 0 <= k < before.len() && before[k] == i;
                    assert(after[k] == i);
                }
                if i == indices@[n as int] {
                    assert(after[n as int] == i);
                }
            }
        }
        n += 1;
    }
    proof {
        assert(indices@.take(indices@.len() as int) =~= indices@);
    }
    bits
}

proof fn lemma_set_positions_len(bits: Seq<bool>, from: int)
    requires
        0 <= from <= bits.len(),
    ensures
        set_positions(bits, from).len() <= bits.len() - from,
    decreases bits.len() - from,
{
    if from < bits.len() {
        lemma_set_positions_len(bits, from + 1);
    }
}

/// The positions of the set bits, in increasing order.
pub fn to_sparse_indices(bits: &BitVector) -> (indices: Vec<u64>)
    requires
        bits.wf(),
    ensures
        indices@ == set_positions(bits@, 0),
{
    let mut indices: Vec<u64> = Vec::new();
    let mut i: u64 = 0;
    while i < bits.size
        invariant
            bits.wf(),
            i <= bits.size,
            indices@ + set_positions(bits@, i as int) == set_positions(bits@, 0),
        decreases bits.size - i,
    {
        let ghost before = indices@;
        if get_bit(bits, i) {
            indices.push(i);
            assert(before + (seq![i] + set_positions(bits@, i + 1)) =~= before.push(i) + set_positions(bits@, i + 1));
        }
        i += 1;
    }
    assert(indices@ + Seq::<u64>::empty() =~= indices@);
    indices
}

/// A position is listed exactly if its bit is set, and the list is increasing.
pub proof fn lemma_set_positions(bits: Seq<bool>, from: int)
    requires
        0 <= from <= bits.len(),
        bits.len() <= u64::MAX,
    ensures
        crate::order::strictly_increasing(set_positions(bits, from)),
        forall|p: u64| #[trigger] set_positions(bits, from).contains(p) <==> from <= p < bits.len() && bits[p as int],
    decreases bits.len() - from,
{
    let s = set_positions(bits, from);
    if from < bits.len() {
        lemma_set_positions(bits, from + 1);
        let t = set_positions(bits, from + 1);
        if bits[from] {
            assert(s == seq![from as u64] + t);
            assert forall|p: u64| #[trigger] s.contains(p) <==> from <= p < bits.len() && bits[p as int] by {
                if s.contains(p) {
                    let k = choose|k: int| 0 <= k < s.len() && s[k] == p;
                    if k > 0 {
                        assert(t[k - 1] == p);
                        assert(t.contains(p));
                    }
                }
                if from <= p < bits.len() && bits[p as int] {
                    if p == from {
                        assert(s[0] == p);
                    } else {
                        assert(t.contains(p));
                        let k = choose|k: int| 0 <= k < t.len() && t[k] == p;
                        assert(s[k + 1] == p);
                    }
                }
            }
            assert forall|i: int, j: int| 0 <= i < j < s.len() implies s[i] < s[j] by {
                assert(t[j - 1] == s[j]);
                assert(t.contains(s[j]));
                if i > 0 {
                    assert(t[i - 1] == s[i]);
                }
            }
        }
    }
}

/// The bits of `size` packed bits.
pub fn unpack_bits(data: &Vec<u8>, size: u64) -> (bits: Vec<bool>)
    requires
        size <= usize::MAX,
        byte_count(size as int) <= data@.len(),
    ensures
        bits@ == bits_of(data@, size as nat),
{
    let mut bits: Vec<bool> = Vec::new();
    let mut i: u64 = 0;
    while i < size
        invariant
            size <= usize::MAX,
            byte_count(size as int) <= data@.len(),
            i <= size,
            bits@ =~= bits_of(data@, i as nat),
        decreases size - i,
    {
        let byte: u8 = data[(i / 8) as usize];
        bits.push(byte & (0x80u8 >> ((i % 8) as u8)) != 0);
        i += 1;
    }
    bits
}

/// How many bits are set.
pub fn weight(bits: &BitVector) -> (count: u64)
    requires
        bits.wf(),
    ensures
        count == set_positions(bits@, 0).len(),
{
    to_sparse_indices(bits).len() as u64
}

/// Packs bits into bytes, filling the last byte up with zeros.
pub fn pack_bits(bits: &Vec<bool>) -> (data: Vec<u8>)
    ensures
        data@.len() == byte_count(bits@.len() as int),
        bits_of(data@, bits@.len()) == bits@,
        forall|i: int| bits@.len() <= i < 8 * data@.len() ==> !#[trigger] byte_bit(data@[i / 8], i % 8),
{
    let mut packed = zeros(bits.len() as u64);
    let mut i: usize = 0;
    proof {
        assert forall|p: int| bits@.len() <= p < 8 * packed.data@.len() implies !#[trigger] byte_bit(packed.data@[p / 8], p % 8) by {
            lemma_zero_byte(p % 8);
        }
    }
    while i < bits.len()
        invariant
            i <= bits@.len(),
            packed.wf(),
            packed.size == bits@.len(),
            forall|k: int| 0 <= k < i ==> packed@[k] == bits@[k],
            forall|k: int| i <= k < bits@.len() ==> !packed@[k],
            forall|p: int| bits@.len() <= p < 8 * packed.data@.len() ==> !#[trigger] byte_bit(packed.data@[p / 8], p % 8),
        decreases bits@.len() - i,
    {
        let at: usize = i / 8;
        let k: u8 = (i % 8) as u8;
        let byte: u8 = packed.data[at];
        let ghost before = packed;
        if bits[i] {
            packed.data.set(at, byte | (0x80u8 >> k));
            proof {
                assert forall|p: int| 0 <= p < 8 * packed.data@.len() implies #[trigger] byte_bit(packed.data@[p / 8], p % 8) == (p == i || byte_bit(before.data@[p / 8], p % 8)) by {
                    lemma_byte_write(byte, k, (p % 8) as u8);
                }
                assert forall|p: int| 0 <= p < bits@.len() implies #[trigger] packed@[p] == (p == i || before@[p]) by {
                    assert(byte_bit(packed.data@[p / 8], p % 8) == (p == i || byte_bit(before.data@[p / 8], p % 8)));
                }
            }
        }
        i += 1;
    }
    proof {
        assert(packed@ =~= bits@);
    }
    packed.data
}

/// The vector of the listed bits.
pub fn from_bits(bits: &Vec<bool>) -> (packed: BitVector)
    ensures
        packed.wf(),
        packed.size == bits@.len(),
        packed@ == bits@,
        packed.padded(),
{
    BitVector { size: bits.len() as u64, data: pack_bits(bits) }
}

/// A copy of a vector.
pub fn copy_of(bits: &BitVector) -> (copy: BitVector)
    ensures
        copy.size == bits.size,
        copy.data@ == bits.data@,
        copy@ == bits@,
        bits.wf() ==> copy.wf(),
{
    let mut data: Vec<u8> = Vec::new();
    let mut i: usize = 0;
    while i < bits.data.len()
        invariant
            i <= bits.data@.len(),
            data@ == bits.data@.take(i as int),
        decreases bits.data@.len() - i,
    {
        data.push(bits.data[i]);
        assert(bits.data@.take(i as int + 1) =~= bits.data@.take(i as int).push(bits.data@[i as int]));
        i += 1;
    }
    assert(bits.data@.take(bits.data@.len() as int) =~= bits.data@);
    BitVector { size: bits.size, data }
}

/// The parity of the bits at the listed positions.
pub fn parity(bits: &BitVector, positions: &Vec<u64>) -> (odd: bool)
    requires
        bits.wf(),
        forall|i: int| 0 <= i < positions@.len() ==> positions@[i] < bits.size,
    ensures
        odd == parity_at(bits@, positions@),
{
    let mut odd = false;
    let mut i: usize = 0;
    assert(positions@.take(0) =~= Seq::<u64>::empty());
    while i < positions.len()
        invariant
            bits.wf(),
            i <= positions@.len(),
            forall|i: int| 0 <= i < positions@.len() ==> positions@[i] < bits.size,
            odd == parity_at(bits@, positions@.take(i as int)),
        decreases positions@.len() - i,
    {
        odd = odd != get_bit(bits, positions[i]);
        assert(positions@.take(i as int + 1).drop_last() =~= positions@.take(i as int));
        i += 1;
    }
    assert(positions@.take(positions@.len() as int) =~= positions@);
    odd
}

/// Whether no byte holds a set bit.
pub fn is_zero(bits: &BitVector) -> (zero: bool)
    ensures
        zero == (forall|k: int| 0 <= k < bits.data@.len() ==> bits.data@[k] == 0),
{
    let mut i: usize = 0;
    while i < bits.data.len()
        invariant
            i <= bits.data@.len(),
            forall|k: int| 0 <= k < i ==> bits.data@[k] == 0,
        decreases bits.data@.len() - i,
    {
        if bits.data[i] != 0 {
            return false;
        }
        i += 1;
    }
    true
}

/// The positions of set bits are those of all set bits, in order.
pub proof fn law_set_positions_are_the_set_bits(bits: Seq<bool>)
    requires
        bits.len() <= u64::MAX,
    ensures
        set_positions(bits, 0) == Seq::new(bits.len(), |i: int| i as u64).filter(|i: u64| bits[i as int]),
{
    lemma_positions_listed(bits, 0);
    assert(Seq::new(bits.len(), |i: int| i as u64).skip(0) =~= Seq::new(bits.len(), |i: int| i as u64));
}

proof fn lemma_positions_listed(bits: Seq<bool>, from: int)
    requires
        bits.len() <= u64::MAX,
        0 <= from <= bits.len(),
    ensures
        set_positions(bits, from) == Seq::new(bits.len(), |i: int| i as u64).skip(from).filter(|i: u64| bits[i as int]),
    decreases bits.len() - from,
{
    reveal(Seq::filter);
    let set = |i: u64| bits[i as int];
    let all = Seq::new(bits.len(), |i: int| i as u64);
    if from < bits.len() {
        lemma_positions_listed(bits, from + 1);
        let first = seq![from as u64];
        assert(all.skip(from) =~= first + all.skip(from + 1));
        Seq::filter_distributes_over_add(first, all.skip(from + 1), set);
        assert(first.drop_last() =~= Seq::<u64>::empty());
        assert(Seq::<u64>::empty().filter(set) =~= Seq::<u64>::empty());
        assert(first.last() == from as u64);
        if set(from as u64) {
            assert(first.filter(set) =~= first);
        } else {
            assert(first.filter(set) =~= Seq::<u64>::empty());
            assert(Seq::<u64>::empty() + all.skip(from + 1).filter(set) =~= all.skip(from + 1).filter(set));
        }
    } else {
        assert(all.skip(from) =~= Seq::<u64>::empty());
    }
}

} // verus!
