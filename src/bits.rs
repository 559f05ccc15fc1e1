use bit_vec::BitVec;
use vstd::prelude::*;

verus! {

#[verifier::external_type_specification]
#[verifier::external_body]
#[verifier::reject_recursive_types(B)]
pub struct ExBitVec<B>(BitVec<B>);

/// The bits a `BitVec` holds, in order.
pub uninterp spec fn bits_of(v: BitVec) -> Seq<bool>;

/// Bit `k` (0 = most significant) of byte `b`.
pub open spec fn bit_of(b: u8, k: int) -> bool {
    ((b >> ((7 - k) as u8)) & 1u8) == 1u8
}

/// The bits of `bytes`, eight per byte, most significant bit first.
pub open spec fn unpack(bytes: Seq<u8>) -> Seq<bool> {
    Seq::new((8 * bytes.len()) as nat, |i: int| bit_of(bytes[i / 8], i % 8))
}

/// `bytes` holds `bits` in order, most significant bit first, the last byte
/// padded with zero bits.
pub open spec fn is_packing(bytes: Seq<u8>, bits: Seq<bool>) -> bool {
    &&& bytes.len() == (bits.len() + 7) / 8
    &&& forall|i: int| 0 <= i < bits.len() ==> #[trigger] bit_of(bytes[i / 8], i % 8) == bits[i]
    &&& forall|i: int|
        bits.len() <= i < 8 * bytes.len() ==> !#[trigger] bit_of(bytes[i / 8], i % 8)
}

/// Relies on `BitVec::new`: an empty bit vector.
#[verifier::external_body]
fn bv_new() -> (r: BitVec)
    ensures
        bits_of(r) == Seq::<bool>::empty(),
{
    BitVec::new()
}

/// Relies on `BitVec::push`: appends one bit; it panics only when the length
/// would overflow `usize`.
#[verifier::external_body]
fn bv_push(v: &mut BitVec, bit: bool)
    requires
        bits_of(*old(v)).len() < usize::MAX,
    ensures
        bits_of(*final(v)) == bits_of(*old(v)).push(bit),
{
    v.push(bit)
}

/// Relies on `BitVec::len`: the number of bits held.
#[verifier::external_body]
fn bv_len(v: &BitVec) -> (r: usize)
    ensures
        r == bits_of(*v).len(),
{
    v.len()
}

/// Relies on `BitVec::get`: the bit at index `i`, `None` past the end.
#[verifier::external_body]
fn bv_get(v: &BitVec, i: usize) -> (r: Option<bool>)
    ensures
        i < bits_of(*v).len() ==> r == Some(bits_of(*v)[i as int]),
        i >= bits_of(*v).len() ==> r.is_none(),
{
    v.get(i)
}

/// Relies on `BitVec::to_bytes`: the first bit becomes the high-order bit of
/// the first byte, and the trailing bits of the last byte are zero.
#[verifier::external_body]
fn bv_to_bytes(v: &BitVec) -> (r: Vec<u8>)
    ensures
        is_packing(r@, bits_of(*v)),
{
    v.to_bytes()
}

/// Relies on `BitVec::from_bytes`: eight bits per byte, most significant bit
/// first; it panics only when the bit count overflows `usize`.
#[verifier::external_body]
fn bv_from_bytes(bytes: &[u8]) -> (r: BitVec)
    requires
        8 * bytes@.len() <= usize::MAX,
    ensures
        bits_of(r) == unpack(bytes@),
{
    BitVec::from_bytes(bytes)
}

/// A growable sequence of bits, stored packed into bytes.
pub struct BitBuffer {
    bits: BitVec,
}

impl View for BitBuffer {
    type V = Seq<bool>;

    closed spec fn view(&self) -> Seq<bool> {
        bits_of(self.bits)
    }
}

impl BitBuffer {
    /// An empty buffer.
    pub fn new() -> (r: BitBuffer)
        ensures
            r@ == Seq::<bool>::empty(),
    {
        BitBuffer { bits: bv_new() }
    }

    /// The number of bits held.
    pub fn len(&self) -> (r: usize)
        ensures
            r == self@.len(),
    {
        bv_len(&self.bits)
    }

    /// Appends one bit.
    pub fn push(&mut self, bit: bool)
        requires
            old(self)@.len() < usize::MAX,
        ensures
            final(self)@ == old(self)@.push(bit),
    {
        bv_push(&mut self.bits, bit);
    }

    /// Appends every bit of `path`, in order.
    pub fn append(&mut self, path: &Vec<bool>)
        requires
            old(self)@.len() + path@.len() <= usize::MAX,
        ensures
            final(self)@ == old(self)@ + path@,
    {
        let ghost start = self@;
        let mut i: usize = 0;
        while i < path.len()
            invariant
                i <= path@.len(),
                start.len() + path@.len() <= usize::MAX,
                self@ == start + path@.subrange(0, i as int),
            decreases path@.len() - i,
        {
            self.push(path[i]);
            assert(path@.subrange(0, i + 1) == path@.subrange(0, i as int).push(path@[i as int]));
            i = i + 1;
        }
        assert(path@.subrange(0, i as int) == path@);
    }

    /// The bit at index `i`, `None` past the end.
    pub fn get(&self, i: usize) -> (r: Option<bool>)
        ensures
            i < self@.len() ==> r == Some(self@[i as int]),
            i >= self@.len() ==> r.is_none(),
    {
        bv_get(&self.bits, i)
    }

    /// The bits packed into bytes, most significant bit first, the last byte
    /// padded with zero bits.
    pub fn to_bytes(&self) -> (r: Vec<u8>)
        ensures
            is_packing(r@, self@),
    {
        bv_to_bytes(&self.bits)
    }

    /// The eight bits of each byte, most significant bit first.
    pub fn from_bytes(bytes: &Vec<u8>) -> (r: BitBuffer)
        requires
            8 * bytes@.len() <= usize::MAX,
        ensures
            r@ == unpack(bytes@),
    {
        BitBuffer { bits: bv_from_bytes(bytes.as_slice()) }
    }
}

/// Unpacking what a packing holds gives the packed bits back, then padding.
pub proof fn lemma_unpack_packing(bytes: Seq<u8>, bits: Seq<bool>)
    requires
        is_packing(bytes, bits),
    ensures
        unpack(bytes).len() >= bits.len(),
        unpack(bytes).subrange(0, bits.len() as int) == bits,
{
    let u = unpack(bytes);
    assert forall|i: int| 0 <= i < bits.len() implies u[i] == bits[i] by {
        assert(bit_of(bytes[i / 8], i % 8) == bits[i]);
    }
    assert(u.subrange(0, bits.len() as int) =~= bits);
}

} // verus!
