//! Bit-exact blobs. The bits live in a `bitvec` vector; this module states
//! what that vector holds and how bits are packed into bytes on the wire.

use vstd::prelude::*;
use bitvec::order::Msb0;
use bitvec::vec::BitVec;

verus! {

/// An ordered sequence of bits with an exact length, which need not be a
/// multiple of eight. Two blobs are equal when they hold the same bits.
///
/// The verifier sees only the bits, through [`blob_bits`]; the vector itself is
/// opaque to it.
#[verifier::external_body]
#[derive(Debug)]
pub struct Blob {
    bits: BitVec<u8, Msb0>,
}

/// The bits that a blob holds, first bit first.
pub uninterp spec fn blob_bits(blob: Blob) -> Seq<bool>;

/// The place in the first byte of a blob's storage at which its bits begin:
/// 0 where they begin at the most significant bit.
pub uninterp spec fn blob_head(blob: Blob) -> nat;

impl View for Blob {
    type V = Seq<bool>;

    open spec fn view(&self) -> Seq<bool> {
        blob_bits(*self)
    }
}

/// The bit of `byte` at `index`, where index 0 is the most significant bit.
pub open spec fn bit_of(byte: u8, index: int) -> bool {
    if index == 0 {
        byte / 128 % 2 == 1
    } else if index == 1 {
        byte / 64 % 2 == 1
    } else if index == 2 {
        byte / 32 % 2 == 1
    } else if index == 3 {
        byte / 16 % 2 == 1
    } else if index == 4 {
        byte / 8 % 2 == 1
    } else if index == 5 {
        byte / 4 % 2 == 1
    } else if index == 6 {
        byte / 2 % 2 == 1
    } else {
        byte % 2 == 1
    }
}

/// The bits of a byte sequence, eight per byte, most significant bit first.
pub open spec fn unpack_bits(bytes: Seq<u8>) -> Seq<bool> {
    Seq::new(8 * bytes.len(), |i: int| bit_of(bytes[i / 8], i % 8))
}

/// 1 where `bits` has a set bit at `index`, 0 where the bit is clear or
/// `index` lies outside the sequence.
pub open spec fn bit_value(bits: Seq<bool>, index: int) -> int {
    if 0 <= index < bits.len() && bits[index] {
        1
    } else {
        0
    }
}

/// The byte that packs bits `8 * chunk` to `8 * chunk + 7`, most
/// significant bit first. Positions past the end of `bits` pack as zero.
pub open spec fn packed_byte(bits: Seq<bool>, chunk: int) -> u8 {
    (128 * bit_value(bits, 8 * chunk) + 64 * bit_value(bits, 8 * chunk + 1) + 32 * bit_value(
        bits,
        8 * chunk + 2,
    ) + 16 * bit_value(bits, 8 * chunk + 3) + 8 * bit_value(bits, 8 * chunk + 4) + 4 * bit_value(
        bits,
        8 * chunk + 5,
    ) + 2 * bit_value(bits, 8 * chunk + 6) + bit_value(bits, 8 * chunk + 7)) as u8
}

/// The number of bytes that hold `bit_len` bits: the length divided by eight,
/// rounded up.
pub open spec fn byte_len(bit_len: nat) -> nat {
    (bit_len + 7) / 8
}

/// The bytes that carry `bits` on the wire: packed most significant bit first,
/// the unused low bits of a final partial byte left zero.
pub open spec fn pack_bits(bits: Seq<bool>) -> Seq<u8> {
    Seq::new(byte_len(bits.len()), |chunk: int| packed_byte(bits, chunk))
}

/// The largest number of bits that a bit vector holds on this machine:
/// `BitSlice::MAX_BITS`, the greatest machine word shifted right by three.
pub open spec fn bitvec_max_bits() -> nat {
    (usize::MAX / 8) as nat
}

/// The largest number of whole bytes that can be turned into a blob: as many
/// as have no more bits than a bit vector holds.
pub open spec fn max_blob_bytes() -> nat {
    (usize::MAX / 64) as nat
}

/// The largest number of bits to which [`Blob::push`] lets a blob grow: the
/// bits of the largest number of whole bytes.
pub open spec fn max_blob_bits() -> nat {
    8 * max_blob_bytes()
}

/// `BitVec::new`: the vector it returns is empty.
#[verifier::external_body]
fn bitvec_new() -> (blob: Blob)
    ensures
        blob_bits(blob) == Seq::<bool>::empty(),
{
    Blob { bits: BitVec::new() }
}

/// `BitVec::from_vec`: the vector spans every bit of `bytes`, in `Msb0`
/// order, so bit `i` is bit `i % 8` from the top of byte `i / 8`. It panics
/// when the bit count passes `BitSlice::MAX_BITS`, which the bound on the
/// byte count rules out.
#[verifier::external_body]
fn bitvec_from_vec(bytes: Vec<u8>) -> (blob: Blob)
    requires
        bytes@.len() <= max_blob_bytes(),
    ensures
        blob_bits(blob) == unpack_bits(bytes@),
{
    Blob { bits: BitVec::from_vec(bytes) }
}

/// `BitVec::len`: the number of bits held, which never passes
/// `BitSlice::MAX_BITS`, the machine word's maximum shifted right by three.
#[verifier::external_body]
fn bitvec_len(blob: &Blob) -> (n: usize)
    ensures
        n == blob_bits(*blob).len(),
        n <= bitvec_max_bits(),
{
    blob.bits.len()
}

/// Indexing a `BitVec`: the bit at `index`. It panics past the end, which
/// the bound rules out.
#[verifier::external_body]
fn bitvec_get(blob: &Blob, index: usize) -> (bit: bool)
    requires
        index < blob_bits(*blob).len(),
    ensures
        bit == blob_bits(*blob)[index as int],
{
    blob.bits[index]
}

/// `BitVec::push`: appends one bit. It panics when the new length would
/// pass `BitSlice::MAX_BITS`, which the bound rules out.
#[verifier::external_body]
fn bitvec_push(blob: &mut Blob, bit: bool)
    requires
        blob_bits(*old(blob)).len() < bitvec_max_bits(),
    ensures
        blob_bits(*final(blob)) == blob_bits(*old(blob)).push(bit),
{
    blob.bits.push(bit)
}

/// `BitVec::truncate`: keeps the first `len` bits; a `len` at or past the
/// current length changes nothing.
#[verifier::external_body]
fn bitvec_truncate(blob: &mut Blob, len: usize)
    ensures
        len < blob_bits(*old(blob)).len() ==> blob_bits(*final(blob)) == blob_bits(
            *old(blob),
        ).take(len as int),
        len >= blob_bits(*old(blob)).len() ==> blob_bits(*final(blob)) == blob_bits(*old(blob)),
{
    blob.bits.truncate(len)
}

/// `BitVec::force_align`: moves the bits to the front edge of the storage,
/// and changes none of them.
#[verifier::external_body]
fn bitvec_force_align(blob: &mut Blob)
    ensures
        blob_bits(*final(blob)) == blob_bits(*old(blob)),
        blob_head(*final(blob)) == 0,
{
    blob.bits.force_align()
}

/// `BitVec::as_raw_slice`: the bytes of the storage that hold bits of the
/// vector. Where the bits begin at the front edge of the storage, these are
/// as many bytes as hold that many bits, and bit `i` of the vector is bit
/// `i % 8` from the top of byte `i / 8`. What the last byte holds behind the
/// bits of the vector is not stated.
#[verifier::external_body]
fn bitvec_as_raw_slice(blob: &Blob) -> (raw: &[u8])
    requires
        blob_head(*blob) == 0,
    ensures
        raw@.len() == byte_len(blob_bits(*blob).len()),
        forall|i: int|
            0 <= i < blob_bits(*blob).len() ==> #[trigger] blob_bits(*blob)[i] == bit_of(
                raw@[i / 8],
                i % 8,
            ),
{
    blob.bits.as_raw_slice()
}

/// `BitVec::clone`: the copy holds the same bits.
#[verifier::external_body]
fn bitvec_clone(blob: &Blob) -> (copy: Blob)
    ensures
        blob_bits(copy) == blob_bits(*blob),
{
    Blob { bits: blob.bits.clone() }
}

impl Clone for Blob {
    /// A blob that holds the same bits.
    fn clone(&self) -> (copy: Self)
        ensures
            copy@ == self@,
    {
        bitvec_clone(self)
    }
}

/// `BitVec::eq`: two bit vectors are equal when they have one length and the
/// same bit at each index, however they are stored.
#[verifier::external_body]
fn bitvec_eq(left: &Blob, right: &Blob) -> (r: bool)
    ensures
        r == (blob_bits(*left) == blob_bits(*right)),
{
    left.bits == right.bits
}

impl PartialEq for Blob {
    /// Whether the two blobs hold the same bits.
    fn eq(&self, other: &Self) -> (r: bool) {
        bitvec_eq(self, other)
    }
}

impl vstd::std_specs::cmp::PartialEqSpecImpl for Blob {
    open spec fn obeys_eq_spec() -> bool {
        true
    }

    open spec fn eq_spec(&self, other: &Self) -> bool {
        blob_bits(*self) == blob_bits(*other)
    }
}

impl Blob {
    /// A blob with no bits.
    pub fn new() -> (blob: Blob)
        ensures
            blob@ == Seq::<bool>::empty(),
    {
        bitvec_new()
    }

    /// The blob made of every bit of `bytes`, most significant bit of each
    /// byte first. `None` exactly when there are more bytes than a blob can
    /// span on this machine.
    pub fn from_vec(bytes: Vec<u8>) -> (r: Option<Blob>)
        ensures
            bytes@.len() <= max_blob_bytes() ==> (r matches Some(blob) && blob@ == unpack_bits(
                bytes@,
            )),
            bytes@.len() > max_blob_bytes() ==> r is None,
    {
        if bytes.len() <= usize::MAX / 64 {
            Some(bitvec_from_vec(bytes))
        } else {
            None
        }
    }

    /// The number of bits.
    pub fn len(&self) -> (n: usize)
        ensures
            n == self@.len(),
            n <= bitvec_max_bits(),
    {
        bitvec_len(self)
    }

    /// The bit at `index`, or `None` past the end.
    pub fn get(&self, index: usize) -> (r: Option<bool>)
        ensures
            index < self@.len() ==> r == Some(self@[index as int]),
            index >= self@.len() ==> r is None,
    {
        if index < bitvec_len(self) {
            Some(bitvec_get(self, index))
        } else {
            None
        }
    }

    /// Appends `bit`, unless the blob is already as long as a blob can be.
    /// Returns whether the bit was appended.
    pub fn push(&mut self, bit: bool) -> (pushed: bool)
        ensures
            pushed <==> old(self)@.len() < max_blob_bits(),
            pushed ==> final(self)@ == old(self)@.push(bit),
            !pushed ==> final(self)@ == old(self)@,
    {
        if bitvec_len(self) < (usize::MAX / 64) * 8 {
            bitvec_push(self, bit);
            true
        } else {
            false
        }
    }

    /// Keeps the first `len` bits and drops the rest. A `len` at or past the
    /// current length changes nothing.
    pub fn truncate(&mut self, len: usize)
        ensures
            final(self)@ == if len < old(self)@.len() {
                old(self)@.take(len as int)
            } else {
                old(self)@
            },
    {
        bitvec_truncate(self, len)
    }

    /// Appends the packed bytes of the blob to `into`: the bytes of its
    /// storage, with what the last byte holds behind the bits cleared.
    pub fn pack_into(&self, into: &mut Vec<u8>)
        ensures
            final(into)@ == old(into)@ + pack_bits(self@),
    {
        let mut aligned = bitvec_clone(self);
        bitvec_force_align(&mut aligned);
        let raw = bitvec_as_raw_slice(&aligned);
        let len = bitvec_len(self);
        let count = raw.len();
        let ghost bits = self@;
        let mut chunk: usize = 0;
        while chunk < count
            invariant
                bits == self@,
                bits == blob_bits(aligned),
                len == bits.len(),
                count == raw@.len(),
                count == byte_len(bits.len()),
                forall|i: int|
                    0 <= i < bits.len() ==> #[trigger] blob_bits(aligned)[i] == bit_of(
                        raw@[i / 8],
                        i % 8,
                    ),
                chunk <= count,
                into@ == old(into)@ + pack_bits(bits).take(chunk as int),
            decreases count - chunk,
        {
            let stored = raw[chunk];
            let kept = len - chunk * 8;
            let byte = if kept >= 8 {
                stored
            } else {
                stored & (0xffu8 << ((8 - kept) as u32))
            };
            proof {
                let base = chunk * 8;
                assert forall|k: int| 0 <= k < 8 && base + k < bits.len() implies #[trigger] bits[base
                    + k] == bit_of(stored, k) by {
                    assert(blob_bits(aligned)[base + k] == bit_of(
                        raw@[(base + k) / 8],
                        (base + k) % 8,
                    ));
                }
                lemma_stored_byte(bits, stored, byte, chunk as int);
                assert(pack_bits(bits).take(chunk + 1) == pack_bits(bits).take(chunk as int).push(
                    byte,
                ));
            }
            into.push(byte);
            chunk = chunk + 1;
        }
        assert(pack_bits(bits).take(count as int) == pack_bits(bits));
    }
}

/// A byte of storage with what it holds behind the bits cleared is the
/// packed byte of its place.
#[verifier::rlimit(60)]
proof fn lemma_stored_byte(bits: Seq<bool>, stored: u8, byte: u8, chunk: int)
    requires
        0 <= chunk,
        8 * chunk < bits.len(),
        forall|k: int|
            0 <= k < 8 && 8 * chunk + k < bits.len() ==> #[trigger] bits[8 * chunk + k] == bit_of(
                stored,
                k,
            ),
        byte == if bits.len() - 8 * chunk >= 8 {
            stored
        } else {
            stored & (0xffu8 << ((8 - (bits.len() - 8 * chunk)) as u32))
        },
    ensures
        byte == packed_byte(bits, chunk),
{
    let base = 8 * chunk;
    let kept = bits.len() - base;
    lemma_byte_is_its_bits(byte);
    if kept < 8 {
        lemma_clear_low_bits(stored, (8 - kept) as u32);
    }
    assert(byte / 128 % 2 == bit_value(bits, base)) by {
        assert(bits[base + 0] == bit_of(stored, 0));
    }
    assert(byte / 64 % 2 == bit_value(bits, base + 1)) by {
        if kept > 1 {
            assert(bits[base + 1] == bit_of(stored, 1));
        }
    }
    assert(byte / 32 % 2 == bit_value(bits, base + 2)) by {
        if kept > 2 {
            assert(bits[base + 2] == bit_of(stored, 2));
        }
    }
    assert(byte / 16 % 2 == bit_value(bits, base + 3)) by {
        if kept > 3 {
            assert(bits[base + 3] == bit_of(stored, 3));
        }
    }
    assert(byte / 8 % 2 == bit_value(bits, base + 4)) by {
        if kept > 4 {
            assert(bits[base + 4] == bit_of(stored, 4));
        }
    }
    assert(byte / 4 % 2 == bit_value(bits, base + 5)) by {
        if kept > 5 {
            assert(bits[base + 5] == bit_of(stored, 5));
        }
    }
    assert(byte / 2 % 2 == bit_value(bits, base + 6)) by {
        if kept > 6 {
            assert(bits[base + 6] == bit_of(stored, 6));
        }
    }
    assert(byte % 2 == bit_value(bits, base + 7)) by {
        if kept > 7 {
            assert(bits[base + 7] == bit_of(stored, 7));
        }
    }
}

/// A byte is the sum of its bits, each at its weight.
proof fn lemma_byte_is_its_bits(b: u8)
    by (bit_vector)
    ensures
        b == 128 * (b / 128 % 2) + 64 * (b / 64 % 2) + 32 * (b / 32 % 2) + 16 * (b / 16 % 2) + 8
            * (b / 8 % 2) + 4 * (b / 4 % 2) + 2 * (b / 2 % 2) + b % 2,
{
}

/// Masking a byte clears its `low` least significant bits and keeps the
/// others.
proof fn lemma_clear_low_bits(b: u8, low: u32)
    by (bit_vector)
    requires
        1 <= low <= 8,
    ensures
        ({
            let m = b & (0xffu8 << low);
            &&& m % 2 == 0
            &&& m / 2 % 2 == if low > 1 { 0 } else { b / 2 % 2 }
            &&& m / 4 % 2 == if low > 2 { 0 } else { b / 4 % 2 }
            &&& m / 8 % 2 == if low > 3 { 0 } else { b / 8 % 2 }
            &&& m / 16 % 2 == if low > 4 { 0 } else { b / 16 % 2 }
            &&& m / 32 % 2 == if low > 5 { 0 } else { b / 32 % 2 }
            &&& m / 64 % 2 == if low > 6 { 0 } else { b / 64 % 2 }
            &&& m / 128 % 2 == if low > 7 { 0 } else { b / 128 % 2 }
        }),
{
}

/// Unpacking the packed bytes of `bits` and keeping as many bits as went in
/// gives `bits` back.
pub proof fn lemma_unpack_pack(bits: Seq<bool>)
    ensures
        unpack_bits(pack_bits(bits)).take(bits.len() as int) == bits,
{
    let packed = pack_bits(bits);
    let back = unpack_bits(packed).take(bits.len() as int);
    assert(back.len() == bits.len());
    assert forall|i: int| 0 <= i < bits.len() implies back[i] == bits[i] by {
        let chunk = i / 8;
        let index = i % 8;
        assert(packed[chunk] == packed_byte(bits, chunk));
        lemma_bit_of_packed(bits, chunk, index);
    }
}

/// Bit `index` of a packed byte is the bit that was packed there.
proof fn lemma_bit_of_packed(bits: Seq<bool>, chunk: int, index: int)
    requires
        0 <= index < 8,
    ensures
        bit_of(packed_byte(bits, chunk), index) == (bit_value(bits, 8 * chunk + index) == 1),
{
}

} // verus!
