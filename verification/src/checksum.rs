//! CRC-32 checksums, computed piece by piece by `crc32fast::Hasher`.

use crc32fast::Hasher;
use vstd::prelude::*;

verus! {

#[verifier::external_type_specification]
#[verifier::external_body]
pub struct ExHasher(Hasher);

/// The byte strings that bring a new hasher to this state when it is fed with them. A hasher
/// keeps the length of what it was fed, so they are all of one length.
pub uninterp spec fn inputs(hasher: Hasher) -> Set<Seq<u8>>;

/// One bit goes out of the register of a CRC-32. Where it is set, the polynomial goes in.
pub open spec fn shift_bit(register: u32) -> u32 {
    if register & 1 == 1 {
        (register >> 1) ^ 0xEDB8_8320
    } else {
        register >> 1
    }
}

/// So many bits go out of the register.
pub open spec fn shift_bits(register: u32, count: nat) -> u32
    decreases count,
{
    if count == 0 {
        register
    } else {
        shift_bit(shift_bits(register, (count - 1) as nat))
    }
}

/// The register once it has taken in `bytes`. It starts with all bits set.
pub open spec fn register_after(bytes: Seq<u8>) -> u32
    decreases bytes.len(),
{
    if bytes.len() == 0 {
        0xFFFF_FFFF
    } else {
        shift_bits(register_after(bytes.drop_last()) ^ (bytes.last() as u32), 8)
    }
}

/// The IEEE CRC-32 of a byte string: the complement of the register.
pub open spec fn crc32(bytes: Seq<u8>) -> u32 {
    !register_after(bytes)
}

/// `Hasher::new`: the hasher has been fed nothing.
#[verifier::external_body]
pub(crate) fn new_hasher() -> (hasher: Hasher)
    ensures
        inputs(hasher).contains(Seq::<u8>::empty()),
{
    Hasher::new()
}

/// `Hasher::update`: the hasher has been fed `bytes` after what it was fed before. It counts
/// the bytes in a `u64`, which must not overflow.
#[verifier::external_body]
pub(crate) fn update(hasher: &mut Hasher, bytes: &[u8])
    requires
        exists|fed: Seq<u8>| #[trigger]
            inputs(*old(hasher)).contains(fed) && fed.len() + bytes@.len() <= u64::MAX,
    ensures
        forall|fed: Seq<u8>| #[trigger]
            inputs(*old(hasher)).contains(fed) ==> inputs(*final(hasher)).contains(fed + bytes@),
{
    hasher.update(bytes)
}

/// `Hasher::finalize`: the IEEE CRC-32 of all that the hasher was fed.
#[verifier::external_body]
pub(crate) fn finalize(hasher: Hasher) -> (checksum: u32)
    ensures
        forall|fed: Seq<u8>| #[trigger] inputs(hasher).contains(fed) ==> checksum == crc32(fed),
{
    hasher.finalize()
}

/// Different registers stay different.
proof fn shift_bits_is_injective(a: u32, b: u32, count: nat)
    requires
        a != b,
    ensures
        shift_bits(a, count) != shift_bits(b, count),
    decreases count,
{
    if count > 0 {
        let fewer = (count - 1) as nat;
        shift_bits_is_injective(a, b, fewer);
        let (x, y) = (shift_bits(a, fewer), shift_bits(b, fewer));
        assert(shift_bit(x) != shift_bit(y)) by (bit_vector)
            requires
                x != y,
        ;
    }
}

/// Byte strings that differ in one byte have different checksums.
pub proof fn a_changed_byte_changes_the_checksum(bytes: Seq<u8>, at: int, byte: u8)
    requires
        0 <= at < bytes.len(),
        byte != bytes[at],
    ensures
        crc32(bytes.update(at, byte)) != crc32(bytes),
{
    a_changed_byte_changes_the_register(bytes, at, byte);
    let (x, y) = (register_after(bytes.update(at, byte)), register_after(bytes));
    assert(!x != !y) by (bit_vector)
        requires
            x != y,
    ;
}

proof fn a_changed_byte_changes_the_register(bytes: Seq<u8>, at: int, byte: u8)
    requires
        0 <= at < bytes.len(),
        byte != bytes[at],
    ensures
        register_after(bytes.update(at, byte)) != register_after(bytes),
    decreases bytes.len(),
{
    let changed = bytes.update(at, byte);
    let (x, y) = (register_after(changed.drop_last()), register_after(bytes.drop_last()));
    let (a, b) = (changed.last(), bytes.last());
    if at == bytes.len() - 1 {
        assert(changed.drop_last() =~= bytes.drop_last());
        assert(x ^ (a as u32) != x ^ (b as u32)) by (bit_vector)
            requires
                a != b,
        ;
    } else {
        a_changed_byte_changes_the_register(bytes.drop_last(), at, byte);
        assert(changed.drop_last() =~= bytes.drop_last().update(at, byte));
        assert(x ^ (a as u32) != y ^ (a as u32)) by (bit_vector)
            requires
                x != y,
        ;
    }
    shift_bits_is_injective(x ^ (a as u32), y ^ (b as u32), 8);
}

} // verus!
