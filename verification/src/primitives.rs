//! Fixed-width hashes and addresses, and the byte strings under which they are stored.

use crate::error::StoreError;
use vstd::prelude::*;

verus! {

/// Width in bytes of a hash and of a full-width address.
pub const H256_LEN: usize = 32;

/// Width in bytes of a short address.
pub const H160_LEN: usize = 20;

/// Number of leading zero bytes that pad a short address to full width.
pub const H160_PADDING: usize = 12;

/// A 32-byte value: a message identifier, or an address padded to full width.
#[derive(Clone, Copy, Debug, PartialEq, Eq, Hash)]
pub struct H256(pub [u8; 32]);

impl View for H256 {
    type V = Seq<u8>;

    open spec fn view(&self) -> Seq<u8> {
        self.0@
    }
}

/// Whether the first `H160_PADDING` bytes of `bytes` are all zero.
pub open spec fn spec_is_h160(bytes: Seq<u8>) -> bool {
    forall|i: int| 0 <= i < H160_PADDING ==> bytes[i] == 0u8
}

/// The byte string under which the address `bytes` is stored: its last 20
/// bytes where it is a padded short address, all 32 bytes otherwise.
pub open spec fn spec_address_to_bytes(bytes: Seq<u8>) -> Seq<u8> {
    if spec_is_h160(bytes) {
        bytes.subrange(H160_PADDING as int, H256_LEN as int)
    } else {
        bytes
    }
}

/// The address that a stored byte string stands for, where it has one of
/// the two accepted widths.
pub open spec fn spec_bytes_to_address(data: Seq<u8>) -> Option<Seq<u8>> {
    if data.len() == H160_LEN {
        Some(Seq::new(H160_PADDING as nat, |i: int| 0u8) + data)
    } else if data.len() == H256_LEN {
        Some(data)
    } else {
        None
    }
}

impl H256 {
    /// The value made of the 32 bytes of `bytes`.
    pub fn from_slice(bytes: &[u8]) -> (h: H256)
        requires
            bytes@.len() == H256_LEN,
        ensures
            h@ == bytes@,
    {
        let mut out = [0u8; 32];
        let mut i: usize = 0;
        while i < 32
            invariant
                i <= 32,
                bytes@.len() == 32,
                forall|j: int| 0 <= j < i ==> out@[j] == bytes@[j],
            decreases 32 - i,
        {
            out[i] = bytes[i];
            i += 1;
        }
        let h = H256(out);
        assert(h@ =~= bytes@);
        h
    }

    /// The 32 bytes of the value.
    pub fn as_fixed_bytes(&self) -> (bytes: &[u8; 32])
        ensures
            bytes@ == self@,
    {
        &self.0
    }
}

/// Whether two byte strings are the same.
pub fn same_bytes(left: &Vec<u8>, right: &Vec<u8>) -> (same: bool)
    ensures
        same == (left@ == right@),
{
    if left.len() != right.len() {
        return false;
    }
    let mut i: usize = 0;
    while i < left.len()
        invariant
            i <= left@.len(),
            left@.len() == right@.len(),
            forall|j: int| 0 <= j < i ==> left@[j] == right@[j],
        decreases left@.len() - i,
    {
        if left[i] != right[i] {
            return false;
        }
        i += 1;
    }
    assert(left@ =~= right@);
    true
}

/// A copy of a byte string.
pub fn copy_bytes(bytes: &Vec<u8>) -> (copy: Vec<u8>)
    ensures
        copy@ == bytes@,
{
    let copy = bytes.clone();
    assert(copy@ =~= bytes@);
    copy
}

/// Whether `data` is a short address padded to full width: its first 12
/// bytes are zero.
pub fn is_h160(data: &H256) -> (short: bool)
    ensures
        short == spec_is_h160(data@),
{
    let mut i: usize = 0;
    while i < H160_PADDING
        invariant
            i <= H160_PADDING,
            forall|j: int| 0 <= j < i ==> data@[j] == 0u8,
        decreases H160_PADDING - i,
    {
        if data.0[i] != 0 {
            return false;
        }
        i += 1;
    }
    true
}

/// The 32 bytes of a hash, as they are stored.
pub fn h256_to_bytes(data: &H256) -> (bytes: Vec<u8>)
    ensures
        bytes@ == data@,
{
    let mut bytes: Vec<u8> = Vec::new();
    let mut i: usize = 0;
    while i < H256_LEN
        invariant
            i <= H256_LEN,
            bytes@ == data@.take(i as int),
        decreases H256_LEN - i,
    {
        bytes.push(data.0[i]);
        assert(data@.take(i as int).push(data@[i as int]) =~= data@.take(i + 1));
        i += 1;
    }
    assert(data@.take(H256_LEN as int) =~= data@);
    bytes
}

/// The byte string under which an address is stored. A short address loses
/// its padding and takes 20 bytes; any other address takes all 32.
pub fn address_to_bytes(data: &H256) -> (bytes: Vec<u8>)
    ensures
        bytes@ == spec_address_to_bytes(data@),
        bytes@.len() == H160_LEN || bytes@.len() == H256_LEN,
{
    if is_h160(data) {
        let mut bytes: Vec<u8> = Vec::new();
        let mut i: usize = H160_PADDING;
        while i < H256_LEN
            invariant
                H160_PADDING <= i <= H256_LEN,
                bytes@ == data@.subrange(H160_PADDING as int, i as int),
            decreases H256_LEN - i,
        {
            bytes.push(data.0[i]);
            assert(data@.subrange(H160_PADDING as int, i as int).push(data@[i as int])
                =~= data@.subrange(H160_PADDING as int, i + 1));
            i += 1;
        }
        bytes
    } else {
        h256_to_bytes(data)
    }
}

/// Reads a stored byte string back as an address. A string of 20 bytes is
/// padded in front with zeros, one of 32 bytes is taken as it is, and any
/// other width is refused.
pub fn bytes_to_address(data: Vec<u8>) -> (address: Result<H256, StoreError>)
    ensures
        match address {
            Ok(h) => spec_bytes_to_address(data@) == Some(h@),
            Err(e) => spec_bytes_to_address(data@) is None && e == StoreError::Decode,
        },
{
    if data.len() != H160_LEN && data.len() != H256_LEN {
        return Err(StoreError::Decode);
    }
    let offset: usize = H256_LEN - data.len();
    let mut out = [0u8; 32];
    let mut i: usize = 0;
    while i < data.len()
        invariant
            i <= data.len(),
            offset + data.len() == H256_LEN,
            forall|j: int| 0 <= j < offset ==> out@[j] == 0u8,
            forall|j: int| 0 <= j < i ==> out@[offset + j] == data@[j],
        decreases data.len() - i,
    {
        out[offset + i] = data[i];
        i += 1;
    }
    let h = H256(out);
    assert(h@ =~= spec_bytes_to_address(data@).unwrap());
    Ok(h)
}

/// An address that is stored and read back is the address that went in.
pub proof fn lemma_address_round_trip(address: Seq<u8>)
    requires
        address.len() == H256_LEN,
    ensures
        spec_bytes_to_address(spec_address_to_bytes(address)) == Some(address),
{
    if spec_is_h160(address) {
        let stored = address.subrange(H160_PADDING as int, H256_LEN as int);
        assert(Seq::new(H160_PADDING as nat, |i: int| 0u8) + stored =~= address);
    }
}

/// A stored byte string of an accepted width that is read as an address and
/// stored again comes out as it was, unless it spelt a short address at full
/// width.
pub proof fn lemma_bytes_round_trip(data: Seq<u8>)
    requires
        data.len() == H160_LEN || (data.len() == H256_LEN && !spec_is_h160(data)),
    ensures
        spec_address_to_bytes(spec_bytes_to_address(data).unwrap()) == data,
{
    if data.len() == H160_LEN {
        let padded = Seq::new(H160_PADDING as nat, |i: int| 0u8) + data;
        assert(spec_is_h160(padded));
        assert(padded.subrange(H160_PADDING as int, H256_LEN as int) =~= data);
    }
}

} // verus!
