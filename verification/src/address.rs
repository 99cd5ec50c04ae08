//! Content addresses: 32 bytes, ordered byte-wise and written as 64 lowercase hex digits.

use vstd::prelude::*;

verus! {

/// The content address of a chunk.
#[derive(Clone, Copy, Debug, PartialEq, Eq, PartialOrd, Ord, Hash)]
pub struct Address(pub [u8; 32]);

impl View for Address {
    type V = Seq<u8>;

    open spec fn view(&self) -> Seq<u8> {
        self.0@
    }
}

impl Address {
    /// Whether two addresses hold the same bytes.
    pub fn same(&self, other: &Address) -> (r: bool)
        ensures
            r == (*self == *other),
            r == (self@ == other@),
    {
        let mut i: usize = 0;
        while i < 32
            invariant
                i <= 32,
                forall|k: int| 0 <= k < i ==> self.0@[k] == other.0@[k],
            decreases 32 - i,
        {
            if self.0[i] != other.0[i] {
                return false;
            }
            i = i + 1;
        }
        assert(self.0@ =~= other.0@);
        assert(self.0 =~= other.0);
        true
    }
}

/// The error of `hex::decode`. Nothing is read from it.
#[verifier::external_type_specification]
#[verifier::external_body]
pub struct ExFromHexError(hex::FromHexError);

/// Whether `byte` is one of the characters `0` to `9`, `a` to `f` and `A` to `F`.
pub open spec fn is_hex_digit(byte: u8) -> bool {
    ||| 0x30 <= byte <= 0x39
    ||| 0x61 <= byte <= 0x66
    ||| 0x41 <= byte <= 0x46
}

/// The number that a hex digit stands for.
pub open spec fn hex_value(byte: u8) -> int {
    if 0x30 <= byte <= 0x39 {
        byte - 0x30
    } else if 0x61 <= byte <= 0x66 {
        byte - 0x61 + 10
    } else {
        byte - 0x41 + 10
    }
}

/// The lowercase hex digit that stands for `value`, a number below 16.
pub open spec fn lower_hex_digit(value: int) -> u8 {
    if value < 10 {
        (0x30 + value) as u8
    } else {
        (0x61 + value - 10) as u8
    }
}

/// Whether `text` is hex: an even number of hex digits.
pub open spec fn is_hex(text: Seq<u8>) -> bool {
    &&& text.len() % 2 == 0
    &&& forall|i: int| 0 <= i < text.len() ==> is_hex_digit(#[trigger] text[i])
}

/// The bytes that the hex `text` stands for: one for each two digits, the first of them
/// the upper half.
pub open spec fn hex_decoded(text: Seq<u8>) -> Seq<u8> {
    Seq::new(text.len() / 2, |i: int| (16 * hex_value(text[2 * i]) + hex_value(text[2 * i + 1])) as u8)
}

/// `bytes` in lowercase hex: two digits for each byte, the upper half first.
pub open spec fn hex_encoded(bytes: Seq<u8>) -> Seq<u8> {
    Seq::new(
        2 * bytes.len(),
        |i: int|
            if i % 2 == 0 {
                lower_hex_digit(bytes[i / 2] as int / 16)
            } else {
                lower_hex_digit(bytes[i / 2] as int % 16)
            },
    )
}

/// Reading back what was written in hex gives the bytes that were written.
pub proof fn lemma_hex_round_trip(bytes: Seq<u8>)
    ensures
        is_hex(hex_encoded(bytes)),
        hex_decoded(hex_encoded(bytes)) == bytes,
{
    let text = hex_encoded(bytes);
    assert forall|i: int| 0 <= i < text.len() implies is_hex_digit(#[trigger] text[i]) by {
        let b = bytes[i / 2] as int;
        assert(0 <= b / 16 < 16 && 0 <= b % 16 < 16);
    }
    assert forall|i: int| 0 <= i < bytes.len() implies hex_decoded(text)[i] == bytes[i] by {
        let b = bytes[i] as int;
        assert((2 * i) / 2 == i && (2 * i + 1) / 2 == i);
        assert((2 * i) % 2 == 0 && (2 * i + 1) % 2 == 1);
        assert(text[2 * i] == lower_hex_digit(b / 16));
        assert(text[2 * i + 1] == lower_hex_digit(b % 16));
        assert(0 <= b / 16 < 16 && 0 <= b % 16 < 16);
        assert(hex_value(lower_hex_digit(b / 16)) == b / 16);
        assert(hex_value(lower_hex_digit(b % 16)) == b % 16);
        assert(16 * (b / 16) + b % 16 == b);
    }
    assert(hex_decoded(text) =~= bytes);
}

/// `hex::decode` on a byte string: it succeeds exactly on an even number of hex digits, of
/// either case, and then returns one byte for each two digits, the first digit of a pair
/// being the upper half of its byte.
#[verifier::external_body]
fn decode_hex(text: &[u8]) -> (decoded: Result<Vec<u8>, hex::FromHexError>)
    ensures
        decoded is Ok <==> is_hex(text@),
        decoded matches Ok(bytes) ==> bytes@ == hex_decoded(text@),
{
    hex::decode(text)
}

/// The `LowerHex` form of `xor_name::XorName` without a width: all 32 bytes, two lowercase
/// hex digits each, in order.
#[verifier::external_body]
fn encode_hex(address: &Address) -> (text: Vec<u8>)
    ensures
        text@ == hex_encoded(address@),
{
    format!("{:x}", xor_name::XorName(address.0)).into_bytes()
}

/// Why a text is not an address.
#[derive(Clone, Copy, Debug, PartialEq, Eq)]
pub enum AddressError {
    /// The text is not an even number of hex digits.
    NotHex,
    /// The text is hex, but for `bytes` bytes and not for 32.
    WrongLength { bytes: usize },
}

/// What reading `text` as an address gives.
pub open spec fn parsed_address(text: Seq<u8>) -> Result<Address, AddressError> {
    if !is_hex(text) {
        Err(AddressError::NotHex)
    } else if text.len() != 64 {
        Err(AddressError::WrongLength { bytes: (text.len() / 2) as usize })
    } else {
        Ok(address_of(hex_decoded(text)))
    }
}

/// The address that holds the 32 bytes of `bytes`.
pub open spec fn address_of(bytes: Seq<u8>) -> Address {
    Address(array_of(bytes))
}

/// The array that holds the 32 bytes of `bytes`.
pub closed spec fn array_of(bytes: Seq<u8>) -> [u8; 32] {
    choose|array: [u8; 32]| array@ == bytes
}

/// An array is found again from its bytes.
pub proof fn lemma_array_of(array: [u8; 32])
    ensures
        array_of(array@) == array,
{
    let found = array_of(array@);
    assert(found@ == array@);
    assert(found@ =~= array@);
    assert(found =~= array);
}

impl Address {
    /// Reads an address from its 64 hex digits, of either case.
    pub fn from_hex(text: &[u8]) -> (parsed: Result<Address, AddressError>)
        ensures
            parsed == parsed_address(text@),
    {
        match decode_hex(text) {
            Err(_) => Err(AddressError::NotHex),
            Ok(bytes) => {
                if bytes.len() != 32 {
                    Err(AddressError::WrongLength { bytes: bytes.len() })
                } else {
                    let mut array = [0u8; 32];
                    let mut i: usize = 0;
                    while i < 32
                        invariant
                            i <= 32,
                            bytes@.len() == 32,
                            forall|k: int| 0 <= k < i ==> array@[k] == bytes@[k],
                        decreases 32 - i,
                    {
                        array[i] = bytes[i];
                        i = i + 1;
                    }
                    proof {
                        assert(array@ =~= bytes@);
                        lemma_array_of(array);
                    }
                    Ok(Address(array))
                }
            },
        }
    }

    /// The address as 64 lowercase hex digits.
    pub fn to_hex(&self) -> (text: Vec<u8>)
        ensures
            text@ == hex_encoded(self@),
    {
        encode_hex(self)
    }
}

/// The number that `bytes` spell, the first byte counting most.
pub open spec fn rank_of(bytes: Seq<u8>) -> nat
    decreases bytes.len(),
{
    if bytes.len() == 0 {
        0
    } else {
        rank_of(bytes.drop_last()) * 256 + bytes.last() as nat
    }
}

/// Byte strings of one length that spell the same number are the same.
pub proof fn lemma_rank_tells_apart(a: Seq<u8>, b: Seq<u8>)
    requires
        a.len() == b.len(),
        rank_of(a) == rank_of(b),
    ensures
        a == b,
    decreases a.len(),
{
    if a.len() > 0 {
        lemma_rank_tells_apart(a.drop_last(), b.drop_last());
        assert(a =~= a.drop_last().push(a.last()));
        assert(b =~= b.drop_last().push(b.last()));
    }
    assert(a =~= b);
}

/// The order of ranks is the order byte by byte: of two byte strings of one length, the one
/// with the smaller byte where they first differ has the smaller rank.
pub proof fn lemma_rank_is_bytewise(a: Seq<u8>, b: Seq<u8>, k: int)
    requires
        a.len() == b.len(),
        0 <= k < a.len(),
        a.take(k) == b.take(k),
        a[k] < b[k],
    ensures
        rank_of(a) < rank_of(b),
    decreases a.len(),
{
    if k == a.len() - 1 {
        assert(a.drop_last() =~= a.take(k));
        assert(b.drop_last() =~= b.take(k));
    } else {
        assert(a.drop_last().take(k) =~= a.take(k));
        assert(b.drop_last().take(k) =~= b.take(k));
        lemma_rank_is_bytewise(a.drop_last(), b.drop_last(), k);
    }
}

impl Address {
    /// The place of the address in the order of addresses: byte-wise, the first byte
    /// counting most.
    pub open spec fn rank(&self) -> nat {
        rank_of(self@)
    }

    /// Addresses of the same rank are the same address.
    pub proof fn lemma_rank_tells_apart(a: Address, b: Address)
        requires
            a.rank() == b.rank(),
        ensures
            a == b,
    {
        lemma_rank_tells_apart(a@, b@);
        assert(a.0@ =~= b.0@);
        assert(a.0 =~= b.0);
    }

    /// Whether this address comes before `other` in the order of addresses.
    pub fn precedes(&self, other: &Address) -> (before: bool)
        ensures
            before == (self.rank() < other.rank()),
    {
        let mut before = false;
        let mut after = false;
        let mut i: usize = 0;
        while i < 32
            invariant
                i <= 32,
                !(before && after),
                before ==> rank_of(self@.take(i as int)) < rank_of(other@.take(i as int)),
                after ==> rank_of(self@.take(i as int)) > rank_of(other@.take(i as int)),
                !before && !after ==> rank_of(self@.take(i as int)) == rank_of(other@.take(i as int)),
            decreases 32 - i,
        {
            proof {
                assert(self@.take(i as int + 1).drop_last() =~= self@.take(i as int));
                assert(other@.take(i as int + 1).drop_last() =~= other@.take(i as int));
                assert(self@.take(i as int + 1).last() == self.0@[i as int]);
                assert(other@.take(i as int + 1).last() == other.0@[i as int]);
            }
            if !before && !after {
                if self.0[i] < other.0[i] {
                    before = true;
                } else if self.0[i] > other.0[i] {
                    after = true;
                }
            }
            i = i + 1;
        }
        proof {
            assert(self@.take(32) =~= self@);
            assert(other@.take(32) =~= other@);
        }
        before
    }
}

} // verus!
