//! Twenty-byte account addresses.

use vstd::prelude::*;
use crate::order::{Key, Rank};

verus! {

/// The number of bytes in an address.
pub const ADDRESS_LEN: usize = 20;

/// An account on the chain: a receiver, a payer, a signer or a contract.
#[derive(Clone, Copy, Debug, PartialEq, Eq, Hash, PartialOrd, Ord)]
pub struct Address {
    pub bytes: [u8; 20],
}

/// `a` and `b` agree on every byte before position `k` and differ there.
pub open spec fn first_difference(a: Seq<u8>, b: Seq<u8>, k: int) -> bool {
    &&& 0 <= k < a.len()
    &&& k < b.len()
    &&& a[k] != b[k]
    &&& forall|j: int| 0 <= j < k ==> a[j] == b[j]
}

/// Byte strings of one length in dictionary order.
pub open spec fn bytes_before(a: Seq<u8>, b: Seq<u8>) -> bool {
    exists|k: int| #[trigger] first_difference(a, b, k) && a[k] < b[k]
}

proof fn lemma_find_difference(a: Seq<u8>, b: Seq<u8>, n: int)
    requires
        a.len() == b.len(),
        0 <= n <= a.len(),
        a != b,
        forall|j: int| 0 <= j < n ==> a[j] == b[j],
    ensures
        exists|k: int| first_difference(a, b, k),
    decreases a.len() - n,
{
    if n == a.len() {
        assert(a =~= b);
    } else if a[n] != b[n] {
        assert(first_difference(a, b, n));
    } else {
        lemma_find_difference(a, b, n + 1);
    }
}

impl Address {
    /// The address made of the given twenty bytes.
    pub fn new(bytes: [u8; 20]) -> (a: Address)
        ensures
            a.bytes == bytes,
    {
        Address { bytes }
    }

    /// The address held in `src`, if `src` is twenty bytes long.
    pub fn from_slice(src: &[u8]) -> (r: Option<Address>)
        ensures
            r is Some <==> src@.len() == 20,
            r matches Some(a) ==> a.bytes@ == src@,
    {
        if src.len() != ADDRESS_LEN {
            return None;
        }
        let mut bytes: [u8; 20] = [0u8; 20];
        let mut i: usize = 0;
        while i < ADDRESS_LEN
            invariant
                i <= 20,
                src@.len() == 20,
                forall|j: int| 0 <= j < i ==> bytes@[j] == src@[j],
            decreases 20 - i,
        {
            bytes[i] = src[i];
            i += 1;
        }
        assert(bytes@ =~= src@);
        Some(Address { bytes })
    }

    /// The twenty bytes of the address, first byte first.
    pub fn to_vec(&self) -> (v: Vec<u8>)
        ensures
            v@ == self.bytes@,
    {
        let mut v: Vec<u8> = Vec::new();
        let mut i: usize = 0;
        while i < ADDRESS_LEN
            invariant
                i <= 20,
                v@.len() == i,
                forall|j: int| 0 <= j < i ==> v@[j] == self.bytes@[j],
            decreases 20 - i,
        {
            v.push(self.bytes[i]);
            i += 1;
        }
        assert(v@ =~= self.bytes@);
        v
    }

    /// Whether the two addresses are the same.
    pub fn same(&self, other: &Address) -> (b: bool)
        ensures
            b == (*self == *other),
    {
        self.rank(other) == Rank::Same
    }
}

impl Key for Address {
    open spec fn before(self, other: Self) -> bool {
        bytes_before(self.bytes@, other.bytes@)
    }

    proof fn before_irreflexive(a: Self) {
    }

    proof fn before_transitive(a: Self, b: Self, c: Self) {
        let k1 = choose|k: int| #[trigger] first_difference(a.bytes@, b.bytes@, k) && a.bytes@[k] < b.bytes@[k];
        let k2 = choose|k: int| #[trigger] first_difference(b.bytes@, c.bytes@, k) && b.bytes@[k] < c.bytes@[k];
        let k = if k1 <= k2 { k1 } else { k2 };
        assert(first_difference(a.bytes@, c.bytes@, k));
    }

    proof fn before_connected(a: Self, b: Self) {
        if a != b {
            assert(a.bytes@ != b.bytes@) by {
                if a.bytes@ == b.bytes@ {
                    assert(a.bytes =~= b.bytes);
                }
            }
            lemma_find_difference(a.bytes@, b.bytes@, 0);
            let k = choose|k: int| first_difference(a.bytes@, b.bytes@, k);
            if a.bytes@[k] < b.bytes@[k] {
                assert(bytes_before(a.bytes@, b.bytes@));
            } else {
                assert(first_difference(b.bytes@, a.bytes@, k));
                assert(bytes_before(b.bytes@, a.bytes@));
            }
        }
    }

    fn rank(&self, other: &Self) -> (r: Rank) {
        let mut i: usize = 0;
        while i < ADDRESS_LEN
            invariant
                i <= 20,
                forall|j: int| 0 <= j < i ==> self.bytes@[j] == other.bytes@[j],
            decreases 20 - i,
        {
            if self.bytes[i] < other.bytes[i] {
                assert(first_difference(self.bytes@, other.bytes@, i as int));
                proof {
                    lemma_before_excludes(*self, *other);
                }
                return Rank::Before;
            }
            if self.bytes[i] > other.bytes[i] {
                assert(first_difference(other.bytes@, self.bytes@, i as int));
                proof {
                    lemma_before_excludes(*other, *self);
                }
                return Rank::After;
            }
            i += 1;
        }
        assert(self.bytes@ =~= other.bytes@);
        assert(self.bytes =~= other.bytes);
        proof {
            Self::before_irreflexive(*self);
        }
        Rank::Same
    }
}

/// An address that stands before another is a different one, and the other
/// does not stand before it.
pub proof fn lemma_before_excludes(a: Address, b: Address)
    requires
        a.before(b),
    ensures
        a != b,
        !b.before(a),
{
    Address::before_irreflexive(a);
    if b.before(a) {
        Address::before_transitive(a, b, a);
    }
}

/// Whether `address` is one of `list`.
pub open spec fn listed(list: Seq<Address>, address: Address) -> bool {
    exists|i: int| 0 <= i < list.len() && list[i] == address
}

/// Whether `address` is one of `list`.
pub fn is_listed(list: &Vec<Address>, address: &Address) -> (found: bool)
    ensures
        found == listed(list@, *address),
{
    let mut i: usize = 0;
    while i < list.len()
        invariant
            i <= list@.len(),
            forall|j: int| 0 <= j < i ==> list@[j] != *address,
        decreases list@.len() - i,
    {
        if list[i].same(address) {
            return true;
        }
        i += 1;
    }
    false
}

/// What a hexadecimal digit is worth, in either case.
pub open spec fn hex_value(c: u8) -> Option<int> {
    if 0x30 <= c <= 0x39 {
        Some(c - 0x30)
    } else if 0x61 <= c <= 0x66 {
        Some(c - 0x61 + 10)
    } else if 0x41 <= c <= 0x46 {
        Some(c - 0x41 + 10)
    } else {
        None
    }
}

/// `text` without a leading `0x` or `0X`.
pub open spec fn unprefixed(text: Seq<u8>) -> Seq<u8> {
    if text.len() >= 2 && text[0] == 0x30 && (text[1] == 0x78 || text[1] == 0x58) {
        text.skip(2)
    } else {
        text
    }
}

/// Whether `text` writes an address: forty hexadecimal digits, with or
/// without `0x` before them.
pub open spec fn is_address_text(text: Seq<u8>) -> bool {
    &&& unprefixed(text).len() == 40
    &&& forall|i: int| 0 <= i < 40 ==> hex_value(#[trigger] unprefixed(text)[i]) is Some
}

/// The bytes of the address that `text` writes.
pub open spec fn address_bytes(text: Seq<u8>) -> Seq<u8> {
    Seq::new(
        20,
        |i: int|
            (16 * hex_value(unprefixed(text)[2 * i]).unwrap() + hex_value(
                unprefixed(text)[2 * i + 1],
            ).unwrap()) as u8,
    )
}

fn hex_digit(c: u8) -> (v: Option<u8>)
    ensures
        match v {
            Some(d) => hex_value(c) == Some(d as int) && d < 16,
            None => hex_value(c) is None,
        },
{
    if 0x30 <= c && c <= 0x39 {
        Some(c - 0x30)
    } else if 0x61 <= c && c <= 0x66 {
        Some(c - 0x61 + 10)
    } else if 0x41 <= c && c <= 0x46 {
        Some(c - 0x41 + 10)
    } else {
        None
    }
}

/// Reads an address from its text.
pub fn parse_address(text: &[u8]) -> (r: Option<Address>)
    ensures
        r is Some == is_address_text(text@),
        r matches Some(a) ==> a.bytes@ == address_bytes(text@),
{
    let start: usize = if text.len() >= 2 && text[0] == 0x30 && (text[1] == 0x78 || text[1]
        == 0x58) {
        2
    } else {
        0
    };
    let ghost digits = unprefixed(text@);
    assert(digits =~= text@.skip(start as int));
    if text.len() - start != 40 {
        return None;
    }
    let mut bytes: [u8; 20] = [0u8; 20];
    let mut i: usize = 0;
    while i < 20
        invariant
            i <= 20,
            start <= 2,
            text@.len() == start + 40,
            digits == text@.skip(start as int),
            digits == unprefixed(text@),
            forall|j: int| 0 <= j < 2 * i ==> hex_value(#[trigger] digits[j]) is Some,
            forall|j: int| 0 <= j < i ==> bytes@[j] == address_bytes(text@)[j],
        decreases 20 - i,
    {
        let high = match hex_digit(text[start + 2 * i]) {
            Some(d) => d,
            None => {
                assert(hex_value(digits[2 * i as int]) is None);
                return None;
            },
        };
        let low = match hex_digit(text[start + 2 * i + 1]) {
            Some(d) => d,
            None => {
                assert(hex_value(digits[2 * i as int + 1]) is None);
                return None;
            },
        };
        bytes[i] = 16 * high + low;
        proof {
            assert(digits[2 * i as int] == text@[start + 2 * i]);
            assert(digits[2 * i as int + 1] == text@[start + 2 * i + 1]);
            assert forall|j: int| 0 <= j < 2 * (i + 1) implies hex_value(
                #[trigger] digits[j],
            ) is Some by {
                if j == 2 * i {
                } else if j == 2 * i + 1 {
                }
            }
        }
        i += 1;
    }
    assert(bytes@ =~= address_bytes(text@));
    Some(Address { bytes })
}

} // verus!
