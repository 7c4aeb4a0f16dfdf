//! Receipt aggregate vouchers, as they arrive over Kafka: a message whose
//! key names a signer and a receiver, and whose payload is the value that
//! the signer has vouched for.

use vstd::prelude::*;
use crate::address::{
    address_bytes, is_address_text, is_listed, listed, parse_address, Address,
};
use crate::sorted_map::SortedMap;
use crate::text::{amount_value, parse_amount};

verus! {

/// A voucher: `signer` vouches that `receiver` is owed `value`.
#[derive(Clone, Copy, Debug, PartialEq, Eq)]
pub struct Record {
    pub signer: Address,
    pub receiver: Address,
    pub value: u128,
}

/// Why a message is not a voucher.
#[derive(Clone, Copy, Debug, PartialEq, Eq, Structural)]
pub enum RecordError {
    /// The message has no key.
    MissingKey,
    /// The message has no payload.
    MissingPayload,
    /// The key has no colon.
    MalformedKey,
    /// What stands before the colon is not an address.
    BadSigner,
    /// What stands after the colon is not an address.
    BadReceiver,
    /// The payload is not an amount.
    BadValue,
}

/// Where the first colon of `key` stands.
pub open spec fn first_colon(key: Seq<u8>, at: int) -> bool {
    &&& 0 <= at < key.len()
    &&& key[at] == 0x3a
    &&& forall|j: int| 0 <= j < at ==> key[j] != 0x3a
}

/// What a voucher holds.
pub struct Voucher {
    pub signer: Seq<u8>,
    pub receiver: Seq<u8>,
    pub value: u128,
}

impl View for Record {
    type V = Voucher;

    open spec fn view(&self) -> Voucher {
        Voucher { signer: self.signer.bytes@, receiver: self.receiver.bytes@, value: self.value }
    }
}

/// The voucher that a key and a payload make: the key is the signer, a
/// colon, and the receiver; the payload is the value.
pub open spec fn record_of(key: Seq<u8>, payload: Seq<u8>) -> Result<Voucher, RecordError> {
    if !exists|at: int| first_colon(key, at) {
        Err(RecordError::MalformedKey)
    } else {
        let at = choose|at: int| first_colon(key, at);
        let signer = key.take(at);
        let receiver = key.skip(at + 1);
        if !is_address_text(signer) {
            Err(RecordError::BadSigner)
        } else if !is_address_text(receiver) {
            Err(RecordError::BadReceiver)
        } else {
            match amount_value(payload) {
                None => Err(RecordError::BadValue),
                Some(value) => Ok(
                    Voucher {
                        signer: address_bytes(signer),
                        receiver: address_bytes(receiver),
                        value,
                    },
                ),
            }
        }
    }
}

/// Reads a voucher from the key and the payload of a message.
pub fn parse_record(key: Option<&[u8]>, payload: Option<&[u8]>) -> (r: Result<Record, RecordError>)
    ensures
        key is None ==> r == Err::<Record, _>(RecordError::MissingKey),
        key is Some && payload is None ==> r == Err::<Record, _>(RecordError::MissingPayload),
        key is Some && payload is Some ==> match record_of(key.unwrap()@, payload.unwrap()@) {
            Err(e) => r == Err::<Record, _>(e),
            Ok(voucher) => r matches Ok(record) && record@ == voucher,
        },
{
    let key = match key {
        None => {
            return Err(RecordError::MissingKey);
        },
        Some(k) => k,
    };
    let payload = match payload {
        None => {
            return Err(RecordError::MissingPayload);
        },
        Some(p) => p,
    };
    let mut at: usize = 0;
    while at < key.len() && key[at] != 0x3a
        invariant
            at <= key@.len(),
            forall|j: int| 0 <= j < at ==> key@[j] != 0x3a,
        decreases key@.len() - at,
    {
        at += 1;
    }
    if at == key.len() {
        assert forall|c: int| !first_colon(key@, c) by {}
        return Err(RecordError::MalformedKey);
    }
    proof {
        assert(first_colon(key@, at as int));
        let chosen = choose|c: int| first_colon(key@, c);
        assert(chosen == at) by {
            if chosen < at {
                assert(key@[chosen] != 0x3a);
            } else if chosen > at {
                assert(key@[at as int] != 0x3a);
            }
        }
    }
    let signer_text = vstd::slice::slice_subrange(key, 0, at);
    let receiver_text = vstd::slice::slice_subrange(key, at + 1, key.len());
    proof {
        assert(signer_text@ =~= key@.take(at as int));
        assert(receiver_text@ =~= key@.skip(at + 1));
    }
    let signer = match parse_address(signer_text) {
        None => {
            return Err(RecordError::BadSigner);
        },
        Some(a) => a,
    };
    let receiver = match parse_address(receiver_text) {
        None => {
            return Err(RecordError::BadReceiver);
        },
        Some(a) => a,
    };
    let value = match parse_amount(payload) {
        None => {
            return Err(RecordError::BadValue);
        },
        Some(v) => v,
    };
    Ok(Record { signer, receiver, value })
}

/// The book of vouchers after `record` has been seen: a voucher of a
/// signer that is not authorized changes nothing; any other is entered for
/// its receiver if the book holds none, or a smaller one, for that
/// receiver.
pub open spec fn entered(book: Map<Address, u128>, record: Record, signers: Seq<Address>) -> Map<
    Address,
    u128,
> {
    if !listed(signers, record.signer) {
        book
    } else if book.contains_key(record.receiver) && book[record.receiver] >= record.value {
        book
    } else {
        book.insert(record.receiver, record.value)
    }
}

/// Enters a voucher in the book, and says whether that changed the book.
pub fn enter_record(book: &mut SortedMap<Address, u128>, record: &Record, signers: &Vec<Address>) -> (changed:
    bool)
    requires
        old(book).wf(),
    ensures
        final(book).wf(),
        final(book).map() == entered(old(book).map(), *record, signers@),
        changed == (final(book).map() != old(book).map()),
{
    if !is_listed(signers, &record.signer) {
        return false;
    }
    let known = match book.get(&record.receiver) {
        Some(value) => *value >= record.value,
        None => false,
    };
    if known {
        return false;
    }
    let ghost before = book.map();
    book.insert(record.receiver, record.value);
    proof {
        assert(book.map().contains_key(record.receiver));
        assert(book.map()[record.receiver] == record.value);
        if before.contains_key(record.receiver) {
            assert(before[record.receiver] != record.value);
        }
    }
    true
}

} // verus!
