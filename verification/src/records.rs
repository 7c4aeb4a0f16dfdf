//! The two kinds of fee records that arrive over Kafka, and how they are
//! read from a payload.
//!
//! A fee is written as a 64-bit floating-point number of whole tokens. The
//! records keep its eight bytes as they came; turning them into an amount is
//! left to the caller.

use vstd::prelude::*;
use vstd::slice::{slice_subrange, slice_to_vec};
use crate::wire::{
    fixed64_at, key_at, read_fixed64, read_key, read_span, read_varint, skip_at, skip_field,
    span_at, varint, DecodeError, RECURSION_LIMIT, WIRE_BYTES, WIRE_FIXED64, WIRE_VARINT,
};

verus! {

/// The fees that one signer's receipts promise one receiver.
///
/// On the wire: `signer` is field 1 (bytes), `receiver` is field 2 (bytes),
/// and the fee is field 3 (a double).
#[derive(Clone, Debug, PartialEq, Eq)]
pub struct IndexerFeesProtobuf {
    /// The address that signed the receipts; twenty bytes in a sound record.
    pub signer: Vec<u8>,
    /// The address that earned the fees; twenty bytes in a sound record.
    pub receiver: Vec<u8>,
    /// The fee in whole tokens: the bit pattern of the double that came.
    pub fee_grt_bits: u64,
}

/// The fees of one hour.
///
/// On the wire: `timestamp` is field 1 (an int64), and each element of
/// `aggregations` is one field 2 (an embedded message).
#[derive(Clone, Debug, PartialEq, Eq)]
pub struct IndexerFeesHourlyProtobuf {
    /// The start of the hour, in milliseconds since the epoch.
    pub timestamp: i64,
    /// The fees of the hour, by signer and receiver.
    pub aggregations: Vec<IndexerFeesProtobuf>,
}

/// What an `IndexerFeesProtobuf` holds.
pub struct Fees {
    pub signer: Seq<u8>,
    pub receiver: Seq<u8>,
    pub fee_grt_bits: u64,
}

/// What an `IndexerFeesHourlyProtobuf` holds.
pub struct HourlyFees {
    pub timestamp: i64,
    pub aggregations: Seq<Fees>,
}

impl View for IndexerFeesProtobuf {
    type V = Fees;

    open spec fn view(&self) -> Fees {
        Fees { signer: self.signer@, receiver: self.receiver@, fee_grt_bits: self.fee_grt_bits }
    }
}

impl View for IndexerFeesHourlyProtobuf {
    type V = HourlyFees;

    open spec fn view(&self) -> HourlyFees {
        HourlyFees {
            timestamp: self.timestamp,
            aggregations: self.aggregations@.map_values(|m: IndexerFeesProtobuf| m@),
        }
    }
}

/// A record in which no field has been set.
pub open spec fn no_fees() -> Fees {
    Fees { signer: Seq::empty(), receiver: Seq::empty(), fee_grt_bits: 0 }
}

/// An hour in which no field has been set.
pub open spec fn no_hour() -> HourlyFees {
    HourlyFees { timestamp: 0, aggregations: Seq::empty() }
}

/// A 64-bit varint read as a signed number in two's complement.
pub open spec fn as_signed(value: int) -> i64 {
    if value >= 0x8000_0000_0000_0000 {
        (value - 0x1_0000_0000_0000_0000) as i64
    } else {
        value as i64
    }
}

/// The record that the fields of `s` from `pos` on make of `acc`. A field
/// that occurs again replaces what it set before; fields with other numbers
/// are passed over.
pub open spec fn fees_from(s: Seq<u8>, pos: int, acc: Fees, depth: nat) -> Result<
    Fees,
    DecodeError,
>
    decreases s.len() - pos,
{
    if pos < 0 || pos >= s.len() {
        Ok(acc)
    } else {
        match key_at(s, pos) {
            Err(e) => Err(e),
            Ok((tag, wire, after_key)) => {
                if !(pos < after_key <= s.len()) {
                    Err(DecodeError::InvalidVarint)
                } else if tag == 1 || tag == 2 {
                    if wire != 2 {
                        Err(DecodeError::WireTypeMismatch)
                    } else {
                        match span_at(s, after_key) {
                            Err(e) => Err(e),
                            Ok((start, end)) => {
                                if !(after_key <= end <= s.len()) {
                                    Err(DecodeError::BufferUnderflow)
                                } else if tag == 1 {
                                    fees_from(
                                        s,
                                        end,
                                        Fees { signer: s.subrange(start, end), ..acc },
                                        depth,
                                    )
                                } else {
                                    fees_from(
                                        s,
                                        end,
                                        Fees { receiver: s.subrange(start, end), ..acc },
                                        depth,
                                    )
                                }
                            },
                        }
                    }
                } else if tag == 3 {
                    if wire != 1 {
                        Err(DecodeError::WireTypeMismatch)
                    } else {
                        match fixed64_at(s, after_key) {
                            Err(e) => Err(e),
                            Ok(word) => fees_from(
                                s,
                                after_key + 8,
                                Fees { fee_grt_bits: word, ..acc },
                                depth,
                            ),
                        }
                    }
                } else {
                    match skip_at(s, after_key, wire, tag, depth) {
                        Err(e) => Err(e),
                        Ok(end) => {
                            if !(after_key <= end <= s.len()) {
                                Err(DecodeError::BufferUnderflow)
                            } else {
                                fees_from(s, end, acc, depth)
                            }
                        },
                    }
                }
            },
        }
    }
}

/// The record that a payload holds.
pub open spec fn parse_fees(s: Seq<u8>) -> Result<Fees, DecodeError> {
    fees_from(s, 0, no_fees(), 100)
}

/// The hour that the fields of `s` from `pos` on make of `acc`. Each
/// embedded record is read on its own, one level deeper.
pub open spec fn hour_from(s: Seq<u8>, pos: int, acc: HourlyFees) -> Result<
    HourlyFees,
    DecodeError,
>
    decreases s.len() - pos,
{
    if pos < 0 || pos >= s.len() {
        Ok(acc)
    } else {
        match key_at(s, pos) {
            Err(e) => Err(e),
            Ok((tag, wire, after_key)) => {
                if !(pos < after_key <= s.len()) {
                    Err(DecodeError::InvalidVarint)
                } else if tag == 1 {
                    if wire != 0 {
                        Err(DecodeError::WireTypeMismatch)
                    } else {
                        match varint(s, after_key) {
                            None => Err(DecodeError::InvalidVarint),
                            Some((value, end)) => {
                                if !(after_key <= end <= s.len()) {
                                    Err(DecodeError::InvalidVarint)
                                } else {
                                    hour_from(
                                        s,
                                        end,
                                        HourlyFees { timestamp: as_signed(value), ..acc },
                                    )
                                }
                            },
                        }
                    }
                } else if tag == 2 {
                    if wire != 2 {
                        Err(DecodeError::WireTypeMismatch)
                    } else {
                        match span_at(s, after_key) {
                            Err(e) => Err(e),
                            Ok((start, end)) => {
                                if !(after_key <= end <= s.len()) {
                                    Err(DecodeError::BufferUnderflow)
                                } else {
                                    match fees_from(s.subrange(start, end), 0, no_fees(), 99) {
                                        Err(e) => Err(e),
                                        Ok(fees) => hour_from(
                                            s,
                                            end,
                                            HourlyFees {
                                                aggregations: acc.aggregations.push(fees),
                                                ..acc
                                            },
                                        ),
                                    }
                                }
                            },
                        }
                    }
                } else {
                    match skip_at(s, after_key, wire, tag, 100) {
                        Err(e) => Err(e),
                        Ok(end) => {
                            if !(after_key <= end <= s.len()) {
                                Err(DecodeError::BufferUnderflow)
                            } else {
                                hour_from(s, end, acc)
                            }
                        },
                    }
                }
            },
        }
    }
}

/// The hour that a payload holds.
pub open spec fn parse_hour(s: Seq<u8>) -> Result<HourlyFees, DecodeError> {
    hour_from(s, 0, no_hour())
}

fn decode_fees(buf: &[u8], depth: u32) -> (r: Result<IndexerFeesProtobuf, DecodeError>)
    ensures
        match r {
            Ok(m) => fees_from(buf@, 0, no_fees(), depth as nat) == Ok::<_, DecodeError>(m@),
            Err(e) => fees_from(buf@, 0, no_fees(), depth as nat) == Err::<Fees, _>(e),
        },
{
    let mut msg = IndexerFeesProtobuf {
        signer: Vec::new(),
        receiver: Vec::new(),
        fee_grt_bits: 0,
    };
    let mut pos: usize = 0;
    let len: usize = buf.len();
    while pos < len
        invariant
            pos <= len,
            len == buf@.len(),
            fees_from(buf@, pos as int, msg@, depth as nat) == fees_from(
                buf@,
                0,
                no_fees(),
                depth as nat,
            ),
        decreases len - pos,
    {
        let (tag, wire, after_key) = match read_key(buf, pos) {
            Err(e) => {
                return Err(e);
            },
            Ok(key) => key,
        };
        if tag == 1 || tag == 2 {
            if wire != WIRE_BYTES {
                return Err(DecodeError::WireTypeMismatch);
            }
            let (start, end) = match read_span(buf, after_key) {
                Err(e) => {
                    return Err(e);
                },
                Ok(span) => span,
            };
            let bytes = slice_to_vec(slice_subrange(buf, start, end));
            if tag == 1 {
                msg.signer = bytes;
            } else {
                msg.receiver = bytes;
            }
            pos = end;
        } else if tag == 3 {
            if wire != WIRE_FIXED64 {
                return Err(DecodeError::WireTypeMismatch);
            }
            let word = match read_fixed64(buf, after_key) {
                Err(e) => {
                    return Err(e);
                },
                Ok(word) => word,
            };
            msg.fee_grt_bits = word;
            pos = after_key + 8;
        } else {
            let end = match skip_field(buf, after_key, wire, tag, depth) {
                Err(e) => {
                    return Err(e);
                },
                Ok(end) => end,
            };
            pos = end;
        }
    }
    Ok(msg)
}

impl IndexerFeesProtobuf {
    /// Reads a record from a payload. The whole payload is the record.
    pub fn decode(buf: &[u8]) -> (r: Result<IndexerFeesProtobuf, DecodeError>)
        ensures
            match r {
                Ok(m) => parse_fees(buf@) == Ok::<_, DecodeError>(m@),
                Err(e) => parse_fees(buf@) == Err::<Fees, _>(e),
            },
    {
        decode_fees(buf, RECURSION_LIMIT)
    }
}

impl IndexerFeesHourlyProtobuf {
    /// Reads an hour of fees from a payload. The whole payload is the hour.
    pub fn decode(buf: &[u8]) -> (r: Result<IndexerFeesHourlyProtobuf, DecodeError>)
        ensures
            match r {
                Ok(m) => parse_hour(buf@) == Ok::<_, DecodeError>(m@),
                Err(e) => parse_hour(buf@) == Err::<HourlyFees, _>(e),
            },
    {
        let mut msg = IndexerFeesHourlyProtobuf { timestamp: 0, aggregations: Vec::new() };
        let mut pos: usize = 0;
        let len: usize = buf.len();
        proof {
            assert(msg@.aggregations =~= Seq::<Fees>::empty());
        }
        while pos < len
            invariant
                pos <= len,
                len == buf@.len(),
                hour_from(buf@, pos as int, msg@) == hour_from(buf@, 0, no_hour()),
            decreases len - pos,
        {
            let (tag, wire, after_key) = match read_key(buf, pos) {
                Err(e) => {
                    return Err(e);
                },
                Ok(key) => key,
            };
            if tag == 1 {
                if wire != WIRE_VARINT {
                    return Err(DecodeError::WireTypeMismatch);
                }
                let (value, end) = match read_varint(buf, after_key) {
                    None => {
                        return Err(DecodeError::InvalidVarint);
                    },
                    Some(read) => read,
                };
                msg.timestamp = if value >= 0x8000_0000_0000_0000 {
                    -((u64::MAX - value) as i64) - 1
                } else {
                    value as i64
                };
                pos = end;
            } else if tag == 2 {
                if wire != WIRE_BYTES {
                    return Err(DecodeError::WireTypeMismatch);
                }
                let (start, end) = match read_span(buf, after_key) {
                    Err(e) => {
                        return Err(e);
                    },
                    Ok(span) => span,
                };
                let fees = match decode_fees(slice_subrange(buf, start, end), RECURSION_LIMIT - 1) {
                    Err(e) => {
                        return Err(e);
                    },
                    Ok(fees) => fees,
                };
                let ghost before = msg@;
                msg.aggregations.push(fees);
                proof {
                    assert(msg@.aggregations =~= before.aggregations.push(fees@));
                }
                pos = end;
            } else {
                let end = match skip_field(buf, after_key, wire, tag, RECURSION_LIMIT) {
                    Err(e) => {
                        return Err(e);
                    },
                    Ok(end) => end,
                };
                pos = end;
            }
        }
        Ok(msg)
    }
}

} // verus!
