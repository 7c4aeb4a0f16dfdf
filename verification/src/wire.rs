//! The pieces of the Protocol Buffers wire format that the fee records are
//! built from: varints, field keys, length-delimited spans, fixed 64-bit
//! words, and the skipping of fields that a reader does not know.

use vstd::prelude::*;

verus! {

/// Why a payload could not be read.
#[derive(Clone, Copy, Debug, PartialEq, Eq, Structural)]
pub enum DecodeError {
    /// A varint ends with the payload, runs past ten bytes, or does not fit
    /// in 64 bits.
    InvalidVarint,
    /// A field key does not fit in 32 bits, names no wire type, or has the
    /// field number zero.
    InvalidKey,
    /// A known field comes with another wire type than its own.
    WireTypeMismatch,
    /// A value is said to be longer than what is left of the payload.
    BufferUnderflow,
    /// A group ends that was not begun, or under another field number.
    UnexpectedEndGroup,
    /// Groups are nested deeper than a reader follows them.
    RecursionLimit,
}

/// The wire type of a varint.
pub const WIRE_VARINT: u8 = 0;

/// The wire type of a fixed 64-bit word.
pub const WIRE_FIXED64: u8 = 1;

/// The wire type of a length-delimited span.
pub const WIRE_BYTES: u8 = 2;

/// The wire type that begins a group.
pub const WIRE_START_GROUP: u8 = 3;

/// The wire type that ends a group.
pub const WIRE_END_GROUP: u8 = 4;

/// The wire type of a fixed 32-bit word.
pub const WIRE_FIXED32: u8 = 5;

/// How deep a reader follows nested messages and groups.
pub const RECURSION_LIMIT: u32 = 100;

/// The weight of the `k`-th byte of a varint: 128 to the power `k`.
pub open spec fn weight(k: int) -> int
    decreases k,
{
    if k <= 0 {
        1
    } else {
        128 * weight(k - 1)
    }
}

/// The varint of which `k` bytes, worth `acc`, have been read at `pos`: its
/// value and the position after it. Each byte gives its low seven bits, the
/// least significant first; the first byte below 128 is the last. The tenth
/// byte may only be 0 or 1.
pub open spec fn varint_from(s: Seq<u8>, pos: int, k: int, acc: int) -> Option<(int, int)>
    decreases 10 - k,
{
    if k < 0 || k >= 10 || pos + k >= s.len() || pos < 0 {
        None
    } else if s[pos + k] < 128 {
        if k == 9 && s[pos + k] >= 2 {
            None
        } else {
            Some((acc + s[pos + k] * weight(k), pos + k + 1))
        }
    } else {
        varint_from(s, pos, k + 1, acc + (s[pos + k] - 128) * weight(k))
    }
}

/// The varint at `pos`: its value and the position after it.
pub open spec fn varint(s: Seq<u8>, pos: int) -> Option<(int, int)> {
    varint_from(s, pos, 0, 0)
}

proof fn lemma_weights()
    ensures
        weight(0) == 1,
        weight(1) == 0x80,
        weight(2) == 0x4000,
        weight(3) == 0x20_0000,
        weight(4) == 0x1000_0000,
        weight(5) == 0x8_0000_0000,
        weight(6) == 0x400_0000_0000,
        weight(7) == 0x2_0000_0000_0000,
        weight(8) == 0x100_0000_0000_0000,
        weight(9) == 0x8000_0000_0000_0000,
{
    reveal_with_fuel(weight, 11);
}

proof fn lemma_weight_bound(k: int)
    requires
        0 <= k <= 9,
    ensures
        1 <= weight(k) <= 0x8000_0000_0000_0000,
        k <= 8 ==> weight(k) <= 0x100_0000_0000_0000,
        weight(k + 1) == 128 * weight(k),
{
    lemma_weights();
    if k == 0 {
    } else if k == 1 {
    } else if k == 2 {
    } else if k == 3 {
    } else if k == 4 {
    } else if k == 5 {
    } else if k == 6 {
    } else if k == 7 {
    } else if k == 8 {
    } else {
    }
}

/// Reads the varint at `pos`.
pub fn read_varint(buf: &[u8], pos: usize) -> (r: Option<(u64, usize)>)
    requires
        pos <= buf@.len(),
    ensures
        match r {
            Some((value, end)) => varint(buf@, pos as int) == Some((value as int, end as int))
                && pos < end <= buf@.len(),
            None => varint(buf@, pos as int) is None,
        },
{
    let len: usize = buf.len();
    let mut k: usize = 0;
    let mut acc: u64 = 0;
    let mut scale: u64 = 1;
    proof {
        lemma_weights();
    }
    while k < 10
        invariant
            k <= 10,
            len == buf@.len(),
            pos <= len,
            k < 10 ==> scale == weight(k as int),
            k < 10 ==> acc < scale,
            varint_from(buf@, pos as int, k as int, acc as int) == varint(buf@, pos as int),
        decreases 10 - k,
    {
        if k >= len - pos {
            return None;
        }
        let byte: u8 = buf[pos + k];
        proof {
            lemma_weight_bound(k as int);
        }
        if byte < 128 {
            if k == 9 && byte >= 2 {
                return None;
            }
            assert(acc + byte * scale <= u64::MAX) by (nonlinear_arith)
                requires
                    acc < scale,
                    scale <= 0x8000_0000_0000_0000,
                    k <= 8 ==> scale <= 0x100_0000_0000_0000,
                    k == 9 ==> byte < 2,
                    byte < 128,
                    k <= 9,
            ;
            return Some((acc + (byte as u64) * scale, pos + k + 1));
        }
        if k == 9 {
            assert(varint_from(buf@, pos as int, 10, acc + (byte - 128) * weight(9)) is None);
            return None;
        }
        assert(acc + (byte - 128) * scale < 128 * scale) by (nonlinear_arith)
            requires
                acc < scale,
                128 <= byte < 256,
        ;
        acc = acc + ((byte - 128) as u64) * scale;
        scale = scale * 128;
        k += 1;
    }
    None
}

/// The key of the field at `pos`: the field's number, its wire type, and the
/// position after the key.
pub open spec fn key_at(s: Seq<u8>, pos: int) -> Result<(u32, u8, int), DecodeError> {
    match varint(s, pos) {
        None => Err(DecodeError::InvalidVarint),
        Some((key, end)) => {
            if key > u32::MAX || key % 8 > 5 || key / 8 == 0 {
                Err(DecodeError::InvalidKey)
            } else {
                Ok(((key / 8) as u32, (key % 8) as u8, end))
            }
        },
    }
}

/// Reads the key of the field at `pos`.
pub fn read_key(buf: &[u8], pos: usize) -> (r: Result<(u32, u8, usize), DecodeError>)
    requires
        pos <= buf@.len(),
    ensures
        match r {
            Ok((tag, wire, end)) => key_at(buf@, pos as int) == Ok::<_, DecodeError>(
                (tag, wire, end as int),
            ) && pos < end <= buf@.len() && tag >= 1 && wire <= 5,
            Err(e) => key_at(buf@, pos as int) == Err::<(u32, u8, int), _>(e),
        },
{
    match read_varint(buf, pos) {
        None => Err(DecodeError::InvalidVarint),
        Some((key, end)) => {
            if key > 0xffff_ffff || key % 8 > 5 || key / 8 == 0 {
                Err(DecodeError::InvalidKey)
            } else {
                Ok(((key / 8) as u32, (key % 8) as u8, end))
            }
        },
    }
}

/// The length-delimited span at `pos`: where its bytes begin and end.
pub open spec fn span_at(s: Seq<u8>, pos: int) -> Result<(int, int), DecodeError> {
    match varint(s, pos) {
        None => Err(DecodeError::InvalidVarint),
        Some((len, start)) => {
            if len > s.len() - start {
                Err(DecodeError::BufferUnderflow)
            } else {
                Ok((start, start + len))
            }
        },
    }
}

/// Reads the length-delimited span at `pos`.
pub fn read_span(buf: &[u8], pos: usize) -> (r: Result<(usize, usize), DecodeError>)
    requires
        pos <= buf@.len(),
    ensures
        match r {
            Ok((start, end)) => span_at(buf@, pos as int) == Ok::<_, DecodeError>(
                (start as int, end as int),
            ) && pos < start <= end <= buf@.len(),
            Err(e) => span_at(buf@, pos as int) == Err::<(int, int), _>(e),
        },
{
    match read_varint(buf, pos) {
        None => Err(DecodeError::InvalidVarint),
        Some((len, start)) => {
            if len > (buf.len() - start) as u64 {
                Err(DecodeError::BufferUnderflow)
            } else {
                Ok((start, start + len as usize))
            }
        },
    }
}

/// The eight bytes at `pos` as a number, least significant byte first.
pub open spec fn word_at(s: Seq<u8>, pos: int) -> int {
    s[pos] + 0x100 * s[pos + 1] + 0x1_0000 * s[pos + 2] + 0x100_0000 * s[pos + 3] + 0x1_0000_0000
        * s[pos + 4] + 0x100_0000_0000 * s[pos + 5] + 0x1_0000_0000_0000 * s[pos + 6]
        + 0x100_0000_0000_0000 * s[pos + 7]
}

/// The fixed 64-bit word at `pos`.
pub open spec fn fixed64_at(s: Seq<u8>, pos: int) -> Result<u64, DecodeError> {
    if pos + 8 > s.len() {
        Err(DecodeError::BufferUnderflow)
    } else {
        Ok(word_at(s, pos) as u64)
    }
}

/// Reads the fixed 64-bit word at `pos`.
pub fn read_fixed64(buf: &[u8], pos: usize) -> (r: Result<u64, DecodeError>)
    requires
        pos <= buf@.len(),
    ensures
        r == fixed64_at(buf@, pos as int),
{
    if buf.len() - pos < 8 {
        return Err(DecodeError::BufferUnderflow);
    }
    let word: u64 = (buf[pos] as u64) + 0x100 * (buf[pos + 1] as u64) + 0x1_0000 * (buf[pos
        + 2] as u64) + 0x100_0000 * (buf[pos + 3] as u64) + 0x1_0000_0000 * (buf[pos + 4] as u64)
        + 0x100_0000_0000 * (buf[pos + 5] as u64) + 0x1_0000_0000_0000 * (buf[pos + 6] as u64)
        + 0x100_0000_0000_0000 * (buf[pos + 7] as u64);
    Ok(word)
}

/// Where the field that follows a key ends, when the reader has no use for
/// it. `wire` and `tag` are those of the key, `pos` is the position after
/// the key, and `depth` is how many levels of groups may still be entered.
pub open spec fn skip_at(s: Seq<u8>, pos: int, wire: u8, tag: u32, depth: nat) -> Result<
    int,
    DecodeError,
>
    decreases depth, s.len() - pos, 1int,
{
    if depth == 0 {
        Err(DecodeError::RecursionLimit)
    } else if wire == 0 {
        match varint(s, pos) {
            None => Err(DecodeError::InvalidVarint),
            Some((_, end)) => Ok(end),
        }
    } else if wire == 1 {
        if pos + 8 > s.len() {
            Err(DecodeError::BufferUnderflow)
        } else {
            Ok(pos + 8)
        }
    } else if wire == 2 {
        match span_at(s, pos) {
            Err(e) => Err(e),
            Ok((_, end)) => Ok(end),
        }
    } else if wire == 3 {
        skip_group_at(s, pos, tag, depth)
    } else if wire == 5 {
        if pos + 4 > s.len() {
            Err(DecodeError::BufferUnderflow)
        } else {
            Ok(pos + 4)
        }
    } else {
        Err(DecodeError::UnexpectedEndGroup)
    }
}

/// Where the group of field number `tag` ends whose fields begin at `pos`:
/// after the first end-of-group key that is not inside a nested group, which
/// must carry the same field number.
pub open spec fn skip_group_at(s: Seq<u8>, pos: int, tag: u32, depth: nat) -> Result<
    int,
    DecodeError,
>
    decreases depth, s.len() - pos, 0int,
{
    if depth == 0 {
        Err(DecodeError::RecursionLimit)
    } else {
        match key_at(s, pos) {
            Err(e) => Err(e),
            Ok((inner_tag, inner_wire, after_key)) => {
                if inner_wire == 4 {
                    if inner_tag == tag {
                        Ok(after_key)
                    } else {
                        Err(DecodeError::UnexpectedEndGroup)
                    }
                } else {
                    match skip_at(s, after_key, inner_wire, inner_tag, (depth - 1) as nat) {
                        Err(e) => Err(e),
                        Ok(next) => {
                            if pos < next <= s.len() {
                                skip_group_at(s, next, tag, depth)
                            } else {
                                Err(DecodeError::BufferUnderflow)
                            }
                        },
                    }
                }
            },
        }
    }
}

/// Passes over the field that follows a key.
pub fn skip_field(buf: &[u8], pos: usize, wire: u8, tag: u32, depth: u32) -> (r: Result<
    usize,
    DecodeError,
>)
    requires
        pos <= buf@.len(),
    ensures
        match r {
            Ok(end) => skip_at(buf@, pos as int, wire, tag, depth as nat) == Ok::<_, DecodeError>(
                end as int,
            ) && pos <= end <= buf@.len(),
            Err(e) => skip_at(buf@, pos as int, wire, tag, depth as nat) == Err::<int, _>(e),
        },
    decreases depth,
{
    if depth == 0 {
        return Err(DecodeError::RecursionLimit);
    }
    if wire == WIRE_VARINT {
        match read_varint(buf, pos) {
            None => Err(DecodeError::InvalidVarint),
            Some((_, end)) => Ok(end),
        }
    } else if wire == WIRE_FIXED64 {
        if buf.len() - pos < 8 {
            Err(DecodeError::BufferUnderflow)
        } else {
            Ok(pos + 8)
        }
    } else if wire == WIRE_BYTES {
        match read_span(buf, pos) {
            Err(e) => Err(e),
            Ok((_, end)) => Ok(end),
        }
    } else if wire == WIRE_START_GROUP {
        let mut at: usize = pos;
        loop
            invariant
                depth > 0,
                wire == 3,
                pos <= at <= buf@.len(),
                skip_group_at(buf@, at as int, tag, depth as nat) == skip_group_at(
                    buf@,
                    pos as int,
                    tag,
                    depth as nat,
                ),
            decreases buf@.len() - at,
        {
            match read_key(buf, at) {
                Err(e) => {
                    return Err(e);
                },
                Ok((inner_tag, inner_wire, after_key)) => {
                    if inner_wire == WIRE_END_GROUP {
                        if inner_tag == tag {
                            return Ok(after_key);
                        } else {
                            return Err(DecodeError::UnexpectedEndGroup);
                        }
                    }
                    match skip_field(buf, after_key, inner_wire, inner_tag, depth - 1) {
                        Err(e) => {
                            return Err(e);
                        },
                        Ok(next) => {
                            at = next;
                        },
                    }
                },
            }
        }
    } else if wire == WIRE_FIXED32 {
        if buf.len() - pos < 4 {
            Err(DecodeError::BufferUnderflow)
        } else {
            Ok(pos + 4)
        }
    } else {
        Err(DecodeError::UnexpectedEndGroup)
    }
}

} // verus!
