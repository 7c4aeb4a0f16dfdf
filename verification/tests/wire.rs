use prost::encoding::{decode_key, decode_varint, encode_varint, skip_field as prost_skip, DecodeContext, WireType};
use tap_escrow_manager::wire::{
    read_fixed64, read_key, read_span, read_varint, skip_field, DecodeError, RECURSION_LIMIT,
    WIRE_BYTES, WIRE_END_GROUP, WIRE_FIXED32, WIRE_FIXED64, WIRE_START_GROUP, WIRE_VARINT,
};

fn prost_wire(wire: u8) -> WireType {
    match wire {
        0 => WireType::Varint,
        1 => WireType::SixtyFourBit,
        2 => WireType::LengthDelimited,
        3 => WireType::StartGroup,
        4 => WireType::EndGroup,
        _ => WireType::ThirtyTwoBit,
    }
}

#[test]
fn varint_values() {
    assert_eq!(read_varint(&[0x00], 0), Some((0, 1)));
    assert_eq!(read_varint(&[0x01], 0), Some((1, 1)));
    assert_eq!(read_varint(&[0x7f], 0), Some((127, 1)));
    assert_eq!(read_varint(&[0x80, 0x01], 0), Some((128, 2)));
    assert_eq!(read_varint(&[0xac, 0x02], 0), Some((300, 2)));
    assert_eq!(read_varint(&[0xff, 0xac, 0x02, 0xff], 1), Some((300, 3)));
    // a longer spelling of a small number is accepted
    assert_eq!(read_varint(&[0x80, 0x00], 0), Some((0, 2)));
    let max = [0xff, 0xff, 0xff, 0xff, 0xff, 0xff, 0xff, 0xff, 0xff, 0x01];
    assert_eq!(read_varint(&max, 0), Some((u64::MAX, 10)));
    let top = [0x80, 0x80, 0x80, 0x80, 0x80, 0x80, 0x80, 0x80, 0x80, 0x01];
    assert_eq!(read_varint(&top, 0), Some((1 << 63, 10)));
}

#[test]
fn varint_errors() {
    assert_eq!(read_varint(&[], 0), None);
    assert_eq!(read_varint(&[0x01], 1), None);
    assert_eq!(read_varint(&[0x80], 0), None);
    assert_eq!(read_varint(&[0xff, 0xff], 0), None);
    // the tenth byte may only be 0 or 1
    let over = [0xff, 0xff, 0xff, 0xff, 0xff, 0xff, 0xff, 0xff, 0xff, 0x02];
    assert_eq!(read_varint(&over, 0), None);
    let eleven = [0x80, 0x80, 0x80, 0x80, 0x80, 0x80, 0x80, 0x80, 0x80, 0x80, 0x01];
    assert_eq!(read_varint(&eleven, 0), None);
}

#[test]
fn varint_agrees_with_prost_on_encoded_numbers() {
    let mut value: u64 = 1;
    for round in 0..200u64 {
        for probe in [value, value.wrapping_sub(1), value.wrapping_add(round)] {
            let mut buf: Vec<u8> = Vec::new();
            encode_varint(probe, &mut buf);
            buf.push(0xaa);
            assert_eq!(read_varint(&buf, 0), Some((probe, buf.len() - 1)));
        }
        value = value.wrapping_mul(6364136223846793005).wrapping_add(1442695040888963407);
    }
}

#[test]
fn varint_agrees_with_prost_on_arbitrary_bytes() {
    let mut state: u64 = 0x9e3779b97f4a7c15;
    for _ in 0..2000 {
        let mut buf: Vec<u8> = Vec::new();
        state = state.wrapping_mul(6364136223846793005).wrapping_add(1442695040888963407);
        let len = (state >> 60) as usize;
        for _ in 0..len {
            state = state.wrapping_mul(6364136223846793005).wrapping_add(1442695040888963407);
            // mostly continuation bytes, so that long varints occur
            let byte = (state >> 33) as u8;
            buf.push(if (state >> 41) % 4 == 0 { byte & 0x7f } else { byte | 0x80 });
        }
        let mut rest: &[u8] = &buf;
        let theirs = decode_varint(&mut rest).ok().map(|v| (v, buf.len() - rest.len()));
        assert_eq!(read_varint(&buf, 0), theirs);
    }
}

#[test]
fn key_values() {
    assert_eq!(read_key(&[0x0a], 0), Ok((1, WIRE_BYTES, 1)));
    assert_eq!(read_key(&[0x19], 0), Ok((3, WIRE_FIXED64, 1)));
    assert_eq!(read_key(&[0x08], 0), Ok((1, WIRE_VARINT, 1)));
    assert_eq!(read_key(&[0x2b], 0), Ok((5, WIRE_START_GROUP, 1)));
    assert_eq!(read_key(&[0x2c], 0), Ok((5, WIRE_END_GROUP, 1)));
    assert_eq!(read_key(&[0x2d], 0), Ok((5, WIRE_FIXED32, 1)));
    assert_eq!(read_key(&[0xfa, 0xff, 0xff, 0xff, 0x0f], 0), Ok(((1 << 29) - 1, 2, 5)));
}

#[test]
fn key_errors() {
    assert_eq!(read_key(&[], 0), Err(DecodeError::InvalidVarint));
    assert_eq!(read_key(&[0x80], 0), Err(DecodeError::InvalidVarint));
    // field number zero
    assert_eq!(read_key(&[0x02], 0), Err(DecodeError::InvalidKey));
    // wire types 6 and 7
    assert_eq!(read_key(&[0x0e], 0), Err(DecodeError::InvalidKey));
    assert_eq!(read_key(&[0x0f], 0), Err(DecodeError::InvalidKey));
    // more than 32 bits
    assert_eq!(read_key(&[0x8a, 0x80, 0x80, 0x80, 0x10], 0), Err(DecodeError::InvalidKey));
}

#[test]
fn key_agrees_with_prost() {
    let mut state: u64 = 7;
    for _ in 0..2000 {
        state = state.wrapping_mul(6364136223846793005).wrapping_add(1442695040888963407);
        let key = if state % 3 == 0 { state >> 30 } else { (state >> 40) % 4096 };
        let mut buf: Vec<u8> = Vec::new();
        encode_varint(key, &mut buf);
        let mut rest: &[u8] = &buf;
        let theirs = decode_key(&mut rest).ok();
        let ours = read_key(&buf, 0).ok();
        assert_eq!(ours.is_some(), theirs.is_some());
        if let (Some((tag, wire, end)), Some((their_tag, their_wire))) = (ours, theirs) {
            assert_eq!(tag, their_tag);
            assert_eq!(prost_wire(wire), their_wire);
            assert_eq!(end, buf.len());
        }
    }
}

#[test]
fn span_and_fixed64() {
    assert_eq!(read_span(&[0x03, 1, 2, 3], 0), Ok((1, 4)));
    assert_eq!(read_span(&[0x00], 0), Ok((1, 1)));
    assert_eq!(read_span(&[0x04, 1, 2, 3], 0), Err(DecodeError::BufferUnderflow));
    assert_eq!(read_span(&[], 0), Err(DecodeError::InvalidVarint));
    assert_eq!(
        read_span(&[0xff, 0xff, 0xff, 0xff, 0xff, 0xff, 0xff, 0xff, 0xff, 0x01], 0),
        Err(DecodeError::BufferUnderflow)
    );
    assert_eq!(
        read_fixed64(&[0xff, 0x01, 0x02, 0x03, 0x04, 0x05, 0x06, 0x07, 0x08], 1),
        Ok(0x0807_0605_0403_0201)
    );
    assert_eq!(read_fixed64(&[0xff; 8], 0), Ok(u64::MAX));
    assert_eq!(read_fixed64(&[0; 7], 0), Err(DecodeError::BufferUnderflow));
    assert_eq!(read_fixed64(&[0; 8], 1), Err(DecodeError::BufferUnderflow));
}

#[test]
fn skip_each_wire_type() {
    assert_eq!(skip_field(&[0xac, 0x02, 9], 0, WIRE_VARINT, 7, RECURSION_LIMIT), Ok(2));
    assert_eq!(skip_field(&[0; 9], 1, WIRE_FIXED64, 7, RECURSION_LIMIT), Ok(9));
    assert_eq!(skip_field(&[2, 0, 0, 9], 0, WIRE_BYTES, 7, RECURSION_LIMIT), Ok(3));
    assert_eq!(skip_field(&[0; 5], 0, WIRE_FIXED32, 7, RECURSION_LIMIT), Ok(4));
    // a group of field 7 that holds a varint of field 1, then ends
    assert_eq!(skip_field(&[0x08, 0x05, 0x3c, 9], 0, WIRE_START_GROUP, 7, RECURSION_LIMIT), Ok(3));
}

#[test]
fn skip_errors() {
    assert_eq!(
        skip_field(&[0x80], 0, WIRE_VARINT, 7, RECURSION_LIMIT),
        Err(DecodeError::InvalidVarint)
    );
    assert_eq!(
        skip_field(&[0; 7], 0, WIRE_FIXED64, 7, RECURSION_LIMIT),
        Err(DecodeError::BufferUnderflow)
    );
    assert_eq!(
        skip_field(&[0; 3], 0, WIRE_FIXED32, 7, RECURSION_LIMIT),
        Err(DecodeError::BufferUnderflow)
    );
    assert_eq!(
        skip_field(&[5, 0], 0, WIRE_BYTES, 7, RECURSION_LIMIT),
        Err(DecodeError::BufferUnderflow)
    );
    assert_eq!(
        skip_field(&[], 0, WIRE_END_GROUP, 7, RECURSION_LIMIT),
        Err(DecodeError::UnexpectedEndGroup)
    );
    // the group of field 7 is ended as field 6
    assert_eq!(
        skip_field(&[0x34], 0, WIRE_START_GROUP, 7, RECURSION_LIMIT),
        Err(DecodeError::UnexpectedEndGroup)
    );
    // the group never ends
    assert_eq!(
        skip_field(&[0x08, 0x05], 0, WIRE_START_GROUP, 7, RECURSION_LIMIT),
        Err(DecodeError::InvalidVarint)
    );
    assert_eq!(skip_field(&[0], 0, WIRE_VARINT, 7, 0), Err(DecodeError::RecursionLimit));
}

#[test]
fn skip_follows_groups_a_hundred_deep_as_prost_does() {
    for depth in [1usize, 2, 99, 100, 101, 150] {
        // `depth` groups of field 5, one inside the other
        let mut buf: Vec<u8> = vec![0x2b; depth - 1];
        buf.extend(vec![0x2c; depth]);
        let ours = skip_field(&buf, 0, WIRE_START_GROUP, 5, RECURSION_LIMIT);
        let mut rest: &[u8] = &buf;
        let theirs = prost_skip(WireType::StartGroup, 5, &mut rest, DecodeContext::default());
        assert_eq!(ours.is_ok(), theirs.is_ok());
        if depth <= 100 {
            assert_eq!(ours, Ok(buf.len()));
        } else {
            assert_eq!(ours, Err(DecodeError::RecursionLimit));
        }
    }
}
