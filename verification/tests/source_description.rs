use rtcp_sdes::octets::Octets;
use rtcp_sdes::rtcp::source_description::{
    get_padding, RtcpSourceDescriptionChunk, RtcpSourceDescriptionItem,
    RtcpSourceDescriptionPacket,
};
use rtcp_sdes::rtcp::RtcpError;

fn item(item_type: u8, data: &[u8]) -> RtcpSourceDescriptionItem {
    RtcpSourceDescriptionItem { item_type, data: data.to_vec() }
}

fn abc_chunk() -> RtcpSourceDescriptionChunk {
    RtcpSourceDescriptionChunk::new(0x12345678, vec![item(1, b"abc")])
}

const ABC_BYTES: [u8; 12] =
    [0x12, 0x34, 0x56, 0x78, 0x01, 0x03, 0x61, 0x62, 0x63, 0x00, 0x00, 0x00];

const BOUNDS: RtcpError = RtcpError::BoundsViolation;

fn encode_chunk(
    chunk: &RtcpSourceDescriptionChunk,
    cap: usize,
) -> (Result<(), RtcpError>, Octets) {
    let mut out = Octets::with_capacity(cap);
    let r = chunk.to_bytes(&mut out);
    (r, out)
}

fn decode_chunk(cursor: &mut Octets) -> Result<RtcpSourceDescriptionChunk, RtcpError> {
    RtcpSourceDescriptionChunk::from_bytes(cursor)
}

#[test]
fn padding_of_lengths_zero_to_eight() {
    let expected: [usize; 9] = [0, 3, 2, 1, 0, 3, 2, 1, 0];
    for n in 0..9 {
        assert_eq!(get_padding(n), expected[n], "padding of {}", n);
    }
}

#[test]
fn padding_rounds_up_to_a_multiple_of_four() {
    for n in 0..1000usize {
        let pad = get_padding(n);
        assert!(pad <= 3);
        assert_eq!((n + pad) % 4, 0);
        assert_eq!(pad == 0, n % 4 == 0);
    }
    assert_eq!(get_padding(usize::MAX), 1);
    assert_eq!(get_padding(usize::MAX - 1), 2);
    assert_eq!(get_padding(usize::MAX - 2), 3);
    assert_eq!(get_padding(usize::MAX - 3), 0);
}

#[test]
fn chunk_with_one_item_encodes_to_twelve_bytes() {
    let chunk = abc_chunk();
    assert_eq!(chunk.get_length(), 12);
    let (r, out) = encode_chunk(&chunk, 12);
    assert_eq!(r, Ok(()));
    assert_eq!(out.off(), 12);
    assert_eq!(out.cap(), 0);
    assert_eq!(out.buf(), &ABC_BYTES[..]);
}

#[test]
fn twelve_bytes_decode_to_the_chunk_with_one_item() {
    let mut bytes = Octets::with_slice(&ABC_BYTES);
    let chunk = RtcpSourceDescriptionChunk::from_bytes(&mut bytes);
    assert_eq!(chunk, Ok(abc_chunk()));
    assert_eq!(bytes.off(), 12);
    assert_eq!(bytes.buf(), &ABC_BYTES[..]);
}

#[test]
fn packet_of_two_chunks() {
    let packet = RtcpSourceDescriptionPacket::new(vec![abc_chunk(), abc_chunk()]);
    assert_eq!(packet.get_chunks_length(), 2);
    assert_eq!(packet.get_length(), 24);

    let mut out = Octets::with_capacity(24);
    assert_eq!(packet.to_bytes(&mut out), Ok(()));
    assert_eq!(out.off(), 24);
    let mut expected = ABC_BYTES.to_vec();
    expected.extend_from_slice(&ABC_BYTES);
    assert_eq!(out.buf(), &expected[..]);

    let mut bytes = Octets::with_slice(out.buf());
    let decoded = RtcpSourceDescriptionPacket::from_bytes(&mut bytes, 2);
    assert_eq!(decoded, Ok(packet));
    assert_eq!(bytes.off(), 24);
}

#[test]
fn packet_decodes_chunks_in_their_order() {
    let first = RtcpSourceDescriptionChunk::new(1, vec![item(1, b"first")]);
    let second = RtcpSourceDescriptionChunk::new(2, vec![item(2, b"second"), item(3, b"")]);
    let third = RtcpSourceDescriptionChunk::new(3, vec![]);
    let packet =
        RtcpSourceDescriptionPacket::new(vec![first.clone(), second.clone(), third.clone()]);
    assert_eq!(packet.get_length(), 12 + 16 + 8);

    let mut out = Octets::with_capacity(36);
    assert_eq!(packet.to_bytes(&mut out), Ok(()));
    let mut bytes = Octets::with_slice(out.buf());
    assert_eq!(RtcpSourceDescriptionChunk::from_bytes(&mut bytes), Ok(first));
    assert_eq!(bytes.off(), 12);
    assert_eq!(RtcpSourceDescriptionChunk::from_bytes(&mut bytes), Ok(second));
    assert_eq!(bytes.off(), 28);
    assert_eq!(RtcpSourceDescriptionChunk::from_bytes(&mut bytes), Ok(third));
    assert_eq!(bytes.off(), 36);
}

#[test]
fn round_trip_of_a_packet() {
    let long: Vec<u8> = (0..255u32).map(|i| (i % 251) as u8).collect();
    let chunks = vec![
        RtcpSourceDescriptionChunk::new(
            0xdead_beef,
            vec![item(1, b"user@host"), item(2, b"A Name")],
        ),
        RtcpSourceDescriptionChunk::new(0, vec![]),
        RtcpSourceDescriptionChunk::new(
            u32::MAX,
            vec![item(255, &long), item(8, b""), item(7, &[0, 0, 0])],
        ),
        RtcpSourceDescriptionChunk::new(7, vec![item(4, b"x"), item(4, b"x")]),
    ];
    let packet = RtcpSourceDescriptionPacket::new(chunks);
    let length = packet.get_length() as usize;
    assert_eq!(length, 24 + 8 + 272 + 12);

    let mut out = Octets::with_capacity(length);
    assert_eq!(packet.to_bytes(&mut out), Ok(()));
    assert_eq!(out.off(), length);

    let mut bytes = Octets::with_slice(out.buf());
    let count = packet.get_chunks_length();
    let decoded = RtcpSourceDescriptionPacket::from_bytes(&mut bytes, count);
    assert_eq!(decoded, Ok(packet));
    assert_eq!(bytes.off(), length);
}

#[test]
fn round_trip_of_255_chunks() {
    let chunks: Vec<RtcpSourceDescriptionChunk> = (0..255u32)
        .map(|i| {
            RtcpSourceDescriptionChunk::new(i, vec![item(1, &vec![i as u8; (i % 7) as usize])])
        })
        .collect();
    let packet = RtcpSourceDescriptionPacket::new(chunks);
    assert_eq!(packet.get_chunks_length(), 255);
    let length = packet.get_length() as usize;
    let mut out = Octets::with_capacity(length);
    assert_eq!(packet.to_bytes(&mut out), Ok(()));
    let mut bytes = Octets::with_slice(out.buf());
    assert_eq!(RtcpSourceDescriptionPacket::from_bytes(&mut bytes, 255), Ok(packet));
    assert_eq!(bytes.off(), length);
}

#[test]
fn length_is_the_number_of_bytes_written_and_a_multiple_of_four() {
    for n in 0..=255usize {
        let chunk = RtcpSourceDescriptionChunk::new(9, vec![item(1, &vec![0xaa; n])]);
        let length = chunk.get_length() as usize;
        assert_eq!(length % 4, 0);
        assert!(4 + 2 + n + 1 <= length && length < 4 + 2 + n + 1 + 4);
        let mut out = Octets::with_capacity(length + 8);
        assert_eq!(chunk.to_bytes(&mut out), Ok(()));
        assert_eq!(out.off(), length);
    }
}

#[test]
fn length_formula_on_given_chunks() {
    assert_eq!(RtcpSourceDescriptionChunk::new(1, vec![]).get_length(), 8);
    assert_eq!(RtcpSourceDescriptionChunk::new(1, vec![item(1, b"")]).get_length(), 8);
    assert_eq!(RtcpSourceDescriptionChunk::new(1, vec![item(1, b"a")]).get_length(), 8);
    assert_eq!(RtcpSourceDescriptionChunk::new(1, vec![item(1, b"ab")]).get_length(), 12);
    assert_eq!(RtcpSourceDescriptionChunk::new(1, vec![item(1, b"abcde")]).get_length(), 12);
    assert_eq!(
        RtcpSourceDescriptionChunk::new(1, vec![item(1, b"abcde"), item(2, b"f")]).get_length(),
        16
    );
    assert_eq!(RtcpSourceDescriptionChunk::new(1, vec![item(1, &[7; 255])]).get_length(), 264);
    assert_eq!(RtcpSourceDescriptionPacket::new(vec![]).get_length(), 0);
}

#[test]
fn chunk_without_items() {
    let chunk = RtcpSourceDescriptionChunk::new(0x0a0b0c0d, vec![]);
    let (r, out) = encode_chunk(&chunk, 8);
    assert_eq!(r, Ok(()));
    assert_eq!(out.buf(), &[0x0a, 0x0b, 0x0c, 0x0d, 0, 0, 0, 0][..]);
    let mut bytes = Octets::with_slice(out.buf());
    assert_eq!(RtcpSourceDescriptionChunk::from_bytes(&mut bytes), Ok(chunk));
    assert_eq!(bytes.off(), 8);
}

#[test]
fn each_padding_length_is_written_as_zero_bytes() {
    // Body lengths 8, 9, 10, 11 need 0, 3, 2, 1 padding bytes.
    let cases: [(&[u8], usize); 4] = [(b"a", 0), (b"ab", 3), (b"abc", 2), (b"abcd", 1)];
    for (data, pad) in cases {
        let chunk = RtcpSourceDescriptionChunk::new(0x01020304, vec![item(5, data)]);
        let body = 4 + 2 + data.len() + 1;
        let mut out = Octets::with_slice(&vec![0xff; body + pad + 2]);
        assert_eq!(chunk.to_bytes(&mut out), Ok(()));
        assert_eq!(out.off(), body + pad);
        let mut expected = vec![1, 2, 3, 4, 5, data.len() as u8];
        expected.extend_from_slice(data);
        expected.extend_from_slice(&vec![0; 1 + pad]);
        expected.extend_from_slice(&[0xff, 0xff]);
        assert_eq!(out.buf(), &expected[..]);
    }
}

#[test]
fn padding_goes_by_the_offset_in_the_buffer() {
    let chunk = abc_chunk();
    let mut out = Octets::with_slice(&[0xee; 16]);
    out.put_u8(0x55).unwrap();
    assert_eq!(chunk.to_bytes(&mut out), Ok(()));
    // One byte before the chunk: its ten body bytes end at offset eleven, one byte of padding.
    assert_eq!(out.off(), 12);
    assert_eq!(chunk.get_length(), 12);
    assert_eq!(
        out.buf(),
        &[
            0x55, 0x12, 0x34, 0x56, 0x78, 0x01, 0x03, 0x61, 0x62, 0x63, 0x00, 0x00, 0xee, 0xee,
            0xee, 0xee
        ][..]
    );

    let mut bytes = Octets::with_slice(out.buf());
    assert_eq!(bytes.get_u8(), Ok(0x55));
    assert_eq!(RtcpSourceDescriptionChunk::from_bytes(&mut bytes), Ok(chunk));
    assert_eq!(bytes.off(), 12);
}

#[test]
fn encode_fails_when_the_chunk_does_not_fit() {
    let chunk = abc_chunk();
    for cap in 0..12 {
        let (r, out) = encode_chunk(&chunk, cap);
        assert_eq!(r, Err(RtcpError::BoundsViolation), "capacity {}", cap);
        // Writes are: 4 (ssrc), 1 (tag), 1 (length), 3 (value), 1 (terminator), 1, 1 (padding).
        let written = match cap {
            0..=3 => 0,
            4 => 4,
            5 => 5,
            6..=8 => 6,
            9 => 9,
            10 => 10,
            _ => 11,
        };
        assert_eq!(out.off(), written, "capacity {}", cap);
        let mut expected = ABC_BYTES[..written].to_vec();
        expected.resize(cap, 0);
        assert_eq!(out.buf(), &expected[..], "capacity {}", cap);
    }
    let (r, _) = encode_chunk(&chunk, 13);
    assert_eq!(r, Ok(()));
}

#[test]
fn encode_of_a_packet_stops_at_the_chunk_that_does_not_fit() {
    let packet = RtcpSourceDescriptionPacket::new(vec![abc_chunk(), abc_chunk()]);
    let mut out = Octets::with_capacity(23);
    assert_eq!(packet.to_bytes(&mut out), Err(RtcpError::BoundsViolation));
    assert_eq!(out.off(), 23);
    let mut expected = ABC_BYTES.to_vec();
    expected.extend_from_slice(&ABC_BYTES[..11]);
    assert_eq!(out.buf(), &expected[..]);

    let mut out = Octets::with_capacity(14);
    assert_eq!(packet.to_bytes(&mut out), Err(RtcpError::BoundsViolation));
    assert_eq!(out.off(), 12);
}

#[test]
fn decode_fails_without_a_terminator() {
    // An identifier and two whole items, then the buffer ends.
    let bytes = [0, 0, 0, 1, 1, 2, b'h', b'i', 2, 1, b'x'];
    let mut cursor = Octets::with_slice(&bytes);
    assert_eq!(decode_chunk(&mut cursor), Err(BOUNDS));
    assert_eq!(cursor.off(), 11);

    // An identifier alone.
    let mut cursor = Octets::with_slice(&[0, 0, 0, 1]);
    assert_eq!(decode_chunk(&mut cursor), Err(BOUNDS));
    assert_eq!(cursor.off(), 4);

    // Zero bytes inside values and as a length are no terminator.
    let bytes = [0, 0, 0, 1, 1, 0, 2, 2, 0, 0];
    let mut cursor = Octets::with_slice(&bytes);
    assert_eq!(decode_chunk(&mut cursor), Err(BOUNDS));
    assert_eq!(cursor.off(), 10);
}

#[test]
fn decode_fails_on_a_tag_without_a_length() {
    let mut cursor = Octets::with_slice(&[0, 0, 0, 1, 9]);
    assert_eq!(decode_chunk(&mut cursor), Err(BOUNDS));
    assert_eq!(cursor.off(), 5);
}

#[test]
fn decode_fails_on_a_truncated_item() {
    // The item declares five bytes and four follow.
    let bytes = [0, 0, 0, 1, 1, 5, b'a', b'b', b'c', b'd'];
    let mut cursor = Octets::with_slice(&bytes);
    assert_eq!(decode_chunk(&mut cursor), Err(BOUNDS));
    assert_eq!(cursor.off(), 6);

    // The same after a whole item, with a terminator among the bytes that follow.
    let bytes = [0, 0, 0, 1, 3, 1, b'z', 1, 200, 0, 0, 0, 0, 0];
    let mut cursor = Octets::with_slice(&bytes);
    assert_eq!(decode_chunk(&mut cursor), Err(BOUNDS));
    assert_eq!(cursor.off(), 9);
}

#[test]
fn decode_fails_on_a_truncated_identifier() {
    for len in 0..4 {
        let mut cursor = Octets::with_slice(&[0x12, 0x34, 0x56][..len]);
        assert_eq!(
            RtcpSourceDescriptionChunk::from_bytes(&mut cursor),
            Err(RtcpError::BoundsViolation)
        );
        assert_eq!(cursor.off(), 0);
    }
}

#[test]
fn decode_fails_on_missing_padding() {
    for len in 10..12 {
        let mut cursor = Octets::with_slice(&ABC_BYTES[..len]);
        assert_eq!(
            RtcpSourceDescriptionChunk::from_bytes(&mut cursor),
            Err(RtcpError::BoundsViolation)
        );
        assert_eq!(cursor.off(), 10);
    }
}

#[test]
fn decode_skips_padding_whatever_it_holds() {
    let mut bytes = ABC_BYTES;
    bytes[10] = 0xaa;
    bytes[11] = 0xbb;
    let mut cursor = Octets::with_slice(&bytes);
    assert_eq!(RtcpSourceDescriptionChunk::from_bytes(&mut cursor), Ok(abc_chunk()));
    assert_eq!(cursor.off(), 12);
}

#[test]
fn decode_stops_at_the_first_terminator_of_an_all_zero_buffer() {
    let mut cursor = Octets::with_slice(&[0; 16]);
    assert_eq!(
        RtcpSourceDescriptionChunk::from_bytes(&mut cursor),
        Ok(RtcpSourceDescriptionChunk::new(0, vec![]))
    );
    assert_eq!(cursor.off(), 8);
    assert_eq!(
        RtcpSourceDescriptionChunk::from_bytes(&mut cursor),
        Ok(RtcpSourceDescriptionChunk::new(0, vec![]))
    );
    assert_eq!(cursor.off(), 16);
    assert_eq!(decode_chunk(&mut cursor), Err(BOUNDS));
}

#[test]
fn decode_reads_an_item_of_255_bytes() {
    let mut bytes = vec![0, 0, 0, 5, 6, 255];
    bytes.extend_from_slice(&[0x42; 255]);
    bytes.extend_from_slice(&[0, 0, 0]);
    assert_eq!(bytes.len(), 264);
    let mut cursor = Octets::with_slice(&bytes);
    assert_eq!(
        RtcpSourceDescriptionChunk::from_bytes(&mut cursor),
        Ok(RtcpSourceDescriptionChunk::new(5, vec![item(6, &[0x42; 255])]))
    );
    assert_eq!(cursor.off(), 264);
}

#[test]
fn packet_decode_fails_as_a_whole() {
    let mut bytes = ABC_BYTES.to_vec();
    bytes.extend_from_slice(&ABC_BYTES[..9]);
    let mut cursor = Octets::with_slice(&bytes);
    assert_eq!(
        RtcpSourceDescriptionPacket::from_bytes(&mut cursor, 2),
        Err(RtcpError::BoundsViolation)
    );
    assert_eq!(cursor.off(), 21);

    // Two chunks are there; a third is asked for.
    let mut bytes = ABC_BYTES.to_vec();
    bytes.extend_from_slice(&ABC_BYTES);
    let mut cursor = Octets::with_slice(&bytes);
    assert_eq!(
        RtcpSourceDescriptionPacket::from_bytes(&mut cursor, 3),
        Err(RtcpError::BoundsViolation)
    );
    assert_eq!(cursor.off(), 24);
}

#[test]
fn packet_decode_reads_no_more_chunks_than_asked() {
    let mut bytes = ABC_BYTES.to_vec();
    bytes.extend_from_slice(&ABC_BYTES);
    let mut cursor = Octets::with_slice(&bytes);
    assert_eq!(
        RtcpSourceDescriptionPacket::from_bytes(&mut cursor, 1),
        Ok(RtcpSourceDescriptionPacket::new(vec![abc_chunk()]))
    );
    assert_eq!(cursor.off(), 12);
}

#[test]
fn packet_without_chunks() {
    let packet = RtcpSourceDescriptionPacket::new(vec![]);
    assert_eq!(packet.get_chunks_length(), 0);
    assert_eq!(packet.get_length(), 0);
    let mut out = Octets::with_capacity(0);
    assert_eq!(packet.to_bytes(&mut out), Ok(()));
    assert_eq!(out.off(), 0);
    let mut cursor = Octets::with_slice(&[1, 2, 3]);
    assert_eq!(RtcpSourceDescriptionPacket::from_bytes(&mut cursor, 0), Ok(packet));
    assert_eq!(cursor.off(), 0);
}

#[test]
fn chunk_count_keeps_the_low_eight_bits() {
    let chunks = |n: usize| -> RtcpSourceDescriptionPacket {
        RtcpSourceDescriptionPacket::new(
            (0..n).map(|i| RtcpSourceDescriptionChunk::new(i as u32, vec![])).collect(),
        )
    };
    assert_eq!(chunks(1).get_chunks_length(), 1);
    assert_eq!(chunks(255).get_chunks_length(), 255);
    assert_eq!(chunks(256).get_chunks_length(), 0);
    assert_eq!(chunks(257).get_chunks_length(), 1);
    assert_eq!(chunks(1000).get_chunks_length(), (1000 % 256) as u8);
}

#[test]
fn a_tag_of_zero_reads_back_as_the_terminator() {
    let chunk = RtcpSourceDescriptionChunk::new(3, vec![item(0, b"ab"), item(1, b"c")]);
    let mut out = Octets::with_capacity(16);
    assert_eq!(chunk.to_bytes(&mut out), Ok(()));
    assert_eq!(out.buf(), &[0, 0, 0, 3, 0, 2, b'a', b'b', 1, 1, b'c', 0, 0, 0, 0, 0][..]);
    let mut cursor = Octets::with_slice(out.buf());
    assert_eq!(
        RtcpSourceDescriptionChunk::from_bytes(&mut cursor),
        Ok(RtcpSourceDescriptionChunk::new(3, vec![]))
    );
    assert_eq!(cursor.off(), 8);
}

#[test]
fn the_two_errors_differ() {
    assert_ne!(RtcpError::BoundsViolation, RtcpError::InvalidPaddingSize);
    assert_eq!(RtcpError::InvalidPaddingSize, RtcpError::InvalidPaddingSize.clone());
}

#[test]
fn equal_values_hash_alike() {
    let mut seen = std::collections::HashSet::new();
    seen.insert(RtcpSourceDescriptionPacket::new(vec![abc_chunk()]));
    assert!(seen.contains(&RtcpSourceDescriptionPacket::new(vec![abc_chunk()])));
    assert!(!seen.contains(&RtcpSourceDescriptionPacket::new(vec![])));
    assert!(!seen.insert(RtcpSourceDescriptionPacket::new(vec![abc_chunk().clone()])));
}

#[test]
fn items_and_chunks_are_equal_by_value() {
    assert_eq!(item(1, b"abc"), item(1, b"abc"));
    assert_eq!(item(0, b""), item(0, b""));
    assert_ne!(item(1, b"abc"), item(2, b"abc"));
    assert_ne!(item(1, b"abc"), item(1, b"abd"));
    assert_ne!(item(1, b"abc"), item(1, b"ab"));
    assert_ne!(item(1, b"abc"), item(1, b"abcd"));
    assert_ne!(item(1, b""), item(1, b"a"));
    let in_order = RtcpSourceDescriptionChunk::new(1, vec![item(1, b"a"), item(2, b"b")]);
    let reversed = RtcpSourceDescriptionChunk::new(1, vec![item(2, b"b"), item(1, b"a")]);
    assert_ne!(in_order, reversed);
    assert_ne!(in_order, RtcpSourceDescriptionChunk::new(1, vec![item(1, b"a")]));
    assert_eq!(in_order.clone(), in_order);
    assert_ne!(
        RtcpSourceDescriptionPacket::new(vec![in_order.clone(), reversed.clone()]),
        RtcpSourceDescriptionPacket::new(vec![reversed, in_order])
    );
    assert_eq!(RtcpSourceDescriptionPacket::new(vec![]), RtcpSourceDescriptionPacket::new(vec![]));
    assert_eq!(abc_chunk(), abc_chunk().clone());
    assert_ne!(abc_chunk(), RtcpSourceDescriptionChunk::new(0x12345679, vec![item(1, b"abc")]));
    assert_ne!(
        RtcpSourceDescriptionPacket::new(vec![abc_chunk()]),
        RtcpSourceDescriptionPacket::new(vec![abc_chunk(), abc_chunk()])
    );
}
