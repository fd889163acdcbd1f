use apk_analyzer::chunk::{ChunkError, ChunkHeader};

#[test]
fn it_returns_data_offset() {
    let chunk = ChunkHeader::new(4000, 8, 16, 0);

    assert_eq!(4008, chunk.get_data_offset());
}

#[test]
fn it_returns_chunk_end() {
    let chunk = ChunkHeader::new(4000, 8, 16, 0);

    assert_eq!(4016, chunk.get_chunk_end());
}

#[test]
fn it_returns_absolute_offsets_from_relative_ones() {
    let chunk = ChunkHeader::new(4000, 8, 500, 0);
    let res = chunk.absolute(490);

    assert_eq!(4490, res);
}

#[test]
fn try_absolute_accepts_the_whole_payload_and_its_end() {
    let chunk = ChunkHeader::new(4000, 8, 500, 0);

    assert_eq!(Ok(4000), chunk.try_absolute(0));
    assert_eq!(Ok(4490), chunk.try_absolute(490));
    // The strict bound permits addressing the first byte past valid content.
    assert_eq!(Ok(4500), chunk.try_absolute(500));
}

#[test]
fn try_absolute_rejects_positions_past_the_chunk_end() {
    let chunk = ChunkHeader::new(4000, 8, 500, 0);

    assert_eq!(Err(ChunkError::OutOfBoundsRead { offset: 510 }), chunk.try_absolute(510));
    assert_eq!(Err(ChunkError::OutOfBoundsRead { offset: 501 }), chunk.try_absolute(501));
}

#[test]
fn read_header_decodes_little_endian_fields() {
    // token 0x0003, header size 8, chunk size 16, then 8 payload bytes.
    let buffer: Vec<u8> = vec![
        0x03, 0x00, 0x08, 0x00, 0x10, 0x00, 0x00, 0x00, 0, 0, 0, 0, 0, 0, 0, 0,
    ];
    let header = ChunkHeader::read_header(&buffer, 0).unwrap();

    assert_eq!(0x0003, header.get_token());
    assert_eq!(0, header.get_offset());
    assert_eq!(8, header.get_header_size());
    assert_eq!(8, header.get_data_offset());
    assert_eq!(16, header.get_chunk_end());
    assert_eq!(16, header.next_chunk());
}

#[test]
fn read_header_reads_at_nonzero_offsets() {
    // Four padding bytes, then a header: token 0x0180, header size 8, size 12.
    let buffer: Vec<u8> = vec![
        0xFF, 0xFF, 0xFF, 0xFF, 0x80, 0x01, 0x08, 0x00, 0x0C, 0x00, 0x00, 0x00, 1, 2, 3, 4,
    ];
    let header = ChunkHeader::read_header(&buffer, 4).unwrap();

    assert_eq!(0x0180, header.get_token());
    assert_eq!(4, header.get_offset());
    assert_eq!(12, header.get_data_offset());
    assert_eq!(16, header.get_chunk_end());
    // The declared payload length round-trips through the derived positions.
    assert_eq!(
        (12 - 8) as u64,
        header.get_chunk_end() - header.get_data_offset()
    );
}

#[test]
fn read_header_rejects_short_buffers() {
    let buffer: Vec<u8> = vec![0x03, 0x00, 0x08, 0x00];

    assert_eq!(
        Err(ChunkError::MalformedHeader { offset: 0 }),
        ChunkHeader::read_header(&buffer, 0)
    );
}

#[test]
fn read_header_rejects_header_larger_than_chunk() {
    // header size 24 but chunk size 16.
    let buffer: Vec<u8> = vec![
        0x03, 0x00, 0x18, 0x00, 0x10, 0x00, 0x00, 0x00, 0, 0, 0, 0, 0, 0, 0, 0,
    ];

    assert_eq!(
        Err(ChunkError::MalformedHeader { offset: 0 }),
        ChunkHeader::read_header(&buffer, 0)
    );
}

#[test]
fn read_header_rejects_chunk_overrunning_buffer() {
    // chunk size 32 but only 16 bytes exist.
    let buffer: Vec<u8> = vec![
        0x03, 0x00, 0x08, 0x00, 0x20, 0x00, 0x00, 0x00, 0, 0, 0, 0, 0, 0, 0, 0,
    ];

    assert_eq!(
        Err(ChunkError::MalformedHeader { offset: 0 }),
        ChunkHeader::read_header(&buffer, 0)
    );
}
