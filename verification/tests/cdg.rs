use qaraoke::cdg::{packet_from, CdgHeader, Compression, FrameError, OggCdgCoder, PacketType};

#[test]
fn packet_type_of_each_byte() {
    assert_eq!(PacketType::from_u8(0), PacketType::Command);
    assert_eq!(PacketType::from_u8(1), PacketType::Keyframe);
    assert_eq!(PacketType::from_u8(2), PacketType::Other(2));
    assert_eq!(PacketType::from_u8(255), PacketType::Other(255));
}

#[test]
fn byte_of_each_packet_type() {
    assert_eq!(PacketType::Command.to_u8(), 0);
    assert_eq!(PacketType::Keyframe.to_u8(), 1);
    assert_eq!(PacketType::Other(9).to_u8(), 9);
    assert_eq!(PacketType::Other(0).to_u8(), 0);
}

#[test]
fn every_byte_survives_the_round_trip() {
    for v in 0..=255u8 {
        assert_eq!(PacketType::from_u8(v).to_u8(), v);
    }
    assert_eq!(PacketType::from_u8(PacketType::Other(1).to_u8()), PacketType::Keyframe);
}

#[test]
fn compression_codes() {
    assert_eq!(Compression::Uncompressed.code(), 0);
    assert_eq!(Compression::LZ4.code(), 1);
}

#[test]
fn default_header() {
    let header = CdgHeader::new();
    assert_eq!(header.compression, Compression::LZ4);
    assert_eq!(header.sectors_per_packet, 75);
    assert_eq!(header.to_bytes(), vec![79, 103, 103, 67, 68, 71, 0, 0, 0, 0, 1, 74]);
    assert_eq!(header.to_bytes(), b"OggCDG\0\0\0\0\x01\x4a".to_vec());
}

#[test]
fn header_caps_the_sector_count() {
    let header = CdgHeader { compression: Compression::Uncompressed, sectors_per_packet: 1 };
    assert_eq!(header.to_bytes()[10..], [0, 0]);
    let header = CdgHeader { compression: Compression::Uncompressed, sectors_per_packet: 256 };
    assert_eq!(header.to_bytes()[10..], [0, 255]);
    let header = CdgHeader { compression: Compression::LZ4, sectors_per_packet: 5000 };
    assert_eq!(header.to_bytes()[10..], [1, 255]);
}

#[test]
fn header_is_read_back() {
    for spp in [1usize, 2, 75, 255, 256] {
        for compression in [Compression::Uncompressed, Compression::LZ4] {
            let header = CdgHeader { compression, sectors_per_packet: spp };
            let back = CdgHeader::from_bytes(&header.to_bytes()).unwrap();
            assert_eq!(back.compression, compression);
            assert_eq!(back.sectors_per_packet, spp);
        }
    }
}

#[test]
fn header_with_a_wrong_magic_is_refused() {
    let good = CdgHeader::new().to_bytes();
    for i in 0..9 {
        let mut bad = good.clone();
        bad[i] ^= 1;
        assert!(CdgHeader::from_bytes(&bad).is_none());
    }
}

#[test]
fn header_ignores_the_minor_version_and_what_follows() {
    let mut bytes = CdgHeader::new().to_bytes();
    bytes[9] = 200;
    bytes.push(1);
    bytes.push(2);
    let header = CdgHeader::from_bytes(&bytes).unwrap();
    assert_eq!(header.compression, Compression::LZ4);
    assert_eq!(header.sectors_per_packet, 75);
}

#[test]
fn header_with_an_unknown_compression_is_refused() {
    let mut bytes = CdgHeader::new().to_bytes();
    bytes[10] = 2;
    assert!(CdgHeader::from_bytes(&bytes).is_none());
    bytes[10] = 255;
    assert!(CdgHeader::from_bytes(&bytes).is_none());
    bytes[10] = 0;
    assert_eq!(CdgHeader::from_bytes(&bytes).unwrap().compression, Compression::Uncompressed);
}

#[test]
fn uncompressed_packet_is_its_payload() {
    let header = CdgHeader { compression: Compression::Uncompressed, sectors_per_packet: 75 };
    let (typ, data) = header.decode_packet(&[1, 3, 10, 20, 30]).unwrap();
    assert_eq!(typ, PacketType::Keyframe);
    assert_eq!(data, vec![10, 20, 30]);
    let (typ, data) = header.decode_packet(&[7, 0]).unwrap();
    assert_eq!(typ, PacketType::Other(7));
    assert!(data.is_empty());
}

#[test]
fn broken_lz4_packet_is_no_packet() {
    let header = CdgHeader::new();
    assert!(header.decode_packet(&[0, 1, 1, 2, 3, 4, 5, 6, 7, 8, 9, 10, 11, 12]).is_none());
}

#[test]
fn packet_from_payload() {
    assert_eq!(packet_from(0, Ok(vec![1, 2])), Some((PacketType::Command, vec![1, 2])));
    assert_eq!(packet_from(5, Ok(vec![])), Some((PacketType::Other(5), vec![])));
    let failed = Err(std::io::Error::new(std::io::ErrorKind::InvalidData, "bad frame"));
    assert_eq!(packet_from(0, failed), None);
}

#[test]
fn coder_starts_at_sector_zero() {
    let coder = OggCdgCoder::new("source");
    assert_eq!(coder.frame_limit(), 75 * 96);
    assert_eq!(coder.headers(), vec![b"OggCDG\0\0\0\0\x01\x4a".to_vec()]);
    assert_eq!(coder.into_reader(), "source");
}

#[test]
fn coder_hands_out_its_source() {
    let mut coder = OggCdgCoder::new(vec![1u8, 2]);
    coder.reader_mut().push(3);
    assert_eq!(coder.into_reader(), vec![1, 2, 3]);
}

#[test]
fn coder_header_is_a_stream_header() {
    let coder = OggCdgCoder::new(());
    let header = CdgHeader::from_bytes(&coder.headers()[0]).unwrap();
    assert_eq!(header.compression, Compression::LZ4);
    assert_eq!(header.sectors_per_packet, 75);
}

#[test]
fn end_of_input_is_no_frame() {
    let mut coder = OggCdgCoder::new(());
    assert!(matches!(coder.encode_frame(&[]), Ok(None)));
}

#[test]
fn incomplete_sector_is_an_error() {
    let mut coder = OggCdgCoder::new(());
    assert!(matches!(coder.encode_frame(&[0; 95]), Err(FrameError::IncompleteSector)));
    assert!(matches!(coder.encode_frame(&[0; 97]), Err(FrameError::IncompleteSector)));
    // Nothing was counted.
    let packet = coder.encode_frame(&[0; 96]).unwrap().unwrap();
    assert_eq!(packet.timestamp, 1 << 32);
}

#[test]
fn frame_is_a_packet_that_decodes_to_its_sectors() {
    let mut coder = OggCdgCoder::new(());
    let sectors: Vec<u8> = (0..3 * 96).map(|i| (i * 7 % 256) as u8).collect();
    let packet = coder.encode_frame(&sectors).unwrap().unwrap();
    assert_eq!(packet.content[0], 0);
    assert_eq!(packet.content[1], 3);
    // An LZ4 frame starts with its magic number.
    assert_eq!(packet.content[2..6], [0x04, 0x22, 0x4d, 0x18]);
    assert_eq!(packet.timestamp, 3 << 32);
    let (typ, data) = CdgHeader::new().decode_packet(&packet.content).unwrap();
    assert_eq!(typ, PacketType::Command);
    assert_eq!(data, sectors);
}

#[test]
fn frames_are_counted() {
    let mut coder = OggCdgCoder::new(());
    let first = coder.encode_frame(&[1; 75 * 96]).unwrap().unwrap();
    assert_eq!(first.content[1], 75);
    assert_eq!(first.timestamp, 75 << 32);
    let second = coder.encode_frame(&[2; 10 * 96]).unwrap().unwrap();
    assert_eq!(second.content[1], 10);
    assert_eq!(second.timestamp, 85 << 32);
    assert_eq!(coder.map_granule(second.timestamp), 1_133_333);
}

#[test]
fn finish_frame_counts_only_what_was_compressed() {
    let mut coder = OggCdgCoder::new(());
    let failed = Err(std::io::Error::new(std::io::ErrorKind::Other, "no memory"));
    assert!(matches!(coder.finish_frame(5, failed), Err(FrameError::Codec(_))));
    let packet = coder.finish_frame(5, Ok(vec![0, 5, 9])).unwrap().unwrap();
    assert_eq!(packet.content, vec![0, 5, 9]);
    assert_eq!(packet.timestamp, 5 << 32);
    let packet = coder.finish_frame(2, Ok(vec![0, 2])).unwrap().unwrap();
    assert_eq!(packet.timestamp, 7 << 32);
}

#[test]
fn positions_map_to_microseconds() {
    let coder = OggCdgCoder::new(());
    assert_eq!(coder.map_granule(0), 0);
    assert_eq!(coder.map_granule(75 << 32), 1_000_000);
    assert_eq!(coder.map_granule((75 << 32) | 0xffff_ffff), 1_000_000);
    assert_eq!(coder.map_granule(1 << 32), 13_333);
    assert_eq!(coder.map_granule(u64::MAX), 0xffff_ffffu64 * 1_000_000 / 75);
}
