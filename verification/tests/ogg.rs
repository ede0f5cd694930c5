use qaraoke::crc::{crc_compute, CRC_LOOKUP, CRC_POLYNOMIAL};
use qaraoke::ogg::{BitstreamCoder, MuxError, OgkMux, Packet, Page, PageFlags, PagePacker};
use qaraoke::ogg::{PAGE_BOS, PAGE_CTD, PAGE_EOS};

fn packet(len: usize, timestamp: u64) -> Packet {
    Packet { content: (0..len).map(|i| (i % 251) as u8).collect(), timestamp }
}

#[test]
fn checksum_of_known_text() {
    assert_eq!(crc_compute(0, b"123456789"), 0x89a1897f);
}

#[test]
fn checksum_of_nothing_is_the_start_value() {
    assert_eq!(crc_compute(5, b""), 5);
    assert_eq!(crc_compute(0, b""), 0);
}

#[test]
fn checksum_of_one_byte_is_its_table_entry() {
    assert_eq!(crc_compute(0, &[1]), 0x04c11db7);
    assert_eq!(crc_compute(0, &[255]), 0xb1f740b4);
    assert_eq!(CRC_LOOKUP[0], 0);
    assert_eq!(CRC_LOOKUP[1], CRC_POLYNOMIAL);
    assert_eq!(CRC_LOOKUP[2], CRC_POLYNOMIAL << 1);
    assert_eq!(CRC_LOOKUP[128], CRC_LOOKUP[64] << 1);
    assert_eq!(CRC_LOOKUP[129], (CRC_LOOKUP[64] << 1) ^ CRC_POLYNOMIAL);
    assert_eq!(CRC_LOOKUP[255], 0xb1f740b4);
}

#[test]
fn checksum_can_be_continued() {
    let first = crc_compute(0, b"1234");
    assert_eq!(crc_compute(first, b"56789"), crc_compute(0, b"123456789"));
    assert_eq!(crc_compute(1, &[0, 0, 0, 0]), 0x04c11db7);
}

#[test]
fn flags_give_their_header_byte() {
    assert_eq!(PageFlags::empty().bits(), 0);
    assert_eq!(PageFlags { continued: true, first: false, last: false }.bits(), PAGE_CTD);
    assert_eq!(PageFlags { continued: false, first: true, last: false }.bits(), PAGE_BOS);
    assert_eq!(PageFlags { continued: false, first: false, last: true }.bits(), PAGE_EOS);
    assert_eq!(PageFlags { continued: true, first: true, last: true }.bits(), 7);
    assert_eq!(PageFlags { continued: true, first: false, last: true }.bits(), 5);
}

#[test]
fn new_page_is_empty() {
    let page = Page::new(9, 3);
    assert_eq!(page.flags, PageFlags::empty());
    assert_eq!(page.granule_position, u64::MAX);
    assert_eq!(page.stream_serial, 9);
    assert_eq!(page.page_sequence, 3);
    assert!(page.segment_table.is_empty());
    assert!(page.content.is_empty());
    assert_eq!(page.content_size(), 0);
}

#[test]
fn empty_page_is_written_as_a_bare_header() {
    let page = Page::new(1, 0);
    let mut out = Vec::new();
    page.write_to(&mut out);
    assert_eq!(
        out,
        vec![
            79, 103, 103, 83, 0, 0, 255, 255, 255, 255, 255, 255, 255, 255, 1, 0, 0, 0, 0, 0, 0,
            0, 5, 36, 41, 26, 0
        ]
    );
}

#[test]
fn page_is_written_with_little_endian_fields_and_checksum() {
    let mut page = Page::new(0x11223344, 7);
    page.flags.first = true;
    assert_eq!(page.add_packet(&Packet { content: b"hello".to_vec(), timestamp: 0x0102030405060708 }, 0), None);
    let mut out = vec![42];
    page.write_to(&mut out);
    assert_eq!(
        out,
        vec![
            42, 79, 103, 103, 83, 0, 2, 8, 7, 6, 5, 4, 3, 2, 1, 68, 51, 34, 17, 7, 0, 0, 0, 111,
            223, 40, 202, 1, 5, 104, 101, 108, 108, 111
        ]
    );
}

#[test]
fn short_packet_takes_one_segment() {
    let mut page = Page::new(1, 0);
    assert_eq!(page.add_packet(&packet(10, 77), 0), None);
    assert_eq!(page.segment_table, vec![10]);
    assert_eq!(page.content, packet(10, 0).content);
    assert_eq!(page.granule_position, 77);
    assert_eq!(page.flags, PageFlags::empty());
    assert_eq!(page.content_size(), 10);
}

#[test]
fn empty_packet_takes_one_empty_segment() {
    let mut page = Page::new(1, 0);
    assert_eq!(page.add_packet(&packet(0, 5), 0), None);
    assert_eq!(page.segment_table, vec![0]);
    assert!(page.content.is_empty());
    assert_eq!(page.granule_position, 5);
}

#[test]
fn packet_of_a_full_segment_ends_with_an_empty_one() {
    let mut page = Page::new(1, 0);
    assert_eq!(page.add_packet(&packet(255, 1), 0), None);
    assert_eq!(page.segment_table, vec![255, 0]);
    assert_eq!(page.content.len(), 255);
    let mut page = Page::new(1, 0);
    assert_eq!(page.add_packet(&packet(600, 1), 0), None);
    assert_eq!(page.segment_table, vec![255, 255, 90]);
    assert_eq!(page.content, packet(600, 0).content);
    assert_eq!(page.content_size(), 600);
}

#[test]
fn packets_share_a_page() {
    let mut page = Page::new(1, 0);
    assert_eq!(page.add_packet(&packet(3, 10), 0), None);
    assert_eq!(page.add_packet(&packet(300, 20), 0), None);
    assert_eq!(page.segment_table, vec![3, 255, 45]);
    assert_eq!(page.granule_position, 20);
    let mut want = packet(3, 0).content;
    want.extend(packet(300, 0).content);
    assert_eq!(page.content, want);
}

#[test]
fn packet_that_does_not_fit_goes_on_from_where_the_page_ends() {
    let mut page = Page::new(1, 0);
    let big = packet(255 * 255, 9);
    // 255 full segments fill the table; the closing empty segment is left.
    assert_eq!(page.add_packet(&big, 0), Some(255 * 255));
    assert_eq!(page.segment_table, vec![255u8; 255]);
    assert_eq!(page.content, big.content);
    assert_eq!(page.granule_position, u64::MAX);
    assert_eq!(page.flags, PageFlags::empty());
    let mut next = Page::new(1, 1);
    assert_eq!(next.add_packet(&big, 255 * 255), None);
    assert_eq!(next.segment_table, vec![0]);
    assert!(next.content.is_empty());
    assert_eq!(next.granule_position, 9);
    assert_eq!(next.flags, PageFlags { continued: true, first: false, last: false });
}

#[test]
fn full_page_takes_nothing() {
    let mut page = Page::new(1, 0);
    for _ in 0..255 {
        assert_eq!(page.add_packet(&packet(1, 4), 0), None);
    }
    assert_eq!(page.segment_table.len(), 255);
    assert_eq!(page.add_packet(&packet(1, 8), 0), Some(0));
    assert_eq!(page.segment_table.len(), 255);
    assert_eq!(page.granule_position, 4);
    assert_eq!(page.content_size(), 255);
}

#[test]
fn packer_starts_with_the_first_page_of_the_stream() {
    let mut packer = PagePacker::new(5);
    assert!(!packer.is_closed());
    assert!(packer.peek_next().is_none());
    assert!(packer.take_next().is_none());
    packer.emit();
    let page = packer.take_next().unwrap();
    assert_eq!(page.flags, PageFlags { continued: false, first: true, last: false });
    assert_eq!(page.stream_serial, 5);
    assert_eq!(page.page_sequence, 0);
    assert!(packer.take_next().is_none());
}

#[test]
fn packer_numbers_its_pages() {
    let mut packer = PagePacker::new(5);
    packer.add_packet(&packet(10, 1));
    packer.emit();
    packer.add_packet(&packet(20, 2));
    packer.emit();
    packer.add_packet(&packet(30, 3));
    packer.close();
    assert!(packer.is_closed());
    assert_eq!(packer.peek_next().unwrap().page_sequence, 0);
    let pages: Vec<Page> = std::iter::from_fn(|| packer.take_next()).collect();
    assert_eq!(pages.len(), 3);
    for (n, page) in pages.iter().enumerate() {
        assert_eq!(page.page_sequence, n as u32);
        assert_eq!(page.stream_serial, 5);
        assert_eq!(page.granule_position, n as u64 + 1);
        assert_eq!(page.flags.first, n == 0);
        assert_eq!(page.flags.last, n == 2);
        assert!(!page.flags.continued);
        assert_eq!(page.content_size(), 10 * (n + 1));
    }
}

#[test]
fn packer_cuts_a_long_packet_into_pages() {
    let mut packer = PagePacker::new(1);
    let big = packet(2 * 255 * 255 + 100, 42);
    packer.add_packet(&big);
    packer.close();
    let pages: Vec<Page> = std::iter::from_fn(|| packer.take_next()).collect();
    assert_eq!(pages.len(), 3);
    assert_eq!(pages[0].segment_table, vec![255u8; 255]);
    assert_eq!(pages[1].segment_table, vec![255u8; 255]);
    assert_eq!(pages[2].segment_table, vec![100]);
    assert_eq!(pages[0].granule_position, u64::MAX);
    assert_eq!(pages[1].granule_position, u64::MAX);
    assert_eq!(pages[2].granule_position, 42);
    assert_eq!(pages[0].flags, PageFlags { continued: false, first: true, last: false });
    assert_eq!(pages[1].flags, PageFlags { continued: true, first: false, last: false });
    assert_eq!(pages[2].flags, PageFlags { continued: true, first: false, last: true });
    let all: Vec<u8> = pages.iter().flat_map(|p| p.content.iter().copied()).collect();
    assert_eq!(all, big.content);
}

#[test]
fn packer_moves_on_when_its_page_is_full() {
    let mut packer = PagePacker::new(1);
    for n in 0..256u64 {
        packer.add_packet(&packet(1, n));
    }
    let first = packer.take_next().unwrap();
    assert_eq!(first.segment_table.len(), 255);
    assert_eq!(first.granule_position, 254);
    assert!(packer.take_next().is_none());
    packer.close();
    let second = packer.take_next().unwrap();
    assert_eq!(second.segment_table, vec![1]);
    assert_eq!(second.granule_position, 255);
    assert_eq!(second.page_sequence, 1);
    assert!(!second.flags.continued);
    assert!(second.flags.last);
}

#[test]
fn closing_an_empty_stream_emits_one_page() {
    let mut packer = PagePacker::new(3);
    packer.close();
    assert!(packer.is_closed());
    let page = packer.take_next().unwrap();
    assert_eq!(page.flags, PageFlags { continued: false, first: true, last: true });
    assert!(page.segment_table.is_empty());
    packer.emit();
    assert!(packer.take_next().is_none());
}

struct Script {
    headers: Vec<Vec<u8>>,
    frames: Vec<(Vec<u8>, u64)>,
    fail_at: Option<usize>,
    asked: usize,
}

/// A frame of this length fills the segment table of a page exactly.
const PAGE_FILL: usize = 254 * 255 + 10;

impl Script {
    fn new(headers: usize, stamps: &[u64]) -> Box<Script> {
        Script::with_frames(headers, stamps, 2)
    }

    fn with_frames(headers: usize, stamps: &[u64], len: usize) -> Box<Script> {
        Box::new(Script {
            headers: (0..headers).map(|h| vec![b'h', h as u8]).collect(),
            frames: stamps.iter().map(|t| (vec![*t as u8; len], *t)).collect(),
            fail_at: None,
            asked: 0,
        })
    }
}

impl BitstreamCoder for Script {
    fn headers(&self) -> Vec<Vec<u8>> {
        self.headers.clone()
    }

    fn next_frame(&mut self) -> std::io::Result<Option<Packet>> {
        let n = self.asked;
        self.asked += 1;
        if self.fail_at == Some(n) {
            return Err(std::io::Error::new(std::io::ErrorKind::UnexpectedEof, "broken"));
        }
        Ok(self.frames.get(n).map(|(content, t)| Packet { content: content.clone(), timestamp: *t }))
    }

    fn map_granule(&self, granule: u64) -> u64 {
        granule
    }
}

/// Splits a written stream into (serial, sequence, flags, granule, content).
fn parse(mut bytes: &[u8]) -> Vec<(u32, u32, u8, u64, Vec<u8>)> {
    let mut pages = Vec::new();
    while !bytes.is_empty() {
        assert_eq!(&bytes[0..5], b"OggS\0");
        let flags = bytes[5];
        let granule = u64::from_le_bytes(bytes[6..14].try_into().unwrap());
        let serial = u32::from_le_bytes(bytes[14..18].try_into().unwrap());
        let sequence = u32::from_le_bytes(bytes[18..22].try_into().unwrap());
        let segments = bytes[26] as usize;
        let size: usize = bytes[27..27 + segments].iter().map(|b| *b as usize).sum();
        let end = 27 + segments + size;
        let mut blank = bytes[..end].to_vec();
        for b in blank[22..26].iter_mut() {
            *b = 0;
        }
        let sum = u32::from_le_bytes(bytes[22..26].try_into().unwrap());
        assert_eq!(sum, crc_compute(0, &blank));
        pages.push((serial, sequence, flags, granule, bytes[27 + segments..end].to_vec()));
        bytes = &bytes[end..];
    }
    pages
}

#[test]
fn mux_of_nothing_writes_nothing() {
    let mut mux = OgkMux::new();
    let mut out = Vec::new();
    assert!(matches!(mux.write_to(&mut out, 10), Ok(true)));
    assert!(out.is_empty());
    assert!(!mux.write_page(&mut out));
}

#[test]
fn mux_orders_pages_by_position() {
    let mut mux = OgkMux::new();
    mux.add_stream_with_serial(Script::with_frames(1, &[10, 30, 50], PAGE_FILL), 1);
    mux.add_stream_with_serial(Script::with_frames(2, &[20, 30, 40], PAGE_FILL), 2);
    let mut out = Vec::new();
    assert!(matches!(mux.write_to(&mut out, 100), Ok(true)));
    let pages = parse(&out);
    let order: Vec<(u32, u32, u8, u64)> =
        pages.iter().map(|p| (p.0, p.1, p.2, p.3)).collect();
    assert_eq!(
        order,
        vec![
            // The first page of each stream holds its first header.
            (1, 0, PAGE_BOS, 0),
            (2, 0, PAGE_BOS, 0),
            // The second header of the second stream is finished by then.
            (2, 1, 0, 0),
            // Then the content, least position first, first stream first.
            (1, 1, 0, 10),
            (2, 2, 0, 20),
            (1, 2, 0, 30),
            (2, 3, 0, 30),
            (2, 4, PAGE_EOS, 40),
            (1, 3, PAGE_EOS, 50),
        ]
    );
    assert_eq!(pages[0].4, vec![b'h', 0]);
    assert_eq!(pages[2].4, vec![b'h', 1]);
    assert_eq!(pages[3].4, vec![10; PAGE_FILL]);
    assert_eq!(pages[8].4, vec![50; PAGE_FILL]);
}

#[test]
fn small_packets_share_the_pages_of_their_stream() {
    let mut mux = OgkMux::new();
    mux.add_stream_with_serial(Script::new(1, &[10, 30, 50]), 1);
    mux.add_stream_with_serial(Script::new(2, &[20, 30, 40]), 2);
    let mut out = Vec::new();
    assert!(matches!(mux.write_to(&mut out, 100), Ok(true)));
    let pages = parse(&out);
    let order: Vec<(u32, u32, u8, u64)> =
        pages.iter().map(|p| (p.0, p.1, p.2, p.3)).collect();
    assert_eq!(
        order,
        vec![
            (1, 0, PAGE_BOS, 0),
            (2, 0, PAGE_BOS, 0),
            (2, 1, 0, 0),
            (2, 2, PAGE_EOS, 40),
            (1, 1, PAGE_EOS, 50),
        ]
    );
    assert_eq!(pages[3].4, vec![20, 20, 30, 30, 40, 40]);
    assert_eq!(pages[4].4, vec![10, 10, 30, 30, 50, 50]);
}

#[test]
fn mux_writes_page_by_page() {
    let mut mux = OgkMux::new();
    mux.add_stream_with_serial(Script::with_frames(1, &[1, 2], PAGE_FILL), 8);
    let mut out = Vec::new();
    assert!(matches!(mux.write_to(&mut out, 1), Ok(false)));
    assert_eq!(parse(&out).len(), 2);
    assert!(mux.pump_pending().is_ok());
    assert!(mux.write_page(&mut out));
    assert_eq!(parse(&out).len(), 3);
    assert!(mux.pump_pending().is_ok());
    assert!(!mux.write_page(&mut out));
    let stamps: Vec<u64> = parse(&out).iter().map(|p| p.3).collect();
    assert_eq!(stamps, vec![0, 1, 2]);
}

#[test]
fn stream_without_content_is_one_closed_page() {
    let mut mux = OgkMux::new();
    mux.add_stream_with_serial(Script::new(1, &[]), 4);
    let mut out = Vec::new();
    assert!(matches!(mux.write_to(&mut out, 5), Ok(true)));
    let pages = parse(&out);
    assert_eq!(pages.len(), 1);
    assert_eq!((pages[0].0, pages[0].1, pages[0].2, pages[0].3), (4, 0, PAGE_BOS | PAGE_EOS, 0));
}

#[test]
fn stream_without_headers_is_refused() {
    let mut mux = OgkMux::new();
    mux.add_stream_with_serial(Script::new(0, &[1]), 4);
    let mut out = Vec::new();
    assert!(matches!(mux.write_headers(&mut out), Err(MuxError::NoHeaders)));
    assert!(out.is_empty());
}

#[test]
fn failing_coder_stops_the_mux() {
    let mut coder = Script::new(1, &[1, 2, 3]);
    coder.fail_at = Some(2);
    let mut mux = OgkMux::new();
    mux.add_stream_with_serial(coder, 4);
    let mut out = Vec::new();
    assert!(matches!(mux.write_to(&mut out, 100), Err(MuxError::Coder(_))));
    // The page written before the failure stays written.
    let stamps: Vec<u64> = parse(&out).iter().map(|p| p.3).collect();
    assert_eq!(stamps, vec![0]);
}

#[test]
fn streams_get_their_serial_numbers_at_random() {
    let mut mux = OgkMux::new();
    mux.add_stream(Script::new(1, &[]));
    mux.add_stream(Script::new(1, &[]));
    let mut out = Vec::new();
    assert!(matches!(mux.write_to(&mut out, 10), Ok(true)));
    let pages = parse(&out);
    assert_eq!(pages.len(), 2);
    assert_eq!(pages[0].1, 0);
    assert_eq!(pages[1].1, 0);
}

#[test]
fn start_of_a_stream_with_content() {
    let mut packer = PagePacker::new(7);
    packer.start_stream(vec![vec![1], vec![2, 2], vec![3, 3, 3]], Some(packet(4, 90)));
    assert!(!packer.is_closed());
    let first = packer.take_next().unwrap();
    assert_eq!(first.flags, PageFlags { continued: false, first: true, last: false });
    assert_eq!(first.segment_table, vec![1]);
    assert_eq!(first.content, vec![1]);
    assert_eq!(first.granule_position, 0);
    let second = packer.take_next().unwrap();
    assert_eq!(second.flags, PageFlags::empty());
    assert_eq!(second.page_sequence, 1);
    assert_eq!(second.segment_table, vec![2, 3]);
    assert_eq!(second.content, vec![2, 2, 3, 3, 3]);
    assert!(packer.take_next().is_none());
    packer.close();
    let third = packer.take_next().unwrap();
    assert_eq!(third.page_sequence, 2);
    assert_eq!(third.segment_table, vec![4]);
    assert_eq!(third.granule_position, 90);
    assert!(third.flags.last);
}

#[test]
fn start_of_a_stream_with_one_header() {
    let mut packer = PagePacker::new(7);
    packer.start_stream(vec![vec![1, 1]], Some(packet(4, 90)));
    let first = packer.take_next().unwrap();
    assert_eq!(first.content, vec![1, 1]);
    assert!(packer.take_next().is_none());
    assert!(!packer.is_closed());
}

#[test]
fn start_of_a_stream_without_content() {
    let mut packer = PagePacker::new(7);
    packer.start_stream(vec![vec![1], vec![2]], None);
    assert!(packer.is_closed());
    let first = packer.take_next().unwrap();
    assert_eq!(first.flags, PageFlags { continued: false, first: true, last: false });
    let second = packer.take_next().unwrap();
    assert_eq!(second.flags, PageFlags { continued: false, first: false, last: true });
    assert_eq!(second.content, vec![2]);
    assert!(packer.take_next().is_none());
}

#[test]
fn emitted_pages_are_numbered() {
    let mut packer = PagePacker::new(1);
    let mut last = 0;
    for _ in 0..3 {
        packer.emit();
        last = packer.take_next().unwrap().page_sequence;
    }
    assert_eq!(last, 2);
}
