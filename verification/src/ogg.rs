//! Ogg pages: how packets are cut into segments and pages, how a page is
//! written out with its checksum, and how the pages of several streams are
//! put in order.

use vstd::prelude::*;
use byteorder::ByteOrder;
use byteorder::LittleEndian;
use std::collections::VecDeque;
use crate::crc::{crc_compute, crc_fold, lemma_crc_concat};

verus! {

/// The `n` low bytes of `value`, least significant first.
pub open spec fn le_bytes(value: nat, n: nat) -> Seq<u8>
    decreases n,
{
    if n == 0 {
        Seq::empty()
    } else {
        seq![(value % 256) as u8] + le_bytes(value / 256, (n - 1) as nat)
    }
}

/// Calls `byteorder::LittleEndian::write_u32` on a buffer of four bytes,
/// which it fills with the bytes of `value`, least significant first.
#[verifier::external_body]
fn u32_le(value: u32) -> (bytes: Vec<u8>)
    ensures
        bytes@ == le_bytes(value as nat, 4),
{
    let mut buf = [0u8; 4];
    LittleEndian::write_u32(&mut buf, value);
    buf.to_vec()
}

/// Calls `byteorder::LittleEndian::write_u64` on a buffer of eight bytes,
/// which it fills with the bytes of `value`, least significant first.
#[verifier::external_body]
fn u64_le(value: u64) -> (bytes: Vec<u8>)
    ensures
        bytes@ == le_bytes(value as nat, 8),
{
    let mut buf = [0u8; 8];
    LittleEndian::write_u64(&mut buf, value);
    buf.to_vec()
}

/// A packet of one logical stream, with the position it ends at.
#[derive(Debug)]
pub struct Packet {
    pub content: Vec<u8>,
    pub timestamp: u64,
}

/// The three flags of a page header.
#[derive(Clone, Copy, PartialEq, Eq, Debug)]
pub struct PageFlags {
    /// The page starts with the rest of a packet begun on an earlier page.
    pub continued: bool,
    /// The page is the first of its stream.
    pub first: bool,
    /// The page is the last of its stream.
    pub last: bool,
}

/// The header bit of a page that continues a packet.
pub const PAGE_CTD: u8 = 1;

/// The header bit of the first page of a stream.
pub const PAGE_BOS: u8 = 2;

/// The header bit of the last page of a stream.
pub const PAGE_EOS: u8 = 4;

impl PageFlags {
    /// The header byte that stands for the flags.
    pub open spec fn spec_bits(self) -> u8 {
        ((if self.continued {
            1int
        } else {
            0int
        }) + (if self.first {
            2int
        } else {
            0int
        }) + (if self.last {
            4int
        } else {
            0int
        })) as u8
    }

    /// No flag set.
    pub fn empty() -> (flags: Self)
        ensures
            flags == (PageFlags { continued: false, first: false, last: false }),
    {
        PageFlags { continued: false, first: false, last: false }
    }

    /// The header byte that stands for the flags.
    pub fn bits(&self) -> (byte: u8)
        ensures
            byte == self.spec_bits(),
    {
        let mut byte: u8 = 0;
        if self.continued {
            byte = byte + PAGE_CTD;
        }
        if self.first {
            byte = byte + PAGE_BOS;
        }
        if self.last {
            byte = byte + PAGE_EOS;
        }
        byte
    }
}

/// One page: a header, a table of segment lengths and the segments.
#[derive(Debug)]
pub struct Page {
    pub flags: PageFlags,
    pub granule_position: u64,
    pub stream_serial: u32,
    pub page_sequence: u32,
    /// The length of each segment of the page, in order.
    pub segment_table: Vec<u8>,
    pub content: Vec<u8>,
}

/// What a page holds.
pub struct PageModel {
    pub flags: PageFlags,
    pub granule_position: u64,
    pub stream_serial: u32,
    pub page_sequence: u32,
    pub segment_table: Seq<u8>,
    pub content: Seq<u8>,
}

/// What a packet holds.
pub struct PacketModel {
    pub content: Seq<u8>,
    pub timestamp: u64,
}

impl View for Packet {
    type V = PacketModel;

    open spec fn view(&self) -> PacketModel {
        PacketModel { content: self.content@, timestamp: self.timestamp }
    }
}

impl View for Page {
    type V = PageModel;

    open spec fn view(&self) -> PageModel {
        PageModel {
            flags: self.flags,
            granule_position: self.granule_position,
            stream_serial: self.stream_serial,
            page_sequence: self.page_sequence,
            segment_table: self.segment_table@,
            content: self.content@,
        }
    }
}

/// The sum of the lengths in a segment table.
pub open spec fn table_sum(table: Seq<u8>) -> nat
    decreases table.len(),
{
    if table.len() == 0 {
        0
    } else {
        table_sum(table.drop_last()) + table.last() as nat
    }
}

/// The sum of a segment table grows entry by entry and stays under 255 per
/// entry.
pub proof fn lemma_table_sum_concat(first: Seq<u8>, second: Seq<u8>)
    ensures
        table_sum(first + second) == table_sum(first) + table_sum(second),
        table_sum(first) <= 255 * first.len(),
    decreases second.len(),
{
    if second.len() == 0 {
        assert(first + second =~= first);
        lemma_table_sum_bound(first);
    } else {
        lemma_table_sum_concat(first, second.drop_last());
        assert((first + second).drop_last() =~= first + second.drop_last());
    }
}

/// No segment is longer than 255 bytes.
proof fn lemma_table_sum_bound(table: Seq<u8>)
    ensures
        table_sum(table) <= 255 * table.len(),
    decreases table.len(),
{
    if table.len() > 0 {
        lemma_table_sum_bound(table.drop_last());
    }
}

/// The segment lengths that carry `rest` bytes to the end of a packet: full
/// segments of 255 while they fit, then one shorter segment, which may be
/// empty.
pub open spec fn lacing(rest: nat) -> Seq<u8> {
    Seq::new(rest / 255 + 1, |i: int| if i < rest / 255 { 255u8 } else { (rest % 255) as u8 })
}

/// `count` full segments.
pub open spec fn full_segments(count: nat) -> Seq<u8> {
    Seq::new(count, |i: int| 255u8)
}

impl PageModel {
    /// A fresh page: no flag, no segment, and no packet ends on it.
    pub open spec fn empty(stream_serial: u32, page_sequence: u32) -> Self {
        PageModel {
            flags: PageFlags { continued: false, first: false, last: false },
            granule_position: u64::MAX,
            stream_serial,
            page_sequence,
            segment_table: Seq::empty(),
            content: Seq::empty(),
        }
    }

    /// The table has room for at most 255 segments, and the content is as
    /// long as the table says.
    pub open spec fn wf(self) -> bool {
        &&& self.segment_table.len() <= 255
        &&& self.content.len() == table_sum(self.segment_table)
    }

    /// How many more segments fit on the page.
    pub open spec fn room(self) -> nat {
        (255 - self.segment_table.len()) as nat
    }

    /// The page with one more segment.
    pub open spec fn with_segment(self, segment: Seq<u8>) -> Self {
        PageModel {
            segment_table: self.segment_table.push(segment.len() as u8),
            content: self.content + segment,
            ..self
        }
    }

    /// The 27 bytes of the header, with `crc` in the checksum field.
    pub open spec fn header(self, crc: u32) -> Seq<u8> {
        seq![79u8, 103u8, 103u8, 83u8, 0u8] + seq![self.flags.spec_bits()] + le_bytes(
            self.granule_position as nat,
            8,
        ) + le_bytes(self.stream_serial as nat, 4) + le_bytes(self.page_sequence as nat, 4)
            + le_bytes(crc as nat, 4) + seq![self.segment_table.len() as u8]
    }

    /// The checksum of the page: that of the whole page with the checksum
    /// field left zero.
    pub open spec fn checksum(self) -> u32 {
        crc_fold(0, self.header(0) + self.segment_table + self.content)
    }

    /// The page as it is written out.
    pub open spec fn bytes(self) -> Seq<u8> {
        self.header(self.checksum()) + self.segment_table + self.content
    }

    /// The page after as much as fits of `packet`, from `offset` on, has been
    /// added: the whole rest if its segments fit, else full segments up to
    /// the end of the table. A rest that starts inside the packet marks the
    /// page as a continuation; a packet that ends on the page gives it its
    /// position.
    pub open spec fn with_packet(self, packet: PacketModel, offset: nat) -> Self {
        let rest = (packet.content.len() - offset) as nat;
        let flags = if offset != 0 {
            PageFlags { continued: true, ..self.flags }
        } else {
            self.flags
        };
        if rest / 255 + 1 <= self.room() {
            PageModel {
                flags,
                granule_position: packet.timestamp,
                segment_table: self.segment_table + lacing(rest),
                content: self.content + packet.content.subrange(
                    offset as int,
                    packet.content.len() as int,
                ),
                ..self
            }
        } else {
            PageModel {
                flags,
                segment_table: self.segment_table + full_segments(self.room()),
                content: self.content + packet.content.subrange(
                    offset as int,
                    (offset + 255 * self.room()) as int,
                ),
                ..self
            }
        }
    }

    /// Where the part of `packet` that did not fit starts, if a part did not
    /// fit.
    pub open spec fn packet_rest(self, packet: PacketModel, offset: nat) -> Option<nat> {
        let rest = (packet.content.len() - offset) as nat;
        if rest / 255 + 1 <= self.room() {
            None
        } else {
            Some(offset + 255 * self.room())
        }
    }
}

impl Page {
    /// An empty page of the stream `stream_serial`, numbered `sequence`.
    pub fn new(stream_serial: u32, sequence: u32) -> (page: Self)
        ensures
            page@ == PageModel::empty(stream_serial, sequence),
    {
        let none: u64 = !0;
        proof {
            assert(!0u64 == 0xffff_ffff_ffff_ffffu64) by (bit_vector);
        }
        let page = Page {
            flags: PageFlags::empty(),
            granule_position: none,
            stream_serial: stream_serial,
            page_sequence: sequence,
            segment_table: Vec::new(),
            content: Vec::new(),
        };
        proof {
            assert(page@.segment_table =~= Seq::<u8>::empty());
            assert(page@.content =~= Seq::<u8>::empty());
        }
        page
    }

    /// Appends the page to `writer` as it stands in a stream: the header
    /// with the checksum of the whole page, the segment table, the content.
    pub fn write_to(&self, writer: &mut Vec<u8>)
        requires
            self@.segment_table.len() <= 255,
        ensures
            final(writer)@ == old(writer)@ + self@.bytes(),
    {
        let mut start: Vec<u8> = Vec::new();
        start.push(79);
        start.push(103);
        start.push(103);
        start.push(83);
        start.push(0);
        start.push(self.flags.bits());
        let granule = u64_le(self.granule_position);
        start.extend_from_slice(granule.as_slice());
        let serial = u32_le(self.stream_serial);
        start.extend_from_slice(serial.as_slice());
        let sequence = u32_le(self.page_sequence);
        start.extend_from_slice(sequence.as_slice());
        let segments = self.segment_table.len() as u8;
        let ghost begin = seq![79u8, 103u8, 103u8, 83u8, 0u8] + seq![self.flags.spec_bits()]
            + le_bytes(self.granule_position as nat, 8) + le_bytes(self.stream_serial as nat, 4)
            + le_bytes(self.page_sequence as nat, 4);
        proof {
            assert(start@ =~= begin);
        }

        // The checksum covers the page with the checksum field left blank.
        let mut header = start.clone();
        let blank = u32_le(0);
        header.extend_from_slice(blank.as_slice());
        header.push(segments);
        proof {
            assert(header@ =~= self@.header(0));
        }
        let mut crc: u32 = 0;
        crc = crc_compute(crc, header.as_slice());
        crc = crc_compute(crc, self.segment_table.as_slice());
        crc = crc_compute(crc, self.content.as_slice());
        proof {
            lemma_crc_concat(0, self@.header(0), self@.segment_table);
            lemma_crc_concat(0, self@.header(0) + self@.segment_table, self@.content);
            assert(crc == self@.checksum());
        }
        let sum = u32_le(crc);
        start.extend_from_slice(sum.as_slice());
        start.push(segments);
        proof {
            assert(start@ =~= self@.header(crc));
        }

        writer.extend_from_slice(start.as_slice());
        writer.extend_from_slice(self.segment_table.as_slice());
        writer.extend_from_slice(self.content.as_slice());
        proof {
            assert(writer@ =~= old(writer)@ + self@.bytes());
        }
    }

    /// Adds one segment to the page.
    fn add_segment(&mut self, segment: &[u8])
        requires
            segment@.len() < 256,
            old(self)@.segment_table.len() < 255,
        ensures
            final(self)@ == old(self)@.with_segment(segment@),
            old(self)@.wf() ==> final(self)@.wf(),
    {
        self.segment_table.push(segment.len() as u8);
        self.content.extend_from_slice(segment);
        proof {
            assert(self.content@ =~= old(self).content@ + segment@);
            assert(self.segment_table@.drop_last() =~= old(self).segment_table@);
        }
    }

    /// Adds the part of `packet` that starts at `offset`, as far as the
    /// segment table has room. A part that starts inside the packet must go
    /// on an empty page that is not the first of its stream.
    ///
    /// Returns `None` when the packet was written to its end, and else the
    /// offset from which the packet goes on, on the next page.
    pub fn add_packet(&mut self, packet: &Packet, offset: usize) -> (rest: Option<usize>)
        requires
            old(self)@.wf(),
            offset <= packet@.content.len(),
            offset != 0 ==> old(self)@.segment_table.len() == 0 && !old(self)@.flags.first,
        ensures
            final(self)@.wf(),
            final(self)@ == old(self)@.with_packet(packet@, offset as nat),
            rest is None <==> old(self)@.packet_rest(packet@, offset as nat) is None,
            rest matches Some(next) ==> old(self)@.packet_rest(packet@, offset as nat) == Some(
                next as nat,
            ),
    {
        let ghost first = offset as nat;
        let ghost total = (packet@.content.len() - offset) as nat;
        let ghost room = old(self)@.room();
        let all = packet.content.as_slice();
        let mut offset = offset;
        let plen = all.len();
        if offset != 0 {
            self.flags.continued = true;
        }
        let ghost begin = self@;
        let ghost mut count: nat = 0;
        proof {
            assert(begin.segment_table + full_segments(0) =~= begin.segment_table);
            assert(begin.content + all@.subrange(first as int, first as int) =~= begin.content);
        }
        while plen - offset > 254 && self.has_space()
            invariant
                first <= offset <= plen,
                plen == all@.len(),
                all@ == packet@.content,
                total == plen - first,
                offset == first + 255 * count,
                begin.segment_table.len() + count <= 255,
                room == 255 - begin.segment_table.len(),
                count <= total / 255,
                self@.wf(),
                self@ == (PageModel {
                    segment_table: begin.segment_table + full_segments(count),
                    content: begin.content + all@.subrange(first as int, offset as int),
                    ..begin
                }),
            decreases plen - offset,
        {
            // Write a 255-byte segment.
            self.add_segment(&all[offset..offset + 255]);
            proof {
                assert(self@.segment_table =~= begin.segment_table + full_segments(count + 1));
                assert(self@.content =~= begin.content + all@.subrange(
                    first as int,
                    offset + 255,
                ));
            }
            offset = offset + 255;
            proof {
                count = count + 1;
            }
        }
        if self.has_space() {
            // Write the final chunk.
            self.add_segment(&all[offset..plen]);
            self.granule_position = packet.timestamp;
            proof {
                assert(count == total / 255);
                assert(plen - offset == total % 255);
                assert(self@.segment_table =~= begin.segment_table + lacing(total));
                assert(self@.content =~= begin.content + all@.subrange(
                    first as int,
                    plen as int,
                ));
            }
            None
        } else {
            Some(offset)
        }
    }

    /// Whether one more segment fits on the page.
    fn has_space(&self) -> (space: bool)
        ensures
            space <==> self@.segment_table.len() < 255,
    {
        self.segment_table.len() < 255
    }

    /// The sum of the segment lengths: how long the content is.
    pub fn content_size(&self) -> (size: usize)
        requires
            self@.segment_table.len() <= 255,
        ensures
            size == table_sum(self@.segment_table),
    {
        let mut size: usize = 0;
        let mut i: usize = 0;
        while i < self.segment_table.len()
            invariant
                i <= self.segment_table@.len() <= 255,
                size == table_sum(self.segment_table@.take(i as int)),
                size <= 255 * i,
            decreases self.segment_table.len() - i,
        {
            let ghost before = self.segment_table@.take(i as int);
            size = size + self.segment_table[i] as usize;
            i = i + 1;
            proof {
                let now = self.segment_table@.take(i as int);
                assert(now.drop_last() =~= before);
            }
        }
        proof {
            assert(self.segment_table@.take(i as int) =~= self.segment_table@);
        }
        size
    }
}

/// Full segments carry 255 bytes each.
pub proof fn lemma_full_segments_sum(count: nat)
    ensures
        table_sum(full_segments(count)) == 255 * count,
    decreases count,
{
    if count > 0 {
        lemma_full_segments_sum((count - 1) as nat);
        assert(full_segments(count).drop_last() =~= full_segments((count - 1) as nat));
    }
}

/// The segments that carry the rest of a packet carry exactly that rest.
pub proof fn lemma_lacing_sum(rest: nat)
    ensures
        table_sum(lacing(rest)) == rest,
{
    lemma_full_segments_sum(rest / 255);
    assert(lacing(rest).drop_last() =~= full_segments(rest / 255));
}

impl PageModel {
    /// Adding a packet keeps a page well-formed, and changes neither its
    /// serial and sequence numbers nor whether it is the first or the last
    /// of its stream.
    pub proof fn lemma_with_packet(self, packet: PacketModel, offset: nat)
        requires
            self.wf(),
            offset <= packet.content.len(),
        ensures
            self.with_packet(packet, offset).wf(),
            self.with_packet(packet, offset).flags.last == self.flags.last,
            self.with_packet(packet, offset).flags.first == self.flags.first,
            self.with_packet(packet, offset).stream_serial == self.stream_serial,
            self.with_packet(packet, offset).page_sequence == self.page_sequence,
            self.with_packet(packet, offset).segment_table.len() >= self.segment_table.len(),
            self.packet_rest(packet, offset) is None ==> self.with_packet(
                packet,
                offset,
            ).segment_table.len() > self.segment_table.len(),
            self.packet_rest(packet, offset) matches Some(next) ==> offset <= next
                <= packet.content.len() && self.with_packet(packet, offset).segment_table.len()
                == 255,
    {
        let rest = (packet.content.len() - offset) as nat;
        if rest / 255 + 1 <= self.room() {
            lemma_lacing_sum(rest);
            lemma_table_sum_concat(self.segment_table, lacing(rest));
        } else {
            lemma_full_segments_sum(self.room());
            lemma_table_sum_concat(self.segment_table, full_segments(self.room()));
        }
    }
}

/// The sequence number after `sequence`. It wraps, as the 32-bit field of
/// the page header does.
pub open spec fn next_sequence(sequence: u32) -> u32 {
    if sequence == u32::MAX {
        0
    } else {
        (sequence + 1) as u32
    }
}

/// What a page packer holds.
pub struct PackerModel {
    /// The finished pages that wait to be taken, oldest first.
    pub queue: Seq<PageModel>,
    /// The page that is being filled; none once the stream is closed.
    pub active: Option<PageModel>,
    pub stream_serial: u32,
    pub page_sequence: u32,
}

impl PackerModel {
    /// A packer at the start of its stream: no finished page, and an empty
    /// first page to fill.
    pub open spec fn new(serial: u32) -> Self {
        PackerModel {
            queue: Seq::empty(),
            active: Some(
                PageModel {
                    flags: PageFlags { continued: false, first: true, last: false },
                    ..PageModel::empty(serial, 0)
                },
            ),
            stream_serial: serial,
            page_sequence: 0,
        }
    }

    /// Every page is well-formed, and the page being filled is not marked as
    /// the last and carries the packer's serial and sequence number.
    pub open spec fn wf(self) -> bool {
        &&& forall|i: int| 0 <= i < self.queue.len() ==> (#[trigger] self.queue[i]).wf()
        &&& self.active matches Some(page) ==> {
            &&& page.wf()
            &&& !page.flags.last
            &&& page.stream_serial == self.stream_serial
            &&& page.page_sequence == self.page_sequence
        }
    }

    /// The page being filled joins the finished pages. Unless it was the
    /// last of the stream, an empty page with the next sequence number takes
    /// its place.
    pub open spec fn emit(self) -> Self {
        match self.active {
            None => self,
            Some(page) => {
                if page.flags.last {
                    PackerModel { queue: self.queue.push(page), active: None, ..self }
                } else {
                    let sequence = next_sequence(self.page_sequence);
                    PackerModel {
                        queue: self.queue.push(page),
                        active: Some(PageModel::empty(self.stream_serial, sequence)),
                        page_sequence: sequence,
                        ..self
                    }
                }
            },
        }
    }

    /// The packer after `packet` has been added from `offset` on: the page
    /// being filled takes what fits, and while a part is left over the page
    /// is emitted and the next one goes on with that part. A closed stream
    /// takes nothing, and a page marked as the last gets no successor.
    pub open spec fn add_packet_from(self, packet: PacketModel, offset: nat) -> Self
        decreases
            (if offset <= packet.content.len() {
                packet.content.len() - offset
            } else {
                0
            }),
            (match self.active {
                Some(page) => if page.segment_table.len() >= 255 {
                    1nat
                } else {
                    0nat
                },
                None => 0nat,
            }),
    {
        match self.active {
            None => self,
            Some(page) => {
                let filled = PackerModel {
                    active: Some(page.with_packet(packet, offset)),
                    ..self
                };
                match page.packet_rest(packet, offset) {
                    None => filled,
                    Some(next) => if page.flags.last || offset > packet.content.len() {
                        filled
                    } else {
                        filled.emit().add_packet_from(packet, next)
                    },
                }
            },
        }
    }

    /// The packer after `packet` has been added.
    pub open spec fn add_packet(self, packet: PacketModel) -> Self {
        self.add_packet_from(packet, 0)
    }

    /// The packer after packets with the contents `contents`, all at
    /// position 0, have been added in order.
    pub open spec fn add_packets(self, contents: Seq<Seq<u8>>) -> Self
        decreases contents.len(),
    {
        if contents.len() == 0 {
            self
        } else {
            self.add_packets(contents.drop_last()).add_packet(
                PacketModel { content: contents.last(), timestamp: 0 },
            )
        }
    }

    /// The packer after the start of its stream has been packed: the first
    /// header alone on the first page, the other headers on the pages after
    /// it, and the first packet of the content, if there is one, at the
    /// start of a page of its own. A stream without content is closed.
    pub open spec fn start(self, headers: Seq<Seq<u8>>, first: Option<PacketModel>) -> Self {
        let one = self.add_packet(PacketModel { content: headers[0], timestamp: 0 });
        let all = if headers.len() > 1 {
            one.emit().add_packets(headers.skip(1))
        } else {
            one
        };
        match first {
            Some(packet) => all.emit().add_packet(packet),
            None => all.close(),
        }
    }

    /// The page being filled is marked as the last and emitted.
    pub open spec fn close(self) -> Self {
        match self.active {
            None => self,
            Some(page) => PackerModel {
                queue: self.queue.push(
                    PageModel { flags: PageFlags { last: true, ..page.flags }, ..page },
                ),
                active: None,
                ..self
            },
        }
    }
}

/// The content of `pages`, one page after the other.
pub open spec fn pages_content(pages: Seq<PageModel>) -> Seq<u8>
    decreases pages.len(),
{
    if pages.len() == 0 {
        Seq::empty()
    } else {
        pages_content(pages.drop_last()) + pages.last().content
    }
}

/// The segment tables of `pages`, one page after the other.
pub open spec fn pages_segments(pages: Seq<PageModel>) -> Seq<u8>
    decreases pages.len(),
{
    if pages.len() == 0 {
        Seq::empty()
    } else {
        pages_segments(pages.drop_last()) + pages.last().segment_table
    }
}

impl PackerModel {
    /// All pages of the stream so far: the finished ones, then the one being
    /// filled.
    pub open spec fn pages(self) -> Seq<PageModel> {
        match self.active {
            Some(page) => self.queue.push(page),
            None => self.queue,
        }
    }

    /// Packing loses nothing and adds nothing: over all pages of the stream,
    /// the content grows by the bytes of the packet from `offset` on, and
    /// the segment tables grow by the segment lengths of that many bytes.
    pub proof fn lemma_add_packet_content(self, packet: PacketModel, offset: nat)
        requires
            self.wf(),
            self.active is Some,
            offset <= packet.content.len(),
        ensures
            pages_content(self.add_packet_from(packet, offset).pages()) == pages_content(
                self.pages(),
            ) + packet.content.skip(offset as int),
            pages_segments(self.add_packet_from(packet, offset).pages()) == pages_segments(
                self.pages(),
            ) + lacing((packet.content.len() - offset) as nat),
        decreases
            packet.content.len() - offset,
            (if self.active.unwrap().segment_table.len() >= 255 {
                1nat
            } else {
                0nat
            }),
    {
        let page = self.active.unwrap();
        let rest = (packet.content.len() - offset) as nat;
        let grown = page.with_packet(packet, offset);
        let filled = PackerModel { active: Some(grown), ..self };
        page.lemma_with_packet(packet, offset);
        assert(self.pages().drop_last() =~= self.queue);
        assert(filled.pages().drop_last() =~= self.queue);
        match page.packet_rest(packet, offset) {
            None => {
                assert(pages_content(filled.pages()) =~= pages_content(self.pages())
                    + packet.content.skip(offset as int));
                assert(pages_segments(filled.pages()) =~= pages_segments(self.pages()) + lacing(
                    rest,
                ));
            },
            Some(next) => {
                let emitted = filled.emit();
                emitted.lemma_add_packet_content(packet, next);
                let fresh = emitted.active.unwrap();
                assert(emitted.pages().drop_last() =~= filled.pages());
                assert(emitted.pages().last() == fresh);
                assert(fresh.content =~= Seq::<u8>::empty());
                assert(fresh.segment_table =~= Seq::<u8>::empty());
                assert(pages_content(emitted.pages()) =~= pages_content(filled.pages()));
                assert(pages_segments(emitted.pages()) =~= pages_segments(filled.pages()));
                assert(packet.content.subrange(offset as int, next as int) + packet.content.skip(
                    next as int,
                ) =~= packet.content.skip(offset as int));
                assert(full_segments(page.room()) + lacing((packet.content.len() - next) as nat)
                    =~= lacing(rest));
                assert(pages_content(self.add_packet_from(packet, offset).pages())
                    =~= pages_content(self.pages()) + packet.content.skip(offset as int));
                assert(pages_segments(self.add_packet_from(packet, offset).pages())
                    =~= pages_segments(self.pages()) + lacing(rest));
            },
        }
    }
}

/// What each of `packets` holds.
pub open spec fn contents_of(packets: Seq<Vec<u8>>) -> Seq<Seq<u8>> {
    packets.map_values(|content: Vec<u8>| content@)
}

/// Cuts the packets of one stream into pages.
pub struct PagePacker {
    page_queue: VecDeque<Page>,
    /// This is only none when the stream is closed.
    active_page: Option<Page>,
    stream_serial: u32,
    page_sequence: u32,
}

impl View for PagePacker {
    type V = PackerModel;

    closed spec fn view(&self) -> PackerModel {
        PackerModel {
            queue: self.page_queue@.map_values(|page: Page| page@),
            active: match self.active_page {
                Some(page) => Some(page@),
                None => None,
            },
            stream_serial: self.stream_serial,
            page_sequence: self.page_sequence,
        }
    }
}

impl PagePacker {
    /// A packer at the start of the stream `serial`.
    pub fn new(serial: u32) -> (packer: Self)
        ensures
            packer@ == PackerModel::new(serial),
            packer@.wf(),
    {
        let mut start_page = Page::new(serial, 0);
        start_page.flags.first = true;
        let packer = PagePacker {
            page_queue: VecDeque::new(),
            active_page: Some(start_page),
            stream_serial: serial,
            page_sequence: 0,
        };
        proof {
            assert(packer@.queue =~= Seq::<PageModel>::empty());
        }
        packer
    }

    /// Immediately emits the current page and prepares the next one.
    pub fn emit(&mut self)
        ensures
            final(self)@ == old(self)@.emit(),
            old(self)@.wf() ==> final(self)@.wf(),
    {
        // Emit a page and get the next page ready.
        if let Some(page) = self.active_page.take() {
            let eos = page.flags.last;
            self.page_queue.push_back(page);
            proof {
                assert(self@.queue =~= old(self)@.queue.push(page@));
            }
            if !eos {
                self.page_sequence = self.page_sequence.wrapping_add(1);
                self.active_page = Some(Page::new(self.stream_serial, self.page_sequence));
            }
        }
    }

    /// The page that is being filled. The stream must not be closed.
    fn get_active(&mut self) -> (page: &mut Page)
        requires
            old(self)@.active is Some,
        ensures
            page@ == old(self)@.active.unwrap(),
            final(self)@ == (PackerModel { active: Some(final(page)@), ..old(self)@ }),
    {
        match self.active_page.as_mut() {
            None => vstd::pervasive::unreached(),
            Some(page) => page,
        }
    }

    /// Adds `packet` to the stream, over as many pages as it takes. The
    /// stream must not be closed.
    pub fn add_packet(&mut self, packet: &Packet)
        requires
            old(self)@.wf(),
            old(self)@.active is Some,
        ensures
            final(self)@ == old(self)@.add_packet(packet@),
            final(self)@.wf(),
            final(self)@.active is Some,
    {
        let mut offset: usize = 0;
        loop
            invariant_except_break
                self@.wf(),
                self@.active is Some,
                offset <= packet@.content.len(),
                offset != 0 ==> self@.active.unwrap().segment_table.len() == 0
                    && !self@.active.unwrap().flags.first,
                old(self)@.add_packet(packet@) == self@.add_packet_from(packet@, offset as nat),
            ensures
                self@ == old(self)@.add_packet(packet@),
                self@.wf(),
                self@.active is Some,
            decreases
                packet@.content.len() - offset,
                (if self@.active.unwrap().segment_table.len() >= 255 {
                    1nat
                } else {
                    0nat
                }),
        {
            let rest = self.get_active().add_packet(packet, offset);
            match rest {
                None => {
                    break ;
                },
                Some(next) => {
                    self.emit();
                    offset = next;
                },
            }
        }
    }

    /// Packs the start of the stream: the header packets, of which there
    /// must be one at least, and the first packet of the content, if the
    /// stream has any. The stream must not be closed.
    pub fn start_stream(&mut self, headers: Vec<Vec<u8>>, first_packet: Option<Packet>)
        requires
            old(self)@.wf(),
            old(self)@.active is Some,
            headers@.len() >= 1,
        ensures
            final(self)@.wf(),
            final(self)@ == old(self)@.start(
                contents_of(headers@),
                match first_packet {
                    Some(packet) => Some(packet@),
                    None => None,
                },
            ),
            final(self)@.queue.len() > old(self)@.queue.len(),
    {
        let header_count = headers.len();
        let ghost before = self@;
        let ghost contents = contents_of(headers@);
        let ghost one = before.add_packet(PacketModel { content: contents[0], timestamp: 0 });
        let mut done: usize = 0;
        for header in it: headers
            invariant
                it.seq().len() == header_count,
                contents_of(it.seq()) == contents,
                done == it.index(),
                one == before.add_packet(PacketModel { content: contents[0], timestamp: 0 }),
                self@.wf(),
                self@.active is Some,
                self@.queue.len() >= before.queue.len(),
                header_count > 1 && done > 0 ==> self@.queue.len() > before.queue.len(),
                done == 0 ==> self@ == before,
                done > 0 && header_count == 1 ==> self@ == one,
                done > 0 && header_count > 1 ==> self@ == one.emit().add_packets(
                    contents.subrange(1, done as int),
                ),
        {
            let first = done == 0;
            let ghost now = self@;
            let packet = Packet { content: header, timestamp: 0 };
            proof {
                assert(packet@.content == contents[done as int]);
                now.lemma_add_packet_progress(packet@, 0);
                if done > 0 {
                    let next = contents.subrange(1, done + 1);
                    assert(next.drop_last() =~= contents.subrange(1, done as int));
                    assert(next.last() == contents[done as int]);
                }
            }
            self.add_packet(&packet);
            // Produce additional headers, if any, on pages of their own.
            if first && header_count > 1 {
                self.emit();
                proof {
                    assert(contents.subrange(1, 1) =~= Seq::<Seq<u8>>::empty());
                }
            }
            done = done + 1;
        }
        proof {
            assert(contents.subrange(1, header_count as int) =~= contents.skip(1));
        }
        let ghost now = self@;
        match first_packet {
            Some(packet) => {
                self.emit();
                proof {
                    now.emit().lemma_add_packet_progress(packet@, 0);
                }
                self.add_packet(&packet);
            },
            None => {
                self.close();
            },
        }
    }

    /// Ends the stream: the current page is marked as the last and emitted.
    /// The stream must not be closed already.
    pub fn close(&mut self)
        requires
            old(self)@.wf(),
            old(self)@.active is Some,
        ensures
            final(self)@ == old(self)@.close(),
            final(self)@.wf(),
            final(self)@.active is None,
    {
        self.get_active().flags.last = true;
        self.emit();
    }

    /// Whether the stream has been closed.
    pub fn is_closed(&self) -> (closed: bool)
        ensures
            closed <==> self@.active is None,
    {
        self.active_page.is_none()
    }

    /// The oldest finished page, left in place.
    pub fn peek_next(&self) -> (page: Option<&Page>)
        ensures
            page is Some <==> self@.queue.len() > 0,
            page matches Some(first) ==> first@ == self@.queue[0],
    {
        if self.page_queue.len() > 0 {
            Some(&self.page_queue[0])
        } else {
            None
        }
    }

    /// Takes the oldest finished page.
    pub fn take_next(&mut self) -> (page: Option<Page>)
        ensures
            old(self)@.queue.len() == 0 ==> page is None && final(self)@ == old(self)@,
            old(self)@.queue.len() > 0 ==> {
                &&& page matches Some(first)
                &&& first@ == old(self)@.queue[0]
                &&& final(self)@ == (PackerModel {
                    queue: old(self)@.queue.drop_first(),
                    ..old(self)@
                })
            },
            old(self)@.wf() ==> final(self)@.wf(),
    {
        let page = self.page_queue.pop_front();
        proof {
            if old(self)@.queue.len() > 0 {
                assert(self@.queue =~= old(self)@.queue.drop_first());
            } else {
                assert(self@.queue =~= old(self)@.queue);
            }
        }
        page
    }
}

impl PackerModel {
    /// A finished page waits, or the stream is closed: nothing is gained by
    /// asking the coder for more right now.
    pub open spec fn ready(self) -> bool {
        self.queue.len() > 0 || self.active is None
    }

    /// A finished page waits, or more may come.
    pub open spec fn live(self) -> bool {
        self.queue.len() > 0 || self.active is Some
    }

    /// The packer without its oldest finished page.
    pub open spec fn without_first(self) -> Self {
        PackerModel { queue: self.queue.drop_first(), ..self }
    }

    /// Adding a packet never takes a finished page away, keeps the stream
    /// open, and either finishes a page or adds a segment to the page being
    /// filled.
    pub proof fn lemma_add_packet_progress(self, packet: PacketModel, offset: nat)
        requires
            self.wf(),
            self.active is Some,
            offset <= packet.content.len(),
        ensures
            self.add_packet_from(packet, offset).queue.len() >= self.queue.len(),
            self.add_packet_from(packet, offset).active is Some,
            self.add_packet_from(packet, offset).queue.len() > self.queue.len()
                || self.add_packet_from(packet, offset).active.unwrap().segment_table.len()
                > self.active.unwrap().segment_table.len(),
        decreases
            packet.content.len() - offset,
            (if self.active.unwrap().segment_table.len() >= 255 {
                1nat
            } else {
                0nat
            }),
    {
        let page = self.active.unwrap();
        let filled = PackerModel { active: Some(page.with_packet(packet, offset)), ..self };
        page.lemma_with_packet(packet, offset);
        match page.packet_rest(packet, offset) {
            None => {},
            Some(next) => {
                filled.emit().lemma_add_packet_progress(packet, next);
            },
        }
    }
}

/// The error of the byte sources that a coder reads from.
#[verifier::external_type_specification]
#[verifier::external_body]
pub struct ExIoError(std::io::Error);

/// Why the streams could not be written.
#[derive(Debug)]
pub enum MuxError {
    /// A coder failed.
    Coder(std::io::Error),
    /// A stream has no header packet.
    NoHeaders,
}

/// The source of the packets of one logical stream.
pub trait BitstreamCoder {
    /// The header packets of the stream. A stream must have at least one.
    fn headers(&self) -> Vec<Vec<u8>>;

    /// The next packet of the stream, or none at its end.
    fn next_frame(&mut self) -> Result<Option<Packet>, std::io::Error>;

    /// Maps a granule position to an absolute timestamp in microseconds.
    fn map_granule(&self, granule: u64) -> u64;
}

/// One logical stream of a multiplexer: its coder and its pages.
pub struct MuxStream {
    bitstream: Box<dyn BitstreamCoder>,
    packer: PagePacker,
}

impl MuxStream {
    /// The pages of the stream.
    pub closed spec fn pages(&self) -> PackerModel {
        self.packer@
    }

    /// A stream at its start, fed by `bitstream`.
    fn new(bitstream: Box<dyn BitstreamCoder>, serial: u32) -> (stream: Self)
        ensures
            stream.pages() == PackerModel::new(serial),
    {
        MuxStream { bitstream: bitstream, packer: PagePacker::new(serial) }
    }

    /// Asks the coder for packets until a finished page waits or the stream
    /// has ended.
    fn pump(&mut self) -> (res: Result<(), std::io::Error>)
        requires
            old(self).pages().wf(),
        ensures
            final(self).pages().wf(),
            res is Ok ==> final(self).pages().ready(),
            old(self).pages().ready() ==> res is Ok && final(self).pages() == old(self).pages(),
    {
        while self.packer.peek_next().is_none() && !self.packer.is_closed()
            invariant
                self.pages().wf(),
                old(self).pages().ready() ==> self.pages() == old(self).pages(),
            decreases
                (if self.pages().ready() {
                    0
                } else {
                    256 - self.pages().active.unwrap().segment_table.len()
                }),
        {
            let ghost before = self.pages();
            match self.bitstream.next_frame() {
                Err(e) => {
                    return Err(e);
                },
                Ok(Some(frame)) => {
                    proof {
                        before.lemma_add_packet_progress(frame@, 0);
                    }
                    self.packer.add_packet(&frame);
                },
                Ok(None) => {
                    self.packer.close();
                },
            }
        }
        Ok(())
    }

    /// Whether a finished page waits or more may come.
    fn is_live(&self) -> (live: bool)
        ensures
            live == self.pages().live(),
    {
        self.packer.peek_next().is_some() || !self.packer.is_closed()
    }
}

/// Calls `rand::random` for a `u32`: a serial number for a new stream. Any
/// value may come back.
#[verifier::external_body]
fn random_serial() -> u32 {
    rand::random()
}

/// The streams that are still live, in their order.
pub open spec fn live_streams(packers: Seq<PackerModel>) -> Seq<PackerModel>
    decreases packers.len(),
{
    if packers.len() == 0 {
        Seq::empty()
    } else if packers.last().live() {
        live_streams(packers.drop_last()).push(packers.last())
    } else {
        live_streams(packers.drop_last())
    }
}

/// `index` is where the page to write next waits: its position is the least
/// among the oldest finished pages of the streams, and it is the first
/// stream of which that holds.
pub open spec fn is_next(packers: Seq<PackerModel>, index: int) -> bool {
    &&& 0 <= index < packers.len()
    &&& forall|j: int|
        0 <= j < packers.len() ==> packers[index].queue[0].granule_position
            <= (#[trigger] packers[j]).queue[0].granule_position
    &&& forall|j: int|
        0 <= j < index ==> packers[index].queue[0].granule_position
            < (#[trigger] packers[j]).queue[0].granule_position
}

/// Interleaves the pages of several logical streams, ordered by position.
pub struct OgkMux {
    streams: Vec<MuxStream>,
    /// The stream that gave the last page written, while its coder has not
    /// been asked for more.
    pending: Option<usize>,
}

impl OgkMux {
    /// The pages of each stream.
    pub closed spec fn packers(&self) -> Seq<PackerModel> {
        self.streams@.map_values(|stream: MuxStream| stream.pages())
    }

    /// The stream whose coder is to be asked next, if one is.
    pub closed spec fn pending(&self) -> Option<int> {
        match self.pending {
            Some(index) => Some(index as int),
            None => None,
        }
    }

    /// Every stream is well-formed, and the pending stream is one of them.
    pub open spec fn wf(&self) -> bool {
        &&& forall|i: int| 0 <= i < self.packers().len() ==> (#[trigger] self.packers()[i]).wf()
        &&& self.pending() matches Some(i) ==> i < self.packers().len()
    }

    /// No stream is closed.
    pub open spec fn all_open(&self) -> bool {
        forall|i: int|
            0 <= i < self.packers().len() ==> (#[trigger] self.packers()[i]).active is Some
    }

    /// Every stream but the pending one has a finished page waiting or has
    /// ended.
    pub open spec fn pumped(&self) -> bool {
        forall|i: int|
            0 <= i < self.packers().len() && self.pending() != Some(i) ==> (
            #[trigger] self.packers()[i]).ready()
    }

    /// A multiplexer without streams.
    pub fn new() -> (mux: Self)
        ensures
            mux.packers().len() == 0,
            mux.pending() is None,
            mux.wf(),
    {
        OgkMux { streams: Vec::new(), pending: None }
    }

    /// Adds a stream that `stream` feeds, under the serial number `serial`.
    pub fn add_stream_with_serial(&mut self, stream: Box<dyn BitstreamCoder>, serial: u32)
        ensures
            final(self).packers() == old(self).packers().push(PackerModel::new(serial)),
            final(self).pending() == old(self).pending(),
            old(self).wf() ==> final(self).wf(),
    {
        let added = MuxStream::new(stream, serial);
        self.streams.push(added);
        proof {
            assert(self.streams@.len() == old(self).streams@.len() + 1);
            assert(self.packers() =~= old(self).packers().push(PackerModel::new(serial)));
        }
    }

    /// Adds a stream that `stream` feeds, under a serial number drawn at
    /// random.
    pub fn add_stream(&mut self, stream: Box<dyn BitstreamCoder>)
        ensures
            final(self).packers().len() == old(self).packers().len() + 1,
            final(self).packers().drop_last() == old(self).packers(),
            final(self).packers().last() == PackerModel::new(
                final(self).packers().last().stream_serial,
            ),
            final(self).pending() == old(self).pending(),
            old(self).wf() ==> final(self).wf(),
    {
        let serial = random_serial();
        self.add_stream_with_serial(stream, serial);
        proof {
            assert(self.packers().drop_last() =~= old(self).packers());
        }
    }

    /// Drops the streams that have ended and hold no page.
    fn retain_live(&mut self)
        requires
            old(self).wf(),
            old(self).pumped(),
            old(self).pending() is None,
        ensures
            final(self).wf(),
            final(self).pending() is None,
            final(self).packers() == live_streams(old(self).packers()),
            forall|i: int|
                0 <= i < final(self).packers().len() ==> (#[trigger] final(self).packers()[i]).queue.len() > 0,
    {
        let mut all: Vec<MuxStream> = Vec::new();
        core::mem::swap(&mut self.streams, &mut all);
        let ghost before = old(self).packers();
        proof {
            assert(all@.map_values(|stream: MuxStream| stream.pages()) =~= before);
            assert(self.packers() =~= live_streams(before.take(0)));
        }
        for stream in it: all
            invariant
                it.seq().map_values(|stream: MuxStream| stream.pages()) == before,
                self.pending() is None,
                forall|i: int| 0 <= i < before.len() ==> (#[trigger] before[i]).wf(),
                forall|i: int| 0 <= i < before.len() ==> (#[trigger] before[i]).ready(),
                self.packers() == live_streams(before.take(it.index() as int)),
                forall|i: int|
                    0 <= i < self.packers().len() ==> (#[trigger] self.packers()[i]).wf()
                        && self.packers()[i].queue.len() > 0,
        {
            let ghost i = it.index() as int;
            let ghost kept = self.packers();
            proof {
                assert(before.take(i + 1).drop_last() =~= before.take(i));
                assert(before.take(i + 1).last() == before[i]);
                assert(stream.pages() == before[i]);
            }
            if stream.is_live() {
                self.streams.push(stream);
                proof {
                    assert(self.packers() =~= kept.push(stream.pages()));
                }
            }
        }
        proof {
            assert(before.take(before.len() as int) =~= before);
        }
    }

    /// The stream whose oldest finished page has the least position, the
    /// first of them if there are several.
    fn select(&self) -> (index: usize)
        requires
            self.packers().len() > 0,
            forall|i: int|
                0 <= i < self.packers().len() ==> (#[trigger] self.packers()[i]).queue.len() > 0,
        ensures
            is_next(self.packers(), index as int),
    {
        let mut best: usize = 0;
        proof {
            assert(self.packers()[0] == self.streams@[0].pages());
        }
        let mut least = self.streams[0].packer.peek_next().unwrap().granule_position;
        let mut j: usize = 1;
        while j < self.streams.len()
            invariant
                1 <= j <= self.streams@.len(),
                self.streams@.len() == self.packers().len(),
                best < j,
                forall|i: int|
                    0 <= i < self.packers().len() ==> (#[trigger] self.packers()[i]).queue.len()
                        > 0,
                least == self.packers()[best as int].queue[0].granule_position,
                forall|i: int|
                    0 <= i < j ==> least <= (#[trigger] self.packers()[i]).queue[0].granule_position,
                forall|i: int|
                    0 <= i < best ==> least < (#[trigger] self.packers()[i]).queue[0].granule_position,
            decreases self.streams.len() - j,
        {
            proof {
                assert(self.packers()[j as int] == self.streams@[j as int].pages());
            }
            let position = self.streams[j].packer.peek_next().unwrap().granule_position;
            if position < least {
                best = j;
                least = position;
            }
            j = j + 1;
        }
        best
    }

    /// Asks the coder of the pending stream for packets until that stream
    /// has a finished page waiting or has ended. Where the coder fails, the
    /// stream stays pending.
    pub fn pump_pending(&mut self) -> (res: Result<(), MuxError>)
        requires
            old(self).wf(),
            old(self).pumped(),
        ensures
            final(self).wf(),
            final(self).pumped(),
            final(self).packers().len() == old(self).packers().len(),
            forall|i: int|
                0 <= i < old(self).packers().len() && old(self).pending() != Some(i)
                    ==> final(self).packers()[i] == old(self).packers()[i],
            res is Ok ==> final(self).pending() is None,
            res is Err ==> final(self).pending() == old(self).pending(),
            old(self).pending() is None ==> res is Ok,
    {
        match self.pending {
            None => Ok(()),
            Some(index) => {
                let ghost before = self.packers();
                assert(before[index as int].wf());
                let pumped = self.streams[index].pump();
                proof {
                    assert(self.packers() =~= before.update(
                        index as int,
                        self.streams@[index as int].pages(),
                    ));
                }
                match pumped {
                    Ok(()) => {
                        self.pending = None;
                        Ok(())
                    },
                    Err(e) => Err(MuxError::Coder(e)),
                }
            },
        }
    }

    /// Writes the page that comes next, if any stream is live: the streams
    /// that have ended and hold no page are dropped, and of the others the
    /// one whose oldest page has the least position gives that page. It is
    /// then the pending stream.
    pub fn write_page(&mut self, writer: &mut Vec<u8>) -> (written: bool)
        requires
            old(self).wf(),
            old(self).pumped(),
            old(self).pending() is None,
        ensures
            final(self).wf(),
            final(self).pumped(),
            written <==> live_streams(old(self).packers()).len() > 0,
            !written ==> {
                &&& final(writer)@ == old(writer)@
                &&& final(self).packers().len() == 0
                &&& final(self).pending() is None
            },
            written ==> {
                &&& final(self).pending() matches Some(index)
                &&& is_next(live_streams(old(self).packers()), index)
                &&& final(writer)@ == old(writer)@ + live_streams(
                    old(self).packers(),
                )[index].queue[0].bytes()
                &&& final(self).packers() == live_streams(old(self).packers()).update(
                    index,
                    live_streams(old(self).packers())[index].without_first(),
                )
            },
    {
        self.retain_live();
        if self.streams.len() == 0 {
            return false;
        }
        let ghost live = self.packers();
        let index = self.select();
        assert(live[index as int].wf());
        let page = self.streams[index].packer.take_next().unwrap();
        proof {
            assert(self.packers() =~= live.update(index as int, live[index as int].without_first()));
            assert(live[index as int].queue[0].wf());
        }
        page.write_to(writer);
        self.pending = Some(index);
        true
    }
}

/// The pages `pages` as they stand in a stream, one after the other.
pub open spec fn pages_bytes(pages: Seq<PageModel>) -> Seq<u8>
    decreases pages.len(),
{
    if pages.len() == 0 {
        Seq::empty()
    } else {
        pages_bytes(pages.drop_last()) + pages.last().bytes()
    }
}

/// `after` is `before` with a run of whole, well-formed pages behind it.
pub open spec fn grown_by_pages(before: Seq<u8>, after: Seq<u8>) -> bool {
    exists|pages: Seq<PageModel>|
        {
            &&& forall|i: int| 0 <= i < pages.len() ==> (#[trigger] pages[i]).wf()
            &&& after == before + #[trigger] pages_bytes(pages)
        }
}

/// Writing one more page keeps a run of whole pages a run of whole pages.
proof fn lemma_one_more_page(start: Seq<u8>, before: Seq<u8>, page: PageModel)
    requires
        grown_by_pages(start, before),
        page.wf(),
    ensures
        grown_by_pages(start, before + page.bytes()),
{
    let pages = choose|pages: Seq<PageModel>|
        {
            &&& forall|i: int| 0 <= i < pages.len() ==> (#[trigger] pages[i]).wf()
            &&& before == start + #[trigger] pages_bytes(pages)
        };
    let more = pages.push(page);
    assert(more.drop_last() =~= pages);
    assert(before + page.bytes() =~= start + pages_bytes(more));
}

/// Nothing written is a run of no pages.
proof fn lemma_no_page(start: Seq<u8>)
    ensures
        grown_by_pages(start, start),
{
    let none = Seq::<PageModel>::empty();
    assert(start =~= start + pages_bytes(none));
}

impl OgkMux {
    /// Starts every stream: its headers and its first packet are asked of
    /// its coder and packed, and its first page is written. Then the pages
    /// that are finished by now are written, stream by stream, and every
    /// coder is asked for packets until its stream has a page waiting or has
    /// ended. Whatever the coders answer, only whole pages are written.
    pub fn write_headers(&mut self, writer: &mut Vec<u8>) -> (res: Result<(), MuxError>)
        requires
            old(self).wf(),
            old(self).all_open(),
            old(self).pending() is None,
        ensures
            final(self).wf(),
            final(self).pending() is None,
            final(self).packers().len() == old(self).packers().len(),
            grown_by_pages(old(writer)@, final(writer)@),
            res is Ok ==> final(self).pumped(),
            old(self).packers().len() == 0 ==> res is Ok && final(writer)@ == old(writer)@,
    {
        let count = self.streams.len();
        proof {
            lemma_no_page(writer@);
        }
        // Write headers...
        let mut i: usize = 0;
        while i < count
            invariant
                i <= count,
                count == self.streams@.len(),
                count == old(self).packers().len(),
                self.packers().len() == count,
                self.wf(),
                self.pending() is None,
                forall|j: int| i <= j < count ==> (#[trigger] self.packers()[j]).active is Some,
                grown_by_pages(old(writer)@, writer@),
                count == 0 ==> writer@ == old(writer)@,
            decreases count - i,
        {
            let ghost before = self.packers();
            assert(before[i as int].wf() && before[i as int].active is Some);
            let headers = self.streams[i].bitstream.headers();
            let first_packet = match self.streams[i].bitstream.next_frame() {
                Ok(packet) => packet,
                Err(e) => {
                    proof {
                        assert(self.packers() =~= before);
                    }
                    return Err(MuxError::Coder(e));
                },
            };
            proof {
                assert(self.packers() =~= before);
            }
            if headers.len() == 0 {
                return Err(MuxError::NoHeaders);
            }
            self.streams[i].packer.start_stream(headers, first_packet);
            let page = self.streams[i].packer.take_next().unwrap();
            proof {
                assert(self.packers() =~= before.update(i as int, self.streams@[i as int].pages()));
                lemma_one_more_page(old(writer)@, writer@, page@);
            }
            page.write_to(writer);
            i = i + 1;
        }
        // Write the remaining header packets.
        let mut i: usize = 0;
        while i < count
            invariant
                i <= count,
                count == self.streams@.len(),
                count == old(self).packers().len(),
                self.packers().len() == count,
                self.wf(),
                self.pending() is None,
                grown_by_pages(old(writer)@, writer@),
                count == 0 ==> writer@ == old(writer)@,
            decreases count - i,
        {
            loop
                invariant
                    i < count,
                    count == self.streams@.len(),
                    count == old(self).packers().len(),
                    self.packers().len() == count,
                    self.wf(),
                    self.pending() is None,
                    grown_by_pages(old(writer)@, writer@),
                decreases self.packers()[i as int].queue.len(),
            {
                let ghost before = self.packers();
                assert(before[i as int].wf());
                let next = self.streams[i].packer.take_next();
                proof {
                    assert(self.packers() =~= before.update(
                        i as int,
                        self.streams@[i as int].pages(),
                    ));
                }
                match next {
                    Some(page) => {
                        proof {
                            lemma_one_more_page(old(writer)@, writer@, page@);
                        }
                        page.write_to(writer);
                    },
                    None => {
                        break ;
                    },
                }
            }
            i = i + 1;
        }
        let mut i: usize = 0;
        while i < count
            invariant
                i <= count,
                count == self.streams@.len(),
                count == old(self).packers().len(),
                self.packers().len() == count,
                self.wf(),
                self.pending() is None,
                forall|j: int| 0 <= j < i ==> (#[trigger] self.packers()[j]).ready(),
                grown_by_pages(old(writer)@, writer@),
                count == 0 ==> writer@ == old(writer)@,
            decreases count - i,
        {
            let ghost before = self.packers();
            assert(before[i as int].wf());
            let pumped = self.streams[i].pump();
            proof {
                assert(self.packers() =~= before.update(i as int, self.streams@[i as int].pages()));
            }
            match pumped {
                Ok(()) => {},
                Err(e) => {
                    return Err(MuxError::Coder(e));
                },
            }
            i = i + 1;
        }
        Ok(())
    }

    /// Writes the streams from their start: the headers, then page after
    /// page in the order of their positions, at most `max_pages` of them.
    /// The result says whether every stream has been written to its end.
    /// Where it has not, `pump_pending` and `write_page` go on from there.
    /// Whatever the coders answer, only whole pages are written.
    pub fn write_to(&mut self, writer: &mut Vec<u8>, max_pages: usize) -> (res: Result<
        bool,
        MuxError,
    >)
        requires
            old(self).wf(),
            old(self).all_open(),
            old(self).pending() is None,
        ensures
            final(self).wf(),
            grown_by_pages(old(writer)@, final(writer)@),
            res is Ok ==> final(self).pumped(),
            res == Ok::<bool, MuxError>(true) ==> final(self).packers().len() == 0,
            old(self).packers().len() == 0 ==> res == Ok::<bool, MuxError>(max_pages > 0)
                && final(writer)@ == old(writer)@,
    {
        match self.write_headers(writer) {
            Ok(()) => {},
            Err(e) => {
                return Err(e);
            },
        }
        let mut pages: usize = 0;
        while pages < max_pages
            invariant
                self.wf(),
                self.pumped(),
                grown_by_pages(old(writer)@, writer@),
                old(self).packers().len() == 0 ==> {
                    &&& self.packers().len() == 0
                    &&& self.pending() is None
                    &&& writer@ == old(writer)@
                    &&& pages == 0
                },
            decreases max_pages - pages,
        {
            match self.pump_pending() {
                Ok(()) => {},
                Err(e) => {
                    return Err(e);
                },
            }
            let ghost live = live_streams(self.packers());
            let ghost before = writer@;
            proof {
                self.lemma_live_pages();
            }
            if !self.write_page(writer) {
                return Ok(true);
            }
            proof {
                let index = self.pending().unwrap();
                lemma_one_more_page(old(writer)@, before, live[index].queue[0]);
            }
            pages = pages + 1;
        }
        Ok(false)
    }

    /// The oldest page of every live stream is well-formed.
    proof fn lemma_live_pages(&self)
        requires
            self.wf(),
            self.pumped(),
            self.pending() is None,
        ensures
            forall|i: int|
                0 <= i < live_streams(self.packers()).len() ==> {
                    &&& (#[trigger] live_streams(self.packers())[i]).wf()
                    &&& live_streams(self.packers())[i].queue.len() > 0
                },
    {
        lemma_live_streams(self.packers());
    }
}

/// The live streams of well-formed streams that wait or have ended are
/// well-formed, and each of them has a page waiting.
proof fn lemma_live_streams(packers: Seq<PackerModel>)
    requires
        forall|i: int| 0 <= i < packers.len() ==> (#[trigger] packers[i]).wf(),
        forall|i: int| 0 <= i < packers.len() ==> (#[trigger] packers[i]).ready(),
    ensures
        forall|i: int|
            0 <= i < live_streams(packers).len() ==> {
                &&& (#[trigger] live_streams(packers)[i]).wf()
                &&& live_streams(packers)[i].queue.len() > 0
            },
    decreases packers.len(),
{
    if packers.len() > 0 {
        lemma_live_streams(packers.drop_last());
    }
}

} // verus!
