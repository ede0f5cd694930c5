//! CD+G sectors in an Ogg stream: the stream header, the packet types, and
//! the framing of compressed sectors into packets.

use vstd::prelude::*;
use std::io::Write;
use crate::ogg::Packet;

verus! {

/// How the sectors of a packet are stored.
#[derive(Copy, Clone, PartialEq, Debug)]
pub enum Compression {
    Uncompressed,
    LZ4,
}

/// What a packet carries.
#[derive(Copy, Clone, PartialEq, Debug)]
pub enum PacketType {
    Command,
    Keyframe,
    Other(u8),
}

impl PacketType {
    /// The type that the byte `v` stands for.
    pub open spec fn spec_from_u8(v: u8) -> PacketType {
        if v == 0 {
            PacketType::Command
        } else if v == 1 {
            PacketType::Keyframe
        } else {
            PacketType::Other(v)
        }
    }

    /// The byte that stands for the type.
    pub open spec fn spec_to_u8(self) -> u8 {
        match self {
            PacketType::Command => 0,
            PacketType::Keyframe => 1,
            PacketType::Other(v) => v,
        }
    }

    /// The type that the byte `v` stands for.
    pub fn from_u8(v: u8) -> (typ: Self)
        ensures
            typ == Self::spec_from_u8(v),
    {
        match v {
            0 => PacketType::Command,
            1 => PacketType::Keyframe,
            _ => PacketType::Other(v),
        }
    }

    /// The byte that stands for the type.
    pub fn to_u8(self) -> (v: u8)
        ensures
            v == self.spec_to_u8(),
    {
        match self {
            PacketType::Command => 0,
            PacketType::Keyframe => 1,
            PacketType::Other(v) => v,
        }
    }

    /// Every byte stands for a type that is written back as that byte.
    pub proof fn lemma_byte_round_trip(v: u8)
        ensures
            Self::spec_from_u8(v).spec_to_u8() == v,
    {
    }

    /// A type is read back from its byte as itself, unless it is an `Other`
    /// that holds the byte of `Command` or of `Keyframe`.
    pub proof fn lemma_type_round_trip(self)
        requires
            self != PacketType::Other(0),
            self != PacketType::Other(1),
        ensures
            Self::spec_from_u8(self.spec_to_u8()) == self,
    {
    }
}

/// The stream header of a CD+G stream.
pub struct CdgHeader {
    pub compression: Compression,
    pub sectors_per_packet: usize,
}

/// The nine bytes that a stream header starts with: the name of the format,
/// two zero bytes and the major version.
pub open spec fn magic() -> Seq<u8> {
    seq![79u8, 103u8, 103u8, 67u8, 68u8, 71u8, 0u8, 0u8, 0u8]
}

impl Compression {
    /// The byte that stands for the compression in a stream header.
    pub open spec fn spec_code(self) -> u8 {
        match self {
            Compression::Uncompressed => 0,
            Compression::LZ4 => 1,
        }
    }

    /// The byte that stands for the compression in a stream header.
    pub fn code(self) -> (byte: u8)
        ensures
            byte == self.spec_code(),
    {
        match self {
            Compression::Uncompressed => 0,
            Compression::LZ4 => 1,
        }
    }
}

impl CdgHeader {
    /// The twelve bytes of the header: the magic, the minor version, the
    /// compression, and one less than the sectors per packet, at most 255.
    pub open spec fn spec_to_bytes(self) -> Seq<u8> {
        magic() + seq![
            0u8,
            self.compression.spec_code(),
            if self.sectors_per_packet - 1 < 255 {
                (self.sectors_per_packet - 1) as u8
            } else {
                255u8
            },
        ]
    }

    /// The header that `buf` starts with, if it starts with one: the magic
    /// must match and the compression must be known. The minor version is
    /// not looked at.
    pub open spec fn spec_from_bytes(buf: Seq<u8>) -> Option<CdgHeader> {
        if buf.subrange(0, 9) != magic() {
            None
        } else if buf[10] == 0 {
            Some(
                CdgHeader {
                    compression: Compression::Uncompressed,
                    sectors_per_packet: (buf[11] + 1) as usize,
                },
            )
        } else if buf[10] == 1 {
            Some(
                CdgHeader {
                    compression: Compression::LZ4,
                    sectors_per_packet: (buf[11] + 1) as usize,
                },
            )
        } else {
            None
        }
    }

    /// A header with between 1 and 256 sectors per packet is read back from
    /// its bytes as itself.
    pub proof fn lemma_round_trip(self)
        requires
            1 <= self.sectors_per_packet <= 256,
        ensures
            Self::spec_from_bytes(self.spec_to_bytes()) == Some(self),
    {
        assert(self.spec_to_bytes().subrange(0, 9) =~= magic());
    }

    /// The default header: LZ4, and 75 sectors, one second, to the packet.
    pub fn new() -> (header: Self)
        ensures
            header == (CdgHeader { compression: Compression::LZ4, sectors_per_packet: 75 }),
    {
        CdgHeader { compression: Compression::LZ4, sectors_per_packet: 75 }
    }

    /// The twelve bytes of the header. There must be a sector to the packet
    /// at least.
    pub fn to_bytes(&self) -> (bytes: Vec<u8>)
        requires
            self.sectors_per_packet >= 1,
        ensures
            bytes@ == self.spec_to_bytes(),
    {
        let spp: u8 = if self.sectors_per_packet - 1 < 255 {
            (self.sectors_per_packet - 1) as u8
        } else {
            255
        };
        let bytes = vec![79, 103, 103, 67, 68, 71, 0, 0, 0, 0, self.compression.code(), spp];
        proof {
            assert(bytes@ =~= self.spec_to_bytes());
        }
        bytes
    }

    /// Reads the header that `buf`, of twelve bytes at least, starts with.
    pub fn from_bytes(buf: &[u8]) -> (header: Option<Self>)
        requires
            buf@.len() >= 12,
        ensures
            header == Self::spec_from_bytes(buf@),
    {
        let start = vec![79u8, 103, 103, 67, 68, 71, 0, 0, 0];
        let mut i: usize = 0;
        while i < 9
            invariant
                i <= 9,
                buf@.len() >= 12,
                start@ == magic(),
                forall|j: int| 0 <= j < i ==> buf@[j] == magic()[j],
            decreases 9 - i,
        {
            if buf[i] != start[i] {
                proof {
                    assert(buf@.subrange(0, 9)[i as int] == buf@[i as int]);
                }
                return None;
            }
            i = i + 1;
        }
        proof {
            assert(buf@.subrange(0, 9) =~= magic());
        }
        let compression = match buf[10] {
            0 => Compression::Uncompressed,
            1 => Compression::LZ4,
            _ => {
                return None;
            },
        };
        let spp = buf[11] as usize + 1;
        Some(CdgHeader { compression: compression, sectors_per_packet: spp })
    }
}

/// What the decoder of the `lz4` crate reads out of the LZ4 frame `input`.
pub uninterp spec fn lz4_unframe(input: Seq<u8>) -> Seq<u8>;

/// Runs `input` through an `lz4::Encoder` built with `lz4::EncoderBuilder`
/// at `level` and without content checksum, on top of the sink `output`.
/// The encoder only ever appends to its sink: where it reports no error, the
/// sink comes back starting with what it held. What the frame behind that
/// looks like is the encoder's business.
#[verifier::external_body]
fn lz4_compress(output: Vec<u8>, input: &[u8], level: u32) -> (res: Result<Vec<u8>, std::io::Error>)
    ensures
        res matches Ok(out) ==> output@.is_prefix_of(out@),
{
    let mut builder = lz4::EncoderBuilder::new();
    builder.level(level).checksum(lz4::ContentChecksum::NoChecksum);
    let mut encoder = builder.build(output)?;
    encoder.write_all(input)?;
    let (output, result) = encoder.finish();
    result?;
    Ok(output)
}

/// Reads an `lz4::Decoder` over `input` to its end with `std::io::copy`.
/// Where neither reports an error, the result is what the frame holds.
#[verifier::external_body]
fn lz4_decompress(input: &[u8]) -> (res: Result<Vec<u8>, std::io::Error>)
    ensures
        res matches Ok(out) ==> out@ == lz4_unframe(input@),
{
    let mut out = Vec::new();
    let mut decoder = lz4::Decoder::new(std::io::Cursor::new(input))?;
    std::io::copy(&mut decoder, &mut out)?;
    Ok(out)
}

/// The packet that a type byte and an unpacked payload make, or none where
/// unpacking failed.
pub fn packet_from(type_byte: u8, payload: Result<Vec<u8>, std::io::Error>) -> (res: Option<
    (PacketType, Vec<u8>),
>)
    ensures
        payload is Err ==> res is None,
        payload matches Ok(data) ==> res == Some((PacketType::spec_from_u8(type_byte), data)),
{
    let typ = PacketType::from_u8(type_byte);
    match payload {
        Ok(data) => Some((typ, data)),
        Err(_) => None,
    }
}

impl CdgHeader {
    /// The payload of a packet, unpacked as the header says.
    fn decompress_packet(&self, buf: &[u8]) -> (res: Result<Vec<u8>, std::io::Error>)
        ensures
            self.compression == Compression::Uncompressed ==> (res matches Ok(data) && data@
                == buf@),
            self.compression == Compression::LZ4 ==> (res matches Ok(data) ==> data@
                == lz4_unframe(buf@)),
    {
        match self.compression {
            Compression::Uncompressed => {
                let mut data: Vec<u8> = Vec::new();
                data.extend_from_slice(buf);
                proof {
                    assert(data@ =~= buf@);
                }
                Ok(data)
            },
            Compression::LZ4 => lz4_decompress(buf),
        }
    }

    /// Decodes a packet from the middle of the stream: its type, from the
    /// first byte, and its payload, which starts at the third. There is no
    /// packet where an LZ4 payload cannot be unpacked.
    pub fn decode_packet(&self, buf: &[u8]) -> (res: Option<(PacketType, Vec<u8>)>)
        requires
            buf@.len() >= 2,
        ensures
            self.compression == Compression::Uncompressed ==> (res matches Some(packet)
                && packet.0 == PacketType::spec_from_u8(buf@[0]) && packet.1@ == buf@.subrange(
                2,
                buf@.len() as int,
            )),
            self.compression == Compression::LZ4 ==> (res matches Some(packet) ==> packet.0
                == PacketType::spec_from_u8(buf@[0]) && packet.1@ == lz4_unframe(
                buf@.subrange(2, buf@.len() as int),
            )),
    {
        let payload = self.decompress_packet(&buf[2..buf.len()]);
        packet_from(buf[0], payload)
    }
}

/// Why a frame could not be made.
#[derive(Debug)]
pub enum FrameError {
    /// The input does not end on a sector boundary.
    IncompleteSector,
    /// The compressor failed.
    Codec(std::io::Error),
}

/// Bytes in a sector.
pub const SECTOR_SIZE: usize = 96;

/// The position of a packet in its stream: the number of the last sector in
/// the upper half, that of the last keyframe in the lower.
pub open spec fn spec_granule(frame: u64, keyframe: u64) -> u64 {
    frame << 32 | keyframe
}

/// The time in microseconds of a position, at 75 sectors to the second.
pub open spec fn spec_map_granule(granule: u64) -> u64 {
    (((granule >> 32) * 1000_000) / 75) as u64
}

/// Turns a stream of CD+G sectors into packets. It holds the source of the
/// sectors for whoever reads from it; what it is handed is the bytes read.
pub struct OggCdgCoder<R> {
    reader: R,
    packetsize: u8,
    cur_frame: u64,
    last_keyframe: u64,
}

impl<R> OggCdgCoder<R> {
    /// The source of the sectors.
    pub closed spec fn source(&self) -> R {
        self.reader
    }

    /// Sectors to the packet, at most.
    pub closed spec fn packet_size(&self) -> u8 {
        self.packetsize
    }

    /// Sectors framed so far.
    pub closed spec fn frames(&self) -> u64 {
        self.cur_frame
    }

    /// The sector of the last keyframe.
    pub closed spec fn keyframe(&self) -> u64 {
        self.last_keyframe
    }

    /// A coder at the start of a stream, with 75 sectors to the packet.
    pub fn new(reader: R) -> (coder: Self)
        ensures
            coder.source() == reader,
            coder.packet_size() == 75,
            coder.frames() == 0,
            coder.keyframe() == 0,
    {
        OggCdgCoder { reader: reader, packetsize: 75, cur_frame: 0, last_keyframe: 0 }
    }

    /// The source of the sectors, to read the next frame from.
    pub fn reader_mut(&mut self) -> (reader: &mut R)
        ensures
            *reader == old(self).source(),
            final(self).source() == *final(reader),
            final(self).packet_size() == old(self).packet_size(),
            final(self).frames() == old(self).frames(),
            final(self).keyframe() == old(self).keyframe(),
    {
        &mut self.reader
    }

    /// Gives the source of the sectors back.
    pub fn into_reader(self) -> (reader: R)
        ensures
            reader == self.source(),
    {
        self.reader
    }

    /// The one header packet of the stream: the name of the format, the
    /// version 0.0, the compression and one less than the sectors per packet.
    pub fn headers(&self) -> (headers: Vec<Vec<u8>>)
        requires
            self.packet_size() >= 1,
        ensures
            headers@.len() == 1,
            headers@[0]@ == (CdgHeader {
                compression: Compression::LZ4,
                sectors_per_packet: self.packet_size() as usize,
            }).spec_to_bytes(),
    {
        let mut header: Vec<u8> = Vec::with_capacity(14);
        header.push(79);
        header.push(103);
        header.push(103);
        header.push(67);
        header.push(68);
        header.push(71);
        header.push(0);
        header.push(0);
        header.push(0);  // Major
        header.push(0);  // Minor
        header.push(Compression::LZ4.code());
        header.push(self.packetsize - 1);
        let mut headers: Vec<Vec<u8>> = Vec::new();
        proof {
            assert(header@ =~= (CdgHeader {
                compression: Compression::LZ4,
                sectors_per_packet: self.packetsize as usize,
            }).spec_to_bytes());
        }
        headers.push(header);
        headers
    }

    /// Sectors framed so far.
    pub fn cur_frame(&self) -> (frame: u64)
        ensures
            frame == self.frames(),
    {
        self.cur_frame
    }

    /// How many bytes to read for the next frame, at most.
    pub fn frame_limit(&self) -> (limit: usize)
        ensures
            limit == self.packet_size() * 96,
    {
        self.packetsize as usize * SECTOR_SIZE
    }

    /// The packet for `sectors` sectors whose compressed form is
    /// `compressed`, which already starts with the two bytes of the packet
    /// header. The sectors are counted only where compression succeeded.
    pub fn finish_frame(&mut self, sectors: u8, compressed: Result<Vec<u8>, std::io::Error>) -> (res:
        Result<Option<Packet>, FrameError>)
        requires
            old(self).frames() + sectors <= u64::MAX,
        ensures
            final(self).source() == old(self).source(),
            final(self).packet_size() == old(self).packet_size(),
            final(self).keyframe() == old(self).keyframe(),
            compressed is Err ==> res is Err && final(self).frames() == old(self).frames(),
            compressed matches Err(e) ==> (res matches Err(FrameError::Codec(cause)) && cause == e),
            compressed matches Ok(content) ==> {
                &&& res matches Ok(Some(packet))
                &&& packet.content == content
                &&& packet.timestamp == spec_granule(
                    (old(self).frames() + sectors) as u64,
                    old(self).keyframe(),
                )
                &&& final(self).frames() == old(self).frames() + sectors
            },
    {
        match compressed {
            Err(e) => Err(FrameError::Codec(e)),
            Ok(output) => {
                self.cur_frame = self.cur_frame + sectors as u64;
                Ok(
                    Some(
                        Packet {
                            content: output,
                            timestamp: self.cur_frame << 32 | self.last_keyframe,
                        },
                    ),
                )
            },
        }
    }

    /// Frames the sectors in `input`, which is what one read of at most
    /// `frame_limit()` bytes brought: no packet at the end of the stream, an
    /// error for a broken sector, and else a packet that starts with the kind
    /// byte 0 and the number of sectors, followed by the sectors as the LZ4
    /// frame that the compressor makes of them.
    pub fn encode_frame(&mut self, input: &[u8]) -> (res: Result<Option<Packet>, FrameError>)
        requires
            input@.len() <= old(self).packet_size() * 96,
            old(self).frames() + input@.len() / 96 <= u64::MAX,
        ensures
            final(self).source() == old(self).source(),
            final(self).packet_size() == old(self).packet_size(),
            final(self).keyframe() == old(self).keyframe(),
            input@.len() % 96 != 0 ==> res matches Err(FrameError::IncompleteSector),
            input@.len() == 0 ==> res matches Ok(None),
            input@.len() % 96 != 0 || input@.len() == 0 ==> final(self).frames() == old(self).frames(),
            input@.len() % 96 == 0 && input@.len() > 0 ==> {
                &&& !(res matches Ok(None))
                &&& !(res matches Err(FrameError::IncompleteSector))
                &&& res is Err ==> final(self).frames() == old(self).frames()
                &&& res matches Ok(Some(packet)) ==> {
                    &&& seq![0u8, (input@.len() / 96) as u8].is_prefix_of(packet@.content)
                    &&& packet.timestamp == spec_granule(
                        (old(self).frames() + input@.len() / 96) as u64,
                        old(self).keyframe(),
                    )
                    &&& final(self).frames() == old(self).frames() + input@.len() / 96
                }
            },
    {
        let size = input.len();
        if size % SECTOR_SIZE != 0 {
            return Err(FrameError::IncompleteSector);
        }
        if size == 0 {
            return Ok(None);
        }
        let sectors = (size / SECTOR_SIZE) as u8;
        let mut output: Vec<u8> = Vec::new();
        output.push(0);
        output.push(sectors);
        proof {
            assert(output@ =~= seq![0u8, (input@.len() / 96) as u8]);
        }
        let compressed = lz4_compress(output, input, 9);
        self.finish_frame(sectors, compressed)
    }

    /// Maps a position to an absolute time in microseconds.
    pub fn map_granule(&self, granule: u64) -> (time: u64)
        ensures
            time == spec_map_granule(granule),
    {
        let sector = granule >> 32;
        proof {
            assert(granule >> 32 <= 0xffff_ffffu64) by (bit_vector);
        }
        sector * 1000_000 / 75
    }
}

} // verus!
