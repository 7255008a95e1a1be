//! The SER video container: a 178-byte header, fixed-size frames, and an
//! optional trailer of one 8-byte timestamp per frame.
//!
//! The library works on the container's bytes; reading them from disk is up
//! to the caller.

use crate::timestamp::TimeStamp;
use vstd::prelude::*;

verus! {

pub const HEADER_SIZE_BYTES: usize = 178;

pub const TIMESTAMP_SIZE_BYTES: usize = 8;

/// Failures of reading a SER container.
#[derive(Debug, Copy, Clone, PartialEq, Eq, Structural)]
pub enum SerError {
    /// The header is shorter than 178 bytes, or holds a value out of range.
    MalformedHeader,
    /// The container's size differs from what its header implies.
    SizeMismatch,
    /// A frame number at or beyond the frame count.
    FrameOutOfRange,
}

#[derive(Debug, Copy, Clone, PartialEq, Eq, Structural)]
pub enum ColorFormatId {
    Mono,
    BayerRggb,
    BayerGrbg,
    BayerGbrg,
    BayerBggr,
    BayerCyym,
    BayerYcmy,
    BayerYmcy,
    BayerMyyc,
    Rgb,
    Bgr,
}

impl ColorFormatId {
    /// The number that stands for the format in a SER header.
    pub open spec fn code(self) -> int {
        match self {
            ColorFormatId::Mono => 0,
            ColorFormatId::BayerRggb => 8,
            ColorFormatId::BayerGrbg => 9,
            ColorFormatId::BayerGbrg => 10,
            ColorFormatId::BayerBggr => 11,
            ColorFormatId::BayerCyym => 16,
            ColorFormatId::BayerYcmy => 17,
            ColorFormatId::BayerYmcy => 18,
            ColorFormatId::BayerMyyc => 19,
            ColorFormatId::Rgb => 100,
            ColorFormatId::Bgr => 101,
        }
    }

    pub open spec fn is_code(v: int) -> bool {
        v == 0 || (8 <= v <= 11) || (16 <= v <= 19) || v == 100 || v == 101
    }

    pub fn from_i32(v: i32) -> (r: Option<ColorFormatId>)
        ensures
            r.is_some() <==> ColorFormatId::is_code(v as int),
            r matches Some(c) ==> c.code() == v,
    {
        match v {
            0 => Some(ColorFormatId::Mono),
            8 => Some(ColorFormatId::BayerRggb),
            9 => Some(ColorFormatId::BayerGrbg),
            10 => Some(ColorFormatId::BayerGbrg),
            11 => Some(ColorFormatId::BayerBggr),
            16 => Some(ColorFormatId::BayerCyym),
            17 => Some(ColorFormatId::BayerYcmy),
            18 => Some(ColorFormatId::BayerYmcy),
            19 => Some(ColorFormatId::BayerMyyc),
            100 => Some(ColorFormatId::Rgb),
            101 => Some(ColorFormatId::Bgr),
            _ => None,
        }
    }

    /// Formats whose frames are a colour filter mosaic.
    pub fn is_bayer(&self) -> (r: bool)
        ensures
            r <==> 8 <= self.code() <= 19,
    {
        match self {
            ColorFormatId::Mono | ColorFormatId::Rgb | ColorFormatId::Bgr => false,
            _ => true,
        }
    }
}

/// Byte order of 16-bit samples.
#[derive(Debug, Copy, Clone, PartialEq, Eq, Structural)]
pub enum Endian {
    BigEndian,
    LittleEndian,
    /// The capturing machine's order; read as little-endian, the order of
    /// every machine that writes SER captures in practice.
    NativeEndian,
}

impl Endian {
    pub open spec fn code(self) -> int {
        match self {
            Endian::BigEndian => 0,
            Endian::LittleEndian => 1,
            Endian::NativeEndian => 100,
        }
    }

    pub fn from_i32(v: i32) -> (r: Option<Endian>)
        ensures
            r.is_some() <==> (v == 0 || v == 1 || v == 100),
            r matches Some(e) ==> e.code() == v,
    {
        match v {
            0 => Some(Endian::BigEndian),
            1 => Some(Endian::LittleEndian),
            100 => Some(Endian::NativeEndian),
            _ => None,
        }
    }
}

pub open spec fn le_u16_at(b: Seq<u8>, at: int) -> int {
    b[at] + 256 * b[at + 1]
}

pub open spec fn be_u16_at(b: Seq<u8>, at: int) -> int {
    256 * b[at] + b[at + 1]
}

pub open spec fn le_u32_at(b: Seq<u8>, at: int) -> int {
    le_u16_at(b, at) + 65536 * le_u16_at(b, at + 2)
}

pub open spec fn le_i32_at(b: Seq<u8>, at: int) -> int {
    let u = le_u32_at(b, at);
    if u >= 0x8000_0000 {
        u - 0x1_0000_0000
    } else {
        u
    }
}

pub open spec fn le_u64_at(b: Seq<u8>, at: int) -> int {
    le_u32_at(b, at) + 0x1_0000_0000 * le_u32_at(b, at + 4)
}

/// The value of the sample that starts at byte `at`.
pub open spec fn sample_at(b: Seq<u8>, at: int, pixel_depth: int, endian: Endian) -> int {
    if pixel_depth == 8 {
        b[at] as int
    } else if endian == Endian::BigEndian {
        be_u16_at(b, at)
    } else {
        le_u16_at(b, at)
    }
}

/// Bytes of one frame.
pub open spec fn frame_bytes(width: int, height: int, pixel_depth: int) -> int {
    width * height * (pixel_depth / 8)
}

/// The size a container must have: header, frames and, when the size
/// exceeds header and frames, one timestamp per frame.
pub open spec fn expected_total(frame_size: int, frame_count: int, total_size: int) -> int {
    let frames_end = HEADER_SIZE_BYTES + frame_size * frame_count;
    if total_size > frames_end {
        frames_end + TIMESTAMP_SIZE_BYTES * frame_count
    } else {
        frames_end
    }
}

/// What UTF-8 decoding, with U+FFFD for each invalid sequence, makes of bytes.
pub uninterp spec fn utf8_lossy(b: Seq<u8>) -> Seq<char>;

pub open spec fn is_ascii_bytes(b: Seq<u8>) -> bool {
    forall|i: int| 0 <= i < b.len() ==> b[i] < 128
}

pub open spec fn ascii_chars(b: Seq<u8>) -> Seq<char> {
    b.map_values(|x: u8| x as char)
}

/// Relies on `String::from_utf8_lossy`: bytes decoded as UTF-8, each invalid
/// sequence replaced by U+FFFD; ASCII bytes decode to the same characters.
#[verifier::external_body]
fn decode_text(b: &Vec<u8>) -> (r: String)
    ensures
        r@ == utf8_lossy(b@),
        is_ascii_bytes(b@) ==> r@ == ascii_chars(b@),
{
    String::from_utf8_lossy(b.as_slice()).into_owned()
}

/// The header's text field of `len` bytes at `at`; trailing bytes are kept.
pub open spec fn text_at(b: Seq<u8>, at: int, len: int) -> Seq<char> {
    utf8_lossy(b.subrange(at, at + len))
}

fn read_u16_le(b: &Vec<u8>, at: usize) -> (r: u16)
    requires
        at + 2 <= b@.len(),
    ensures
        r == le_u16_at(b@, at as int),
{
    let _len = b.len();
    b[at] as u16 + 256 * (b[at + 1] as u16)
}

fn read_u16_be(b: &Vec<u8>, at: usize) -> (r: u16)
    requires
        at + 2 <= b@.len(),
    ensures
        r == be_u16_at(b@, at as int),
{
    let _len = b.len();
    256 * (b[at] as u16) + b[at + 1] as u16
}

fn read_u32_le(b: &Vec<u8>, at: usize) -> (r: u32)
    requires
        at + 4 <= b@.len(),
    ensures
        r == le_u32_at(b@, at as int),
{
    let _len = b.len();
    read_u16_le(b, at) as u32 + 65536 * (read_u16_le(b, at + 2) as u32)
}

fn read_i32_le(b: &Vec<u8>, at: usize) -> (r: i32)
    requires
        at + 4 <= b@.len(),
    ensures
        r == le_i32_at(b@, at as int),
{
    let u = read_u32_le(b, at) as i64;
    if u >= 0x8000_0000 {
        (u - 0x1_0000_0000) as i32
    } else {
        u as i32
    }
}

fn read_u64_le(b: &Vec<u8>, at: usize) -> (r: u64)
    requires
        at + 8 <= b@.len(),
    ensures
        r == le_u64_at(b@, at as int),
{
    let _len = b.len();
    let lo = read_u32_le(b, at) as u64;
    let hi = read_u32_le(b, at + 4) as u64;
    assert(0x1_0000_0000 * hi <= 0x1_0000_0000 * 0xFFFF_FFFF) by (nonlinear_arith)
        requires
            hi <= 0xFFFF_FFFF,
    ;
    lo + 0x1_0000_0000 * hi
}

fn read_text(b: &Vec<u8>, at: usize, len: usize) -> (r: String)
    requires
        at + len <= b@.len(),
    ensures
        r@ == text_at(b@, at as int, len as int),
{
    let mut bytes: Vec<u8> = Vec::new();
    let mut i: usize = 0;
    let blen = b.len();
    while i < len
        invariant
            blen == b@.len(),
            i <= len,
            at + len <= b@.len(),
            bytes@ == b@.subrange(at as int, (at + i) as int),
        decreases len - i,
    {
        bytes.push(b[at + i]);
        i += 1;
        assert(bytes@ =~= b@.subrange(at as int, (at + i) as int));
    }
    decode_text(&bytes)
}

/// One decoded frame: its samples in row-major order and its timestamp.
pub struct SerFrame {
    pub width: usize,
    pub height: usize,
    pub pixel_depth: usize,
    pub color_id: ColorFormatId,
    pub samples: Vec<u16>,
    pub timestamp: TimeStamp,
}

/// An opened SER container.
pub struct SerFile {
    pub file_id: String,
    pub camera_series_id: i32,
    pub color_id: ColorFormatId,
    pub endianness: Endian,
    pub image_width: usize,
    pub image_height: usize,
    pub pixel_depth: usize,
    pub frame_count: usize,
    pub observer: String,
    pub instrument: String,
    pub telescope: String,
    pub date_time: TimeStamp,
    pub date_time_utc: TimeStamp,
    pub total_size: usize,
    pub source_file: String,
    /// The whole container, header included.
    pub data: Vec<u8>,
}

/// The header fields that a container needs to be read: all numbers in
/// range, a depth of 8 or 16 bits, and a size that fits in memory.
pub open spec fn header_ok(b: Seq<u8>) -> bool {
    let w = le_i32_at(b, 26);
    let h = le_i32_at(b, 30);
    let d = le_i32_at(b, 34);
    let n = le_i32_at(b, 38);
    &&& b.len() >= HEADER_SIZE_BYTES
    &&& ColorFormatId::is_code(le_i32_at(b, 18))
    &&& (le_i32_at(b, 22) == 0 || le_i32_at(b, 22) == 1 || le_i32_at(b, 22) == 100)
    &&& w >= 0
    &&& h >= 0
    &&& (d == 8 || d == 16)
    &&& n >= 0
    &&& HEADER_SIZE_BYTES + frame_bytes(w, h, d) * n + TIMESTAMP_SIZE_BYTES * n <= usize::MAX
    &&& frame_bytes(w, h, d) <= usize::MAX
}

impl SerFile {
    pub open spec fn frame_size(&self) -> int {
        frame_bytes(self.image_width as int, self.image_height as int, self.pixel_depth as int)
    }

    pub open spec fn bytes(&self) -> Seq<u8> {
        self.data@
    }

    pub open spec fn wf(&self) -> bool {
        &&& self.data@.len() == self.total_size
        &&& self.total_size >= HEADER_SIZE_BYTES
        &&& (self.pixel_depth == 8 || self.pixel_depth == 16)
        &&& HEADER_SIZE_BYTES + self.frame_size() * self.frame_count + TIMESTAMP_SIZE_BYTES
            * self.frame_count <= usize::MAX
        &&& self.frame_size() <= usize::MAX
    }

    /// The container's size is the one its header implies.
    pub open spec fn is_valid(&self) -> bool {
        self.total_size == expected_total(
            self.frame_size(),
            self.frame_count as int,
            self.total_size as int,
        )
    }

    /// The fields are those that the header bytes `b` hold.
    pub open spec fn reads_header(&self, b: Seq<u8>) -> bool {
        &&& self.file_id@ == text_at(b, 0, 14)
        &&& self.camera_series_id == le_i32_at(b, 14)
        &&& self.color_id.code() == le_i32_at(b, 18)
        &&& self.endianness.code() == le_i32_at(b, 22)
        &&& self.image_width == le_i32_at(b, 26)
        &&& self.image_height == le_i32_at(b, 30)
        &&& self.pixel_depth == le_i32_at(b, 34)
        &&& self.frame_count == le_i32_at(b, 38)
        &&& self.observer@ == text_at(b, 42, 40)
        &&& self.instrument@ == text_at(b, 82, 40)
        &&& self.telescope@ == text_at(b, 122, 40)
        &&& self.date_time.decodes(le_u64_at(b, 162) as u64)
        &&& self.date_time_utc.decodes(le_u64_at(b, 170) as u64)
    }

    /// Reads the header of the container whose bytes are `data`.
    pub fn parse(data: Vec<u8>, source_file: String) -> (r: Result<SerFile, SerError>)
        ensures
            r is Ok <==> header_ok(data@),
            r is Err ==> r == Err::<SerFile, SerError>(SerError::MalformedHeader),
            r matches Ok(f) ==> {
                &&& f.wf()
                &&& f.reads_header(data@)
                &&& f.bytes() == data@
                &&& f.total_size == data@.len()
                &&& f.source_file@ == source_file@
            },
    {
        if data.len() < HEADER_SIZE_BYTES {
            return Err(SerError::MalformedHeader);
        }
        let endianness = match Endian::from_i32(read_i32_le(&data, 22)) {
            Some(e) => e,
            None => {
                return Err(SerError::MalformedHeader);
            },
        };
        let color_id = match ColorFormatId::from_i32(read_i32_le(&data, 18)) {
            Some(c) => c,
            None => {
                return Err(SerError::MalformedHeader);
            },
        };
        let w = read_i32_le(&data, 26);
        let h = read_i32_le(&data, 30);
        let d = read_i32_le(&data, 34);
        let n = read_i32_le(&data, 38);
        if w < 0 || h < 0 || n < 0 || (d != 8 && d != 16) {
            return Err(SerError::MalformedHeader);
        }
        let wu = w as u128;
        let hu = h as u128;
        let ku = (d / 8) as u128;
        assert(wu * hu < 0x4000_0000_0000_0000) by (nonlinear_arith)
            requires
                0 <= wu < 0x8000_0000,
                0 <= hu < 0x8000_0000,
        ;
        let wh = wu * hu;
        assert(wh * ku < 0x1_0000_0000_0000_0000) by (nonlinear_arith)
            requires
                0 <= wh < 0x4000_0000_0000_0000,
                1 <= ku <= 2,
        ;
        let fs: u128 = wh * ku;
        assert(fs * (n as u128) < 0x1_0000_0000_0000_0000_0000_0000) by (nonlinear_arith)
            requires
                fs < 0x1_0000_0000_0000_0000,
                0 <= n < 0x8000_0000,
        ;
        let need: u128 = 178 + fs * (n as u128) + 8 * (n as u128);
        if need > usize::MAX as u128 || fs > usize::MAX as u128 {
            return Err(SerError::MalformedHeader);
        }
        let total_size = data.len();
        let f = SerFile {
            file_id: read_text(&data, 0, 14),
            camera_series_id: read_i32_le(&data, 14),
            color_id,
            endianness,
            image_width: w as usize,
            image_height: h as usize,
            pixel_depth: d as usize,
            frame_count: n as usize,
            observer: read_text(&data, 42, 40),
            instrument: read_text(&data, 82, 40),
            telescope: read_text(&data, 122, 40),
            date_time: TimeStamp::from_u64(read_u64_le(&data, 162)),
            date_time_utc: TimeStamp::from_u64(read_u64_le(&data, 170)),
            total_size,
            source_file,
            data,
        };
        Ok(f)
    }

    /// Bytes of one frame.
    pub fn image_frame_size_bytes(&self) -> (r: usize)
        requires
            self.wf(),
        ensures
            r == self.frame_size(),
    {
        proof {
            self.lemma_frame_size_fits();
        }
        self.image_width * self.image_height * (self.pixel_depth / 8)
    }

    proof fn lemma_frame_size_fits(&self)
        requires
            self.wf(),
        ensures
            self.image_width * self.image_height <= self.frame_size(),
            self.frame_size() * self.frame_count <= usize::MAX,
            self.frame_count > 0 ==> self.frame_size() <= usize::MAX,
    {
        let a = self.image_width * self.image_height;
        let k = self.pixel_depth / 8;
        assert(a <= a * k) by (nonlinear_arith)
            requires
                a >= 0,
                k >= 1,
        ;
        let fs = self.frame_size();
        let n = self.frame_count as int;
        assert(fs >= 0) by (nonlinear_arith)
            requires
                fs == a * k,
                a >= 0,
                k >= 1,
        ;
        assert(n > 0 ==> fs <= fs * n) by (nonlinear_arith)
            requires
                fs >= 0,
        ;
        assert(fs * n >= 0) by (nonlinear_arith)
            requires
                fs >= 0,
                n >= 0,
        ;
    }

    /// Byte offset of frame `frame_num`.
    pub fn image_frame_start_index(&self, frame_num: usize) -> (r: usize)
        requires
            self.wf(),
            frame_num <= self.frame_count,
        ensures
            r == HEADER_SIZE_BYTES + self.frame_size() * frame_num,
    {
        proof {
            self.lemma_frame_size_fits();
            let fs = self.frame_size();
            assert(fs * frame_num <= fs * self.frame_count) by (nonlinear_arith)
                requires
                    fs >= 0,
                    frame_num <= self.frame_count,
            ;
            assert(fs * frame_num >= 0) by (nonlinear_arith)
                requires
                    fs >= 0,
            ;
            if frame_num > 0 {
                assert(fs <= fs * frame_num) by (nonlinear_arith)
                    requires
                        fs >= 0,
                        frame_num >= 1,
                ;
            }
        }
        if frame_num == 0 {
            return HEADER_SIZE_BYTES;
        }
        HEADER_SIZE_BYTES + (self.image_frame_size_bytes() * frame_num)
    }

    /// Byte offset of the timestamp trailer.
    pub fn timestamp_block_start_index(&self) -> (r: usize)
        requires
            self.wf(),
        ensures
            r == HEADER_SIZE_BYTES + self.frame_size() * self.frame_count,
    {
        self.image_frame_start_index(self.frame_count)
    }

    /// The container is longer than header and frames: it holds timestamps.
    pub fn has_timestamps(&self) -> (r: bool)
        requires
            self.wf(),
        ensures
            r <==> self.total_size > HEADER_SIZE_BYTES + self.frame_size() * self.frame_count,
    {
        self.total_size > self.timestamp_block_start_index()
    }

    /// Byte offset of the timestamp of frame `frame_num`.
    pub fn timestamp_start_index(&self, frame_num: usize) -> (r: usize)
        requires
            self.wf(),
            frame_num <= self.frame_count,
        ensures
            r == HEADER_SIZE_BYTES + self.frame_size() * self.frame_count + TIMESTAMP_SIZE_BYTES
                * frame_num,
    {
        let block_start = self.timestamp_block_start_index();
        block_start + (frame_num * TIMESTAMP_SIZE_BYTES)
    }

    /// The size the container must have.
    pub fn expected_size(&self) -> (r: usize)
        requires
            self.wf(),
        ensures
            r == expected_total(self.frame_size(), self.frame_count as int, self.total_size as int),
    {
        let frames_end = self.timestamp_block_start_index();
        if self.has_timestamps() {
            frames_end + TIMESTAMP_SIZE_BYTES * self.frame_count
        } else {
            frames_end
        }
    }

    /// Checks that the container's size is the one its header implies.
    pub fn validate(&self) -> (r: Result<(), SerError>)
        requires
            self.wf(),
        ensures
            r is Ok <==> self.is_valid(),
            r is Err ==> r == Err::<(), SerError>(SerError::SizeMismatch),
    {
        if self.total_size == self.expected_size() {
            Ok(())
        } else {
            Err(SerError::SizeMismatch)
        }
    }

    /// The tick count stored for frame `frame_num` in the trailer; 0 where
    /// the container has no trailer.
    pub open spec fn frame_ticks(&self, frame_num: int) -> int {
        if self.total_size > HEADER_SIZE_BYTES + self.frame_size() * self.frame_count {
            le_u64_at(
                self.data@,
                HEADER_SIZE_BYTES + self.frame_size() * self.frame_count + TIMESTAMP_SIZE_BYTES
                    * frame_num,
            )
        } else {
            0
        }
    }

    pub fn get_frame_timestamp(&self, frame_num: usize) -> (r: Result<u64, SerError>)
        requires
            self.wf(),
            self.is_valid(),
        ensures
            frame_num >= self.frame_count <==> r == Err::<u64, SerError>(SerError::FrameOutOfRange),
            frame_num < self.frame_count ==> r == Ok::<u64, SerError>(
                self.frame_ticks(frame_num as int) as u64,
            ),
    {
        if frame_num >= self.frame_count {
            return Err(SerError::FrameOutOfRange);
        }
        if !self.has_timestamps() {
            return Ok(0);
        }
        let at = self.timestamp_start_index(frame_num);
        Ok(read_u64_le(&self.data, at))
    }

    /// The samples of frame `frame_num`, in row-major order.
    pub open spec fn frame_samples(&self, frame_num: int) -> Seq<int> {
        let start = HEADER_SIZE_BYTES + self.frame_size() * frame_num;
        let bpp = self.pixel_depth as int / 8;
        Seq::new(
            (self.image_width * self.image_height) as nat,
            |i: int| sample_at(self.data@, start + i * bpp, self.pixel_depth as int, self.endianness),
        )
    }

    /// Decodes frame `frame_num`: one sample per pixel, 8 or 16 bits in the
    /// container's byte order, and the frame's timestamp.
    pub fn get_frame(&self, frame_num: usize) -> (r: Result<SerFrame, SerError>)
        requires
            self.wf(),
            self.is_valid(),
        ensures
            frame_num >= self.frame_count <==> r is Err,
            r is Err ==> r == Err::<SerFrame, SerError>(SerError::FrameOutOfRange),
            r matches Ok(fr) ==> {
                &&& fr.width == self.image_width
                &&& fr.height == self.image_height
                &&& fr.pixel_depth == self.pixel_depth
                &&& fr.color_id == self.color_id
                &&& fr.samples@.map_values(|v: u16| v as int) == self.frame_samples(frame_num as int)
                &&& fr.timestamp.decodes(self.frame_ticks(frame_num as int) as u64)
            },
    {
        if frame_num >= self.frame_count {
            return Err(SerError::FrameOutOfRange);
        }
        let ticks = match self.get_frame_timestamp(frame_num) {
            Ok(t) => t,
            Err(e) => {
                return Err(e);
            },
        };
        let start = self.image_frame_start_index(frame_num);
        let bpp = self.pixel_depth / 8;
        let count = self.image_width * self.image_height;
        let ghost fs = self.frame_size();
        proof {
            self.lemma_frame_size_fits();
            assert(start + fs <= self.total_size) by (nonlinear_arith)
                requires
                    start == HEADER_SIZE_BYTES + fs * frame_num,
                    frame_num + 1 <= self.frame_count,
                    HEADER_SIZE_BYTES + fs * self.frame_count <= self.total_size,
                    fs >= 0,
            ;
            assert(HEADER_SIZE_BYTES + fs * self.frame_count <= self.total_size);
        }
        let mut samples: Vec<u16> = Vec::new();
        let mut i: usize = 0;
        while i < count
            invariant
                self.wf(),
                i <= count,
                count == self.image_width * self.image_height,
                bpp == self.pixel_depth / 8,
                fs == count * bpp,
                start + fs <= self.total_size,
                start == HEADER_SIZE_BYTES + fs * frame_num,
                samples@.len() == i,
                forall|j: int|
                    0 <= j < i ==> samples@[j] as int == sample_at(
                        self.data@,
                        start + j * bpp,
                        self.pixel_depth as int,
                        self.endianness,
                    ),
            decreases count - i,
        {
            assert(start + i * bpp + bpp <= self.total_size) by (nonlinear_arith)
                requires
                    start + count * bpp <= self.total_size,
                    i + 1 <= count,
                    bpp >= 1,
            ;
            let at = start + i * bpp;
            let v: u16 = if self.pixel_depth == 8 {
                self.data[at] as u16
            } else {
                match self.endianness {
                    Endian::BigEndian => read_u16_be(&self.data, at),
                    _ => read_u16_le(&self.data, at),
                }
            };
            samples.push(v);
            i += 1;
        }
        assert(samples@.map_values(|v: u16| v as int) =~= self.frame_samples(frame_num as int));
        Ok(
            SerFrame {
                width: self.image_width,
                height: self.image_height,
                pixel_depth: self.pixel_depth,
                color_id: self.color_id,
                samples,
                timestamp: TimeStamp::from_u64(ticks),
            },
        )
    }
}

/// A container of the size its header implies fails validation once it is
/// one byte shorter, with or without a timestamp trailer.
pub proof fn lemma_truncated_container_fails(frame_size: int, frame_count: int, total_size: int)
    requires
        frame_size >= 0,
        frame_count >= 0,
        total_size == expected_total(frame_size, frame_count, total_size),
    ensures
        total_size - 1 != expected_total(frame_size, frame_count, total_size - 1),
{
    assert(frame_size * frame_count >= 0) by (nonlinear_arith)
        requires
            frame_size >= 0,
            frame_count >= 0,
    ;
}

} // verus!
