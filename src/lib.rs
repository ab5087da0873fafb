use vstd::prelude::*;

pub mod adler32;
pub mod bits;
pub mod codes;
pub mod container;
pub mod fixed;
pub mod huffman;
pub mod lz77;
pub mod resume;
pub mod stored;
pub mod window;

verus! {

/// Block type: raw bytes.
pub const STORED_BLOCK: u8 = 0;

/// Block type: fixed Huffman codes.
pub const STATIC_TREES: u8 = 1;

/// Block type: Huffman codes sent with the block.
pub const DYN_TREES: u8 = 2;

/// Preset-dictionary flag in the zlib header.
pub const PRESET_DICT: u8 = 0x20;

pub const Z_NO_COMPRESSION: i32 = 0;

pub const Z_BEST_SPEED: i32 = 1;

pub const Z_BEST_COMPRESSION: i32 = 9;

pub const Z_DEFAULT_COMPRESSION: i32 = -1;

pub const Z_FILTERED: usize = 1;

pub const Z_HUFFMAN_ONLY: usize = 2;

pub const Z_RLE: usize = 3;

pub const Z_FIXED: usize = 4;

pub const Z_DEFAULT_STRATEGY: usize = 0;

pub const Z_BINARY: usize = 0;

pub const Z_TEXT: usize = 1;

pub const Z_ASCII: usize = 1;

pub const Z_UNKNOWN: usize = 2;

/// The deflate compression method, the only one there is.
pub const Z_DEFLATED: u8 = 8;

/// Largest window: 2^15 = 32 KiB.
pub const MAX_WBITS: u8 = 15;

pub const DEF_WBITS: u8 = 15;

/// Smallest window: 2^8 = 256 bytes.
pub const MIN_WBITS: u8 = 8;

/// Which container wraps the deflate stream.
#[derive(Clone, Copy, Debug, PartialEq, Eq, Structural)]
pub enum WrapKind {
    Zlib,
    Gzip,
}

/// How much pending output a call must push out.
#[derive(Clone, Copy, Debug, PartialEq, Eq, Structural)]
pub enum Flush {
    NoFlush,
    PartialFlush,
    SyncFlush,
    FullFlush,
    Finish,
    Block,
    Trees,
}

/// Result of a call: the first three are normal outcomes, the rest errors.
#[derive(Clone, Copy, Debug, PartialEq, Eq, Structural)]
pub enum ZERR {
    Success,
    StreamEnd,
    NeedDict,
    Errno,
    StreamError,
    DataError,
}

pub open spec fn flush_code_spec(f: Flush) -> u8 {
    match f {
        Flush::NoFlush => 0,
        Flush::PartialFlush => 1,
        Flush::SyncFlush => 2,
        Flush::FullFlush => 3,
        Flush::Finish => 4,
        Flush::Block => 5,
        Flush::Trees => 6,
    }
}

impl Flush {
    /// The numeric value of the flush mode in the zlib interface.
    pub fn code(&self) -> (r: u8)
        ensures
            r == flush_code_spec(*self),
    {
        match self {
            Flush::NoFlush => 0,
            Flush::PartialFlush => 1,
            Flush::SyncFlush => 2,
            Flush::FullFlush => 3,
            Flush::Finish => 4,
            Flush::Block => 5,
            Flush::Trees => 6,
        }
    }

    /// The flush mode with the given numeric value; an unknown value is a
    /// usage error.
    pub fn from_code(c: u8) -> (r: Result<Flush, ZERR>)
        ensures
            c <= 6 ==> (r matches Ok(f) && flush_code_spec(f) == c),
            c > 6 ==> r == Err::<Flush, ZERR>(ZERR::StreamError),
    {
        match c {
            0 => Ok(Flush::NoFlush),
            1 => Ok(Flush::PartialFlush),
            2 => Ok(Flush::SyncFlush),
            3 => Ok(Flush::FullFlush),
            4 => Ok(Flush::Finish),
            5 => Ok(Flush::Block),
            6 => Ok(Flush::Trees),
            _ => Err(ZERR::StreamError),
        }
    }
}

pub open spec fn zerr_code_spec(e: ZERR) -> int {
    match e {
        ZERR::Success => 0,
        ZERR::StreamEnd => 1,
        ZERR::NeedDict => 2,
        ZERR::Errno => -1,
        ZERR::StreamError => -2,
        ZERR::DataError => -3,
    }
}

impl ZERR {
    /// The numeric value of the result in the zlib interface: negative for
    /// errors.
    pub fn code(&self) -> (r: i32)
        ensures
            r == zerr_code_spec(*self),
            r < 0 <==> (*self == ZERR::Errno || *self == ZERR::StreamError || *self
                == ZERR::DataError),
    {
        match self {
            ZERR::Success => 0,
            ZERR::StreamEnd => 1,
            ZERR::NeedDict => 2,
            ZERR::Errno => -1,
            ZERR::StreamError => -2,
            ZERR::DataError => -3,
        }
    }
}

/// The caller-visible state of a compression or decompression session.
pub struct ZStream {
    /// Index of the next input byte within the caller's input buffer.
    pub next_in: usize,
    /// Number of bytes available at `next_in`.
    pub avail_in: usize,
    /// Total number of input bytes read so far.
    pub total_in: u64,
    /// Index within the caller's output buffer where the next byte goes.
    pub next_out: usize,
    /// Remaining free space at `next_out`.
    pub avail_out: usize,
    /// Total number of bytes output so far.
    pub total_out: u64,
    /// Last error message, if any.
    pub msg: Option<String>,
    /// Best guess about the data type: binary or text.
    pub data_type: usize,
    /// Running checksum of the uncompressed data.
    pub adler: u32,
}

impl ZStream {
    /// A fresh session: empty cursors, zero counters, no message.
    pub fn new() -> (r: ZStream)
        ensures
            r.next_in == 0,
            r.avail_in == 0,
            r.total_in == 0,
            r.next_out == 0,
            r.avail_out == 0,
            r.total_out == 0,
            r.msg.is_none(),
            r.data_type == 0,
            r.adler == 0,
    {
        ZStream {
            next_in: 0,
            avail_in: 0,
            total_in: 0,
            next_out: 0,
            avail_out: 0,
            total_out: 0,
            msg: None,
            data_type: 0,
            adler: 0,
        }
    }
}

/// gzip header fields (RFC 1952), filled by the caller before compressing or
/// by the decoder while reading.
pub struct GZipHeader {
    /// True if the compressed data is believed to be text.
    pub text: bool,
    /// Modification time.
    pub time: u32,
    /// Extra flags (not used when writing a gzip file).
    pub xflags: u32,
    /// Operating system.
    pub os: u32,
    /// Length of the extra field, in bytes.
    pub extra_len: usize,
    /// Extra field data, if any.
    pub extra: Option<Box<Vec<u8>>>,
    /// File name, if any.
    pub name: Option<Box<String>>,
    /// Comment, if any.
    pub comment: Option<Box<String>>,
    /// True if there was or will be a header CRC.
    pub hcrc: bool,
    /// True when the header has been read completely.
    pub done: bool,
}

impl GZipHeader {
    /// An empty header: all flags false, all numbers zero, no optional field.
    pub fn new() -> (r: GZipHeader)
        ensures
            !r.text,
            r.time == 0,
            r.xflags == 0,
            r.os == 0,
            r.extra_len == 0,
            r.extra.is_none(),
            r.name.is_none(),
            r.comment.is_none(),
            !r.hcrc,
            !r.done,
    {
        GZipHeader {
            text: false,
            time: 0,
            xflags: 0,
            os: 0,
            extra: None,
            extra_len: 0,
            name: None,
            comment: None,
            hcrc: false,
            done: false,
        }
    }
}

/// Byte `k` (0 = least significant) of a 32-bit word.
pub open spec fn byte_of(n: u32, k: u32) -> u32 {
    (n >> (8 * k)) & 0xff
}

/// Reverses the order of the four bytes of a word.
pub fn swap32(n: u32) -> (r: u32)
    ensures
        byte_of(r, 0) == byte_of(n, 3),
        byte_of(r, 1) == byte_of(n, 2),
        byte_of(r, 2) == byte_of(n, 1),
        byte_of(r, 3) == byte_of(n, 0),
{
    let r: u32 = (n >> 24u32) | ((n >> 8u32) & 0xff00u32) | ((n << 8u32) & 0xff0000u32) | (n
        << 24u32);
    assert(((r >> 0u32) & 0xff) == ((n >> 24u32) & 0xff) && ((r >> 8u32) & 0xff) == ((n
        >> 16u32) & 0xff) && ((r >> 16u32) & 0xff) == ((n >> 8u32) & 0xff) && ((r >> 24u32)
        & 0xff) == ((n >> 0u32) & 0xff)) by (bit_vector)
        requires
            r == (n >> 24u32) | ((n >> 8u32) & 0xff00u32) | ((n << 8u32) & 0xff0000u32) | (n
                << 24u32),
    ;
    r
}

} // verus!
