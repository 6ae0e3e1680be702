//! The BMP header region: the fixed 46-byte prefix and the opaque gap that
//! runs up to the pixel data offset.
//!
//! `width`, `height`, `hres` and `vres` are stored as the raw little-endian
//! 32-bit field values; decoding rejects images whose width or height is
//! negative when read as a signed field, so only non-negative values occur
//! in well-formed images (bottom-up row order only).

use vstd::prelude::*;
use crate::le::{
    byte16,
    byte32,
    le16,
    le32,
    lemma_bytes_of_le16,
    lemma_bytes_of_le32,
    lemma_le16_of_bytes,
    lemma_le32_of_bytes,
    push_u16,
    push_u32,
    read_u16,
    read_u32,
};

verus! {

/// The parsed header region of a BMP file.
#[derive(Debug, PartialEq, Eq)]
pub struct Header {
    pub bmp_ident: (u8, u8),
    pub file_size: u32,
    pub reserved1: (u8, u8),
    pub reserved2: (u8, u8),
    pub offset: u32,
    pub header_size: u32,
    pub width: u32,
    pub height: u32,
    pub color_planes: u16,
    pub bits_per_pixel: u16,
    pub compression: u32,
    pub pixel_image_size: u32,
    pub hres: u32,
    pub vres: u32,
    pub gap: Vec<u8>,
}

/// The mathematical model of a header.
#[verifier::ext_equal]
pub ghost struct HeaderV {
    pub bmp_ident: (u8, u8),
    pub file_size: u32,
    pub reserved1: (u8, u8),
    pub reserved2: (u8, u8),
    pub offset: u32,
    pub header_size: u32,
    pub width: u32,
    pub height: u32,
    pub color_planes: u16,
    pub bits_per_pixel: u16,
    pub compression: u32,
    pub pixel_image_size: u32,
    pub hres: u32,
    pub vres: u32,
    pub gap: Seq<u8>,
}

impl View for Header {
    type V = HeaderV;

    open spec fn view(&self) -> HeaderV {
        HeaderV {
            bmp_ident: self.bmp_ident,
            file_size: self.file_size,
            reserved1: self.reserved1,
            reserved2: self.reserved2,
            offset: self.offset,
            header_size: self.header_size,
            width: self.width,
            height: self.height,
            color_planes: self.color_planes,
            bits_per_pixel: self.bits_per_pixel,
            compression: self.compression,
            pixel_image_size: self.pixel_image_size,
            hres: self.hres,
            vres: self.vres,
            gap: self.gap@,
        }
    }
}

/// The pixel data offset declared at byte 10 of the file.
pub open spec fn spec_offset_of(b: Seq<u8>) -> int {
    le32(b[10], b[11], b[12], b[13])
}

/// The header parsed from the first `spec_offset_of(b)` bytes of `b`.
pub open spec fn spec_header_of(b: Seq<u8>) -> HeaderV {
    HeaderV {
        bmp_ident: (b[0], b[1]),
        file_size: le32(b[2], b[3], b[4], b[5]) as u32,
        reserved1: (b[6], b[7]),
        reserved2: (b[8], b[9]),
        offset: le32(b[10], b[11], b[12], b[13]) as u32,
        header_size: le32(b[14], b[15], b[16], b[17]) as u32,
        width: le32(b[18], b[19], b[20], b[21]) as u32,
        height: le32(b[22], b[23], b[24], b[25]) as u32,
        color_planes: le16(b[26], b[27]) as u16,
        bits_per_pixel: le16(b[28], b[29]) as u16,
        compression: le32(b[30], b[31], b[32], b[33]) as u32,
        pixel_image_size: le32(b[34], b[35], b[36], b[37]) as u32,
        hres: le32(b[38], b[39], b[40], b[41]) as u32,
        vres: le32(b[42], b[43], b[44], b[45]) as u32,
        gap: b.subrange(46, spec_offset_of(b)),
    }
}

/// Byte `i` of the serialized header region.
pub open spec fn header_byte(h: HeaderV, i: int) -> u8 {
    if i == 0 {
        h.bmp_ident.0
    } else if i == 1 {
        h.bmp_ident.1
    } else if i < 6 {
        byte32(h.file_size, i - 2)
    } else if i == 6 {
        h.reserved1.0
    } else if i == 7 {
        h.reserved1.1
    } else if i == 8 {
        h.reserved2.0
    } else if i == 9 {
        h.reserved2.1
    } else if i < 14 {
        byte32(h.offset, i - 10)
    } else if i < 18 {
        byte32(h.header_size, i - 14)
    } else if i < 22 {
        byte32(h.width, i - 18)
    } else if i < 26 {
        byte32(h.height, i - 22)
    } else if i < 28 {
        byte16(h.color_planes, i - 26)
    } else if i < 30 {
        byte16(h.bits_per_pixel, i - 28)
    } else if i < 34 {
        byte32(h.compression, i - 30)
    } else if i < 38 {
        byte32(h.pixel_image_size, i - 34)
    } else if i < 42 {
        byte32(h.hres, i - 38)
    } else if i < 46 {
        byte32(h.vres, i - 42)
    } else {
        h.gap[i - 46]
    }
}

/// The serialized header region: 46 fixed bytes followed by the gap.
pub open spec fn spec_header_bytes(h: HeaderV) -> Seq<u8> {
    Seq::new((46 + h.gap.len()) as nat, |i: int| header_byte(h, i))
}

/// The structural invariant of a header: the pixel data starts right after
/// the fixed region and the gap.
pub open spec fn wf_header(h: HeaderV) -> bool {
    h.offset == 46 + h.gap.len()
}

/// The byte buffer is long enough to hold the fixed region and the gap.
pub open spec fn header_region_ok(b: Seq<u8>) -> bool {
    &&& b.len() >= 46
    &&& 46 <= spec_offset_of(b) <= b.len()
}

/// Re-serializing a parsed header reproduces the header region bytes.
pub proof fn lemma_header_bytes_of(b: Seq<u8>)
    requires
        header_region_ok(b),
    ensures
        wf_header(spec_header_of(b)),
        spec_header_bytes(spec_header_of(b)) == b.subrange(0, spec_offset_of(b)),
{
    let h = spec_header_of(b);
    lemma_le32_of_bytes(b[2], b[3], b[4], b[5]);
    lemma_le32_of_bytes(b[10], b[11], b[12], b[13]);
    lemma_le32_of_bytes(b[14], b[15], b[16], b[17]);
    lemma_le32_of_bytes(b[18], b[19], b[20], b[21]);
    lemma_le32_of_bytes(b[22], b[23], b[24], b[25]);
    lemma_le16_of_bytes(b[26], b[27]);
    lemma_le16_of_bytes(b[28], b[29]);
    lemma_le32_of_bytes(b[30], b[31], b[32], b[33]);
    lemma_le32_of_bytes(b[34], b[35], b[36], b[37]);
    lemma_le32_of_bytes(b[38], b[39], b[40], b[41]);
    lemma_le32_of_bytes(b[42], b[43], b[44], b[45]);
    assert(spec_header_bytes(h) =~= b.subrange(0, spec_offset_of(b)));
}

/// Parsing a serialized well-formed header recovers the header.
pub proof fn lemma_header_of_bytes(h: HeaderV, b: Seq<u8>)
    requires
        wf_header(h),
        b.len() >= h.offset,
        b.subrange(0, h.offset as int) == spec_header_bytes(h),
    ensures
        spec_header_of(b) == h,
{
    let p = b.subrange(0, h.offset as int);
    assert forall|i: int| 0 <= i < h.offset implies #[trigger] b[i] == header_byte(h, i) by {
        assert(0 <= i < p.len());
        assert(p[i] == b[i]);
        assert(spec_header_bytes(h).len() == 46 + h.gap.len());
        assert(spec_header_bytes(h)[i] == header_byte(h, i));
        assert(p[i] == spec_header_bytes(h)[i]);
    }
    lemma_bytes_of_le32(h.file_size);
    lemma_bytes_of_le32(h.offset);
    lemma_bytes_of_le32(h.header_size);
    lemma_bytes_of_le32(h.width);
    lemma_bytes_of_le32(h.height);
    lemma_bytes_of_le16(h.color_planes);
    lemma_bytes_of_le16(h.bits_per_pixel);
    lemma_bytes_of_le32(h.compression);
    lemma_bytes_of_le32(h.pixel_image_size);
    lemma_bytes_of_le32(h.hres);
    lemma_bytes_of_le32(h.vres);
    assert(spec_offset_of(b) == h.offset);
    assert(spec_header_of(b).gap =~= h.gap);
    assert(spec_header_of(b) =~= h);
}

/// Parses the header region.  The caller has checked that the buffer covers
/// the fixed region and the declared gap.
pub fn decode_header(bytes: &Vec<u8>) -> (r: Header)
    requires
        header_region_ok(bytes@),
    ensures
        r@ == spec_header_of(bytes@),
        wf_header(r@),
{
    let off = read_u32(bytes[10], bytes[11], bytes[12], bytes[13]);
    let mut gap: Vec<u8> = Vec::new();
    let mut i: usize = 46;
    while i < off as usize
        invariant
            46 <= i <= off,
            off <= bytes@.len(),
            off == spec_offset_of(bytes@),
            gap@ == bytes@.subrange(46, i as int),
        decreases off - i,
    {
        gap.push(bytes[i]);
        proof {
            assert(gap@ =~= bytes@.subrange(46, i + 1));
        }
        i = i + 1;
    }
    proof {
        assert(gap@ =~= bytes@.subrange(46, spec_offset_of(bytes@)));
    }
    Header {
        bmp_ident: (bytes[0], bytes[1]),
        file_size: read_u32(bytes[2], bytes[3], bytes[4], bytes[5]),
        reserved1: (bytes[6], bytes[7]),
        reserved2: (bytes[8], bytes[9]),
        offset: off,
        header_size: read_u32(bytes[14], bytes[15], bytes[16], bytes[17]),
        width: read_u32(bytes[18], bytes[19], bytes[20], bytes[21]),
        height: read_u32(bytes[22], bytes[23], bytes[24], bytes[25]),
        color_planes: read_u16(bytes[26], bytes[27]),
        bits_per_pixel: read_u16(bytes[28], bytes[29]),
        compression: read_u32(bytes[30], bytes[31], bytes[32], bytes[33]),
        pixel_image_size: read_u32(bytes[34], bytes[35], bytes[36], bytes[37]),
        hres: read_u32(bytes[38], bytes[39], bytes[40], bytes[41]),
        vres: read_u32(bytes[42], bytes[43], bytes[44], bytes[45]),
        gap,
    }
}

/// Appends the serialized header region to `out`.
pub fn encode_header(h: &Header, out: &mut Vec<u8>)
    ensures
        final(out)@ == old(out)@ + spec_header_bytes(h@),
{
    out.push(h.bmp_ident.0);
    out.push(h.bmp_ident.1);
    push_u32(out, h.file_size);
    out.push(h.reserved1.0);
    out.push(h.reserved1.1);
    out.push(h.reserved2.0);
    out.push(h.reserved2.1);
    push_u32(out, h.offset);
    push_u32(out, h.header_size);
    push_u32(out, h.width);
    push_u32(out, h.height);
    push_u16(out, h.color_planes);
    push_u16(out, h.bits_per_pixel);
    push_u32(out, h.compression);
    push_u32(out, h.pixel_image_size);
    push_u32(out, h.hres);
    push_u32(out, h.vres);
    let ghost fixed = out@;
    proof {
        assert(fixed.len() == old(out)@.len() + 46);
        assert(forall|k: int|
            0 <= k < 46 ==> fixed[old(out)@.len() + k] == header_byte(h@, k));
    }
    let n = h.gap.len();
    let mut i: usize = 0;
    while i < n
        invariant
            i <= n,
            n == h.gap@.len(),
            out@ == fixed + h.gap@.subrange(0, i as int),
        decreases n - i,
    {
        out.push(h.gap[i]);
        proof {
            assert(out@ =~= fixed + h.gap@.subrange(0, i + 1));
        }
        i = i + 1;
    }
    proof {
        assert(out@ =~= old(out)@ + spec_header_bytes(h@));
    }
}

} // verus!
