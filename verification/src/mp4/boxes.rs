//! Box structure: a box is a 32-bit size, a four-character type and a body.
use vstd::prelude::*;
use crate::bytes::{be32, read_u32, read_u64, slice, u32_at, u64_at, views};

verus! {

broadcast use crate::bytes::group_be_len;

pub const FTYP: u32 = 0x6674_7970;
pub const STYP: u32 = 0x7374_7970;
pub const MOOV: u32 = 0x6d6f_6f76;
pub const MDAT: u32 = 0x6d64_6174;
pub const MVHD: u32 = 0x6d76_6864;
pub const TRAK: u32 = 0x7472_616b;
pub const TKHD: u32 = 0x746b_6864;
pub const MDIA: u32 = 0x6d64_6961;
pub const MDHD: u32 = 0x6d64_6864;
pub const HDLR: u32 = 0x6864_6c72;
pub const MINF: u32 = 0x6d69_6e66;
pub const VMHD: u32 = 0x766d_6864;
pub const SMHD: u32 = 0x736d_6864;
pub const DINF: u32 = 0x6469_6e66;
pub const DREF: u32 = 0x6472_6566;
pub const URL_: u32 = 0x7572_6c20;
pub const STBL: u32 = 0x7374_626c;
pub const STSD: u32 = 0x7374_7364;
pub const STTS: u32 = 0x7374_7473;
pub const STSC: u32 = 0x7374_7363;
pub const STSZ: u32 = 0x7374_737a;
pub const STCO: u32 = 0x7374_636f;
pub const CO64: u32 = 0x636f_3634;
pub const STSS: u32 = 0x7374_7373;
pub const AVC1: u32 = 0x6176_6331;
pub const AVC3: u32 = 0x6176_6333;
pub const HVC1: u32 = 0x6876_6331;
pub const HEV1: u32 = 0x6865_7631;
pub const MP4A: u32 = 0x6d70_3461;
pub const AVCC: u32 = 0x6176_6343;
pub const HVCC: u32 = 0x6876_6343;
pub const ESDS: u32 = 0x6573_6473;
pub const MOOF: u32 = 0x6d6f_6f66;
pub const MFHD: u32 = 0x6d66_6864;
pub const TRAF: u32 = 0x7472_6166;
pub const TFHD: u32 = 0x7466_6864;
pub const TFDT: u32 = 0x7466_6474;
pub const TRUN: u32 = 0x7472_756e;
pub const VIDE: u32 = 0x7669_6465;
pub const SOUN: u32 = 0x736f_756e;

/// Why a file could not be parsed.
#[derive(Debug, Clone, Copy, PartialEq, Eq, Structural)]
pub enum Mp4Error {
    /// A box announces a 64-bit size that does not fit in the data.
    TruncatedHeader,
    /// A mandatory box is absent.
    MissingBox(u32),
    /// A box is too short for what it announces.
    Truncated(u32),
    /// A track has no time base.
    ZeroTimescale,
    /// The sample description holds no entry.
    NoSampleEntry,
    /// The sample entry names no supported codec.
    UnsupportedCodec,
    /// The tables of a track disagree on how many samples there are.
    SampleCountMismatch,
    /// The samples do not fit in the file.
    SamplesExceedFile,
    /// The position of a sample cannot be represented.
    OffsetOverflow,
    /// No track of the file can be played.
    NoTracks,
}

/// A box found in a buffer: its type and its body.
pub struct Mp4Box<'a> {
    pub kind: u32,
    pub body: &'a [u8],
}

/// The model of a box.
#[verifier::ext_equal]
pub struct BoxModel {
    pub kind: u32,
    pub body: Seq<u8>,
}

impl<'a> View for Mp4Box<'a> {
    type V = BoxModel;

    open spec fn view(&self) -> BoxModel {
        BoxModel { kind: self.kind, body: self.body@ }
    }
}

/// Total size and header length of the box at the start of `data`: the header
/// takes 16 bytes when the 32-bit size is 1 and a 64-bit size follows the type.
pub open spec fn box_header(data: Seq<u8>) -> Result<(int, int), Mp4Error> {
    if data.len() < 8 {
        Err(Mp4Error::TruncatedHeader)
    } else if u32_at(data, 0) != 1 {
        Ok((u32_at(data, 0), 8))
    } else if data.len() < 16 {
        Err(Mp4Error::TruncatedHeader)
    } else {
        Ok((u64_at(data, 8), 16))
    }
}

/// The boxes of `data`, one after the other, up to the first whose size does
/// not make sense there.
pub open spec fn boxes_of(data: Seq<u8>) -> Result<Seq<BoxModel>, Mp4Error>
    decreases data.len(),
{
    if data.len() < 8 {
        Ok(Seq::empty())
    } else {
        match box_header(data) {
            Err(e) => Err(e),
            Ok((size, header)) => if size < header || size > data.len() {
                Ok(Seq::empty())
            } else {
                match boxes_of(data.skip(size)) {
                    Err(e) => Err(e),
                    Ok(rest) => Ok(
                        seq![
                            BoxModel {
                                kind: u32_at(data, 4) as u32,
                                body: data.subrange(header, size),
                            },
                        ] + rest,
                    ),
                }
            },
        }
    }
}

/// The body of the last box of the given type.
pub open spec fn last_box(boxes: Seq<BoxModel>, kind: u32) -> Option<Seq<u8>>
    decreases boxes.len(),
{
    if boxes.len() == 0 {
        None
    } else if boxes.last().kind == kind {
        Some(boxes.last().body)
    } else {
        last_box(boxes.drop_last(), kind)
    }
}

/// The bytes of a box.
#[verifier::opaque]
pub open spec fn box_bytes(kind: u32, body: Seq<u8>) -> Seq<u8> {
    be32(8 + body.len() as int) + be32(kind as int) + body
}

/// A box takes eight bytes more than its body.
pub proof fn lemma_box_len(kind: u32, body: Seq<u8>)
    ensures
        box_bytes(kind, body).len() == 8 + body.len(),
{
    reveal(box_bytes);
}

/// Reads the header of the box at the start of `data`: total size and header
/// length.
pub fn read_box_header(data: &[u8]) -> (r: Result<(u64, usize), Mp4Error>)
    ensures
        match (r, box_header(data@)) {
            (Ok(a), Ok(b)) => a.0 == b.0 && a.1 == b.1,
            (Err(a), Err(b)) => a == b,
            _ => false,
        },
{
    if data.len() < 8 {
        return Err(Mp4Error::TruncatedHeader);
    }
    let size32: u32 = read_u32(data, 0);
    if size32 == 1 {
        if data.len() < 16 {
            return Err(Mp4Error::TruncatedHeader);
        }
        Ok((read_u64(data, 8), 16))
    } else {
        Ok((size32 as u64, 8))
    }
}

/// A buffer that holds boxes.
pub struct BoxCursor<'a> {
    pub data: &'a [u8],
}

impl<'a> BoxCursor<'a> {
    pub fn new(data: &'a [u8]) -> (r: Self)
        ensures
            r.data@ == data@,
    {
        Self { data }
    }

    /// All boxes of the buffer in document order, siblings of one type
    /// included.
    pub fn walk_top_boxes_vec(&self) -> (r: Result<Vec<Mp4Box<'a>>, Mp4Error>)
        ensures
            match (r, boxes_of(self.data@)) {
                (Ok(a), Ok(b)) => views(a@) == b,
                (Err(a), Err(b)) => a == b,
                _ => false,
            },
    {
        let data = self.data;
        let mut out: Vec<Mp4Box<'a>> = Vec::new();
        let mut pos: usize = 0;
        proof {
            assert(data@.skip(0) =~= data@);
        }
        while pos <= data.len() && data.len() - pos >= 8
            invariant
                data@ == self.data@,
                pos <= data@.len(),
                match (boxes_of(data@.skip(pos as int)), boxes_of(data@)) {
                    (Ok(rest), Ok(all)) => views(out@) + rest == all,
                    (Err(a), Err(b)) => a == b,
                    _ => false,
                },
            ensures
                match boxes_of(data@) {
                    Ok(all) => views(out@) == all,
                    Err(_) => false,
                },
            decreases data@.len() - pos,
        {
            let rest = slice(data, pos, data.len());
            assert(rest@ =~= data@.skip(pos as int));
            let (size, header) = match read_box_header(rest) {
                Ok(h) => h,
                Err(e) => {
                    return Err(e);
                },
            };
            if size < header as u64 || size > rest.len() as u64 {
                assert(views(out@) + Seq::<BoxModel>::empty() =~= views(
                    out@,
                ));
                break;
            }
            let size: usize = size as usize;
            let found = Mp4Box { kind: read_u32(rest, 4), body: slice(
                rest,
                header,
                size,
            ) };
            let ghost before = views(out@);
            out.push(found);
            proof {
                assert(rest@.skip(size as int) =~= data@.skip(pos + size));
                assert(views(out@) =~= before.push(found@));
                if let Ok(tail) = boxes_of(rest@.skip(size as int)) {
                    assert(before + (seq![found@] + tail) =~= before.push(found@) + tail);
                }
            }
            pos = pos + size;
        }
        Ok(out)
    }
}

/// The body of the last box of the given type.
pub fn last_body<'a>(boxes: &Vec<Mp4Box<'a>>, kind: u32) -> (r: Option<&'a [u8]>)
    ensures
        match (r, last_box(views(boxes@), kind)) {
            (Some(a), Some(b)) => a@ == b,
            (None, None) => true,
            _ => false,
        },
{
    let mut n: usize = boxes.len();
    proof {
        assert(views(boxes@).take(n as int) =~= views(boxes@));
    }
    while n > 0
        invariant
            n <= boxes@.len(),
            last_box(views(boxes@).take(n as int), kind) == last_box(views(boxes@), kind),
        decreases n,
    {
        proof {
            assert(views(boxes@).take(n as int).drop_last() =~= views(boxes@).take(n - 1));
        }
        if boxes[n - 1].kind == kind {
            return Some(boxes[n - 1].body);
        }
        n = n - 1;
    }
    None
}

} // verus!
