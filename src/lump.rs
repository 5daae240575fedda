//! Records of the lumps of a compiled map file, read from little-endian
//! bytes.
use vstd::prelude::*;

verus! {

/// A record ended before all of its bytes were there.
#[derive(Clone, Copy, Debug, PartialEq, Eq, Structural)]
pub enum LumpReadError {
    UnexpectedEof,
}

/// The little-endian value of two bytes.
pub open spec fn le_u16(b0: u8, b1: u8) -> int {
    b0 as int + 256 * b1 as int
}

/// The little-endian value of four bytes.
pub open spec fn le_u32(b0: u8, b1: u8, b2: u8, b3: u8) -> int {
    b0 as int + 256 * b1 as int + 65536 * b2 as int + 16777216 * b3 as int
}

/// The byte as a two's complement signed value.
pub open spec fn as_signed(b: u8) -> int {
    if b < 128 {
        b as int
    } else {
        b as int - 256
    }
}

fn read_u8(data: &[u8], pos: usize) -> (r: Result<(u8, usize), LumpReadError>)
    ensures
        match r {
            Ok((v, next)) => pos < data@.len() && v == data@[pos as int] && next == pos + 1,
            Err(_) => pos >= data@.len(),
        },
{
    if pos < data.len() {
        Ok((data[pos], pos + 1))
    } else {
        Err(LumpReadError::UnexpectedEof)
    }
}

fn read_u16_le(data: &[u8], pos: usize) -> (r: Result<(u16, usize), LumpReadError>)
    ensures
        match r {
            Ok((v, next)) => pos + 2 <= data@.len() && v == le_u16(data@[pos as int], data@[pos + 1])
                && next == pos + 2,
            Err(_) => pos + 2 > data@.len(),
        },
{
    if pos < data.len() && data.len() - pos >= 2 {
        let v = data[pos] as u16 + 256 * (data[pos + 1] as u16);
        Ok((v, pos + 2))
    } else {
        Err(LumpReadError::UnexpectedEof)
    }
}

fn read_u32_le(data: &[u8], pos: usize) -> (r: Result<(u32, usize), LumpReadError>)
    ensures
        match r {
            Ok((v, next)) => pos + 4 <= data@.len() && v == le_u32(
                data@[pos as int],
                data@[pos + 1],
                data@[pos + 2],
                data@[pos + 3],
            ) && next == pos + 4,
            Err(_) => pos + 4 > data@.len(),
        },
{
    if pos < data.len() && data.len() - pos >= 4 {
        let v = data[pos] as u32 + 256 * (data[pos + 1] as u32) + 65536 * (data[pos + 2] as u32)
            + 16777216 * (data[pos + 3] as u32);
        Ok((v, pos + 4))
    } else {
        Err(LumpReadError::UnexpectedEof)
    }
}

fn signed(b: u8) -> (r: i8)
    ensures
        r as int == as_signed(b),
{
    if b < 128 {
        b as i8
    } else {
        (b as i16 - 256) as i8
    }
}

/// A light colour: three channels and a shared power-of-two exponent.
#[derive(Clone, Copy, Debug, PartialEq, Eq, Structural, Default)]
pub struct ColorRGBExp32 {
    pub r: u8,
    pub g: u8,
    pub b: u8,
    pub exponent: i8,
}

impl ColorRGBExp32 {
    /// The record's length in bytes: the three channels, one unused byte,
    /// then the exponent.
    pub open spec fn spec_size() -> int {
        5
    }

    /// The colour whose record starts at `pos`.
    pub open spec fn spec_at(data: Seq<u8>, pos: int) -> ColorRGBExp32 {
        ColorRGBExp32 {
            r: data[pos],
            g: data[pos + 1],
            b: data[pos + 2],
            exponent: as_signed(data[pos + 4]) as i8,
        }
    }

    /// Reads the colour whose record starts at `pos`, and returns it with
    /// the position after the record.
    pub fn read(data: &[u8], pos: usize) -> (r: Result<(ColorRGBExp32, usize), LumpReadError>)
        ensures
            match r {
                Ok((c, next)) => pos + Self::spec_size() <= data@.len() && c == Self::spec_at(data@, pos as int)
                    && next == pos + Self::spec_size(),
                Err(_) => pos + Self::spec_size() > data@.len(),
            },
    {
        let (r, pos) = read_u8(data, pos)?;
        let (g, pos) = read_u8(data, pos)?;
        let (b, pos) = read_u8(data, pos)?;
        let (_unused, pos) = read_u8(data, pos)?;
        let (e, pos) = read_u8(data, pos)?;
        Ok((ColorRGBExp32 { r, g, b, exponent: signed(e) }, pos))
    }
}

/// Ambient light arriving from each of the six axis directions.
#[derive(Clone, Copy, Debug, Default)]
pub struct CompressedLightCube {
    pub color: [ColorRGBExp32; 6],
}

impl CompressedLightCube {
    pub open spec fn spec_size() -> int {
        6 * ColorRGBExp32::spec_size()
    }

    /// Reads the six colours whose records start at `pos`, one after the
    /// other.
    pub fn read(data: &[u8], pos: usize) -> (r: Result<(CompressedLightCube, usize), LumpReadError>)
        ensures
            match r {
                Ok((cube, next)) => {
                    &&& pos + Self::spec_size() <= data@.len()
                    &&& next == pos + Self::spec_size()
                    &&& forall|i: int|
                        0 <= i < 6 ==> #[trigger] cube.color@[i] == ColorRGBExp32::spec_at(
                            data@,
                            pos + i * ColorRGBExp32::spec_size(),
                        )
                },
                Err(_) => pos + Self::spec_size() > data@.len(),
            },
    {
        let mut colors: [ColorRGBExp32; 6] = [ColorRGBExp32 { r: 0, g: 0, b: 0, exponent: 0 }; 6];
        let mut cursor = pos;
        let mut i: usize = 0;
        while i < 6
            invariant
                i <= 6,
                cursor == pos + i * ColorRGBExp32::spec_size(),
                i > 0 ==> pos + i * ColorRGBExp32::spec_size() <= data@.len(),
                forall|j: int|
                    0 <= j < i ==> #[trigger] colors@[j] == ColorRGBExp32::spec_at(
                        data@,
                        pos + j * ColorRGBExp32::spec_size(),
                    ),
            decreases 6 - i,
        {
            let (color, next) = ColorRGBExp32::read(data, cursor)?;
            colors[i] = color;
            cursor = next;
            i = i + 1;
        }
        Ok((CompressedLightCube { color: colors }, cursor))
    }
}

/// An entry of the vertex normal index lump.
#[derive(Clone, Copy, Debug, PartialEq, Eq, Structural, Hash)]
pub struct VertexNormalIndex {
    pub index: u32,
}

impl VertexNormalIndex {
    /// Reads the little-endian index at `pos`.
    pub fn read(data: &[u8], pos: usize) -> (r: Result<(VertexNormalIndex, usize), LumpReadError>)
        ensures
            match r {
                Ok((v, next)) => pos + 4 <= data@.len() && v.index == le_u32(
                    data@[pos as int],
                    data@[pos + 1],
                    data@[pos + 2],
                    data@[pos + 3],
                ) && next == pos + 4,
                Err(_) => pos + 4 > data@.len(),
            },
    {
        let (index, next) = read_u32_le(data, pos)?;
        Ok((VertexNormalIndex { index }, next))
    }
}

/// An entry of the leaf brush lump: the index of a brush.
#[derive(Clone, Copy, Debug, PartialEq, Eq, Structural, Hash)]
pub struct LeafBrush {
    pub index: u16,
}

impl LeafBrush {
    /// Reads the little-endian index at `pos`.
    pub fn read(data: &[u8], pos: usize) -> (r: Result<(LeafBrush, usize), LumpReadError>)
        ensures
            match r {
                Ok((v, next)) => pos + 2 <= data@.len() && v.index == le_u16(data@[pos as int], data@[pos + 1])
                    && next == pos + 2,
                Err(_) => pos + 2 > data@.len(),
            },
    {
        let (index, next) = read_u16_le(data, pos)?;
        Ok((LeafBrush { index }, next))
    }
}

} // verus!
