use vstd::prelude::*;

verus! {

/// Vertex attributes of a buffer, in order.
pub struct Layout {
    pub items: Vec<Item>,
}

impl Layout {
    pub fn new() -> (r: Layout)
        ensures
            r.items@.len() == 0,
    {
        Layout { items: Vec::new() }
    }

    /// This layout with one more attribute at the end.
    pub fn with(self, index: u32, format: Format, padding: Padding) -> (r: Layout)
        ensures
            r.items@ == self.items@.push(Item { index, format, padding }),
    {
        let mut items = self.items;
        items.push(Item { index, format, padding });
        Layout { items }
    }
}

/// One vertex attribute: its location, the format of its data and the padding after it.
#[derive(Copy, Clone, Debug, PartialEq, Eq, Structural)]
pub struct Item {
    pub index: u32,
    pub format: Format,
    pub padding: Padding,
}

impl Item {
    /// Bytes taken by the attribute and its padding.
    pub fn bytes(&self) -> (r: i32)
        ensures
            r == self.format.spec_bytes() + self.padding.spec_bytes(),
    {
        self.format.bytes() + self.padding.bytes()
    }
}

/// Unused bytes after an attribute: `pN` is one unused component of N bits.
#[derive(Copy, Clone, Debug, PartialEq, Eq, Structural)]
#[allow(non_camel_case_types)]
pub enum Padding {
    p0,
    p8,
    p8_p8,
    p8_p8_p8,
    p16,
    p16_p16,
    p16_p16_p16,
    p32,
    p32_p32,
    p32_p32_p32,
    p64,
    p64_p64,
    p64_p64_p64,
}

impl Padding {
    pub open spec fn spec_bytes(&self) -> i32 {
        match *self {
            Padding::p0 => 0,
            Padding::p8 => 1,
            Padding::p8_p8 | Padding::p16 => 2,
            Padding::p8_p8_p8 => 3,
            Padding::p16_p16 | Padding::p32 => 4,
            Padding::p16_p16_p16 => 6,
            Padding::p32_p32 | Padding::p64 => 8,
            Padding::p32_p32_p32 => 12,
            Padding::p64_p64 => 16,
            Padding::p64_p64_p64 => 24,
        }
    }

    /// Number of bytes of padding.
    pub fn bytes(&self) -> (r: i32)
        ensures
            r == self.spec_bytes(),
    {
        match *self {
            Padding::p0 => 0,
            Padding::p8 => 1,
            Padding::p8_p8 => 2,
            Padding::p8_p8_p8 => 3,
            Padding::p16 => 2,
            Padding::p16_p16 => 4,
            Padding::p16_p16_p16 => 6,
            Padding::p32 => 4,
            Padding::p32_p32 => 8,
            Padding::p32_p32_p32 => 12,
            Padding::p64 => 8,
            Padding::p64_p64 => 16,
            Padding::p64_p64_p64 => 24,
        }
    }
}

/// Data format of a vertex attribute: the component type, repeated once per component;
/// `_float` marks integers normalized to floats, `_rev` the packed formats.
#[derive(Copy, Clone, Debug, PartialEq, Eq, Structural)]
#[allow(non_camel_case_types)]
pub enum Format {
    i8,
    i8_i8,
    i8_i8_i8,
    i8_i8_i8_i8,
    i8_float,
    i8_i8_float,
    i8_i8_i8_float,
    i8_i8_i8_i8_float,
    i16,
    i16_i16,
    i16_i16_i16,
    i16_i16_i16_i16,
    i16_float,
    i16_i16_float,
    i16_i16_i16_float,
    i16_i16_i16_i16_float,
    i32,
    i32_i32,
    i32_i32_i32,
    i32_i32_i32_i32,
    i32_float,
    i32_i32_float,
    i32_i32_i32_float,
    i32_i32_i32_i32_float,
    u8,
    u8_u8,
    u8_u8_u8,
    u8_u8_u8_u8,
    u8_float,
    u8_u8_float,
    u8_u8_u8_float,
    u8_u8_u8_u8_float,
    u16,
    u16_u16,
    u16_u16_u16,
    u16_u16_u16_u16,
    u16_float,
    u16_u16_float,
    u16_u16_u16_float,
    u16_u16_u16_u16_float,
    u32,
    u32_u32,
    u32_u32_u32,
    u32_u32_u32_u32,
    u32_float,
    u32_u32_float,
    u32_u32_u32_float,
    u32_u32_u32_u32_float,
    float16,
    float16_float16,
    float16_float16_float16,
    float16_float16_float16_float16,
    float32,
    float32_float32,
    float32_float32_float32,
    float32_float32_float32_float32,
    float64,
    float64_float64,
    float64_float64_float64,
    float64_float64_float64_float64,
    i2_i10_i10_i10_rev,
    u2_u10_u10_u10_rev,
    u10_u11_u11_rev,
    i2_i10_i10_i10_rev_float,
    u2_u10_u10_u10_rev_float,
    u10_u11_u11_rev_float,
}

impl Format {
    /// Bytes per attribute of each format, grouped by size.
    pub open spec fn spec_bytes(&self) -> i32 {
        match *self {
            Format::i8 | Format::i8_float | Format::u8 | Format::u8_float => 1,
            Format::i8_i8 | Format::i8_i8_float | Format::i16 | Format::i16_float | Format::u8_u8 | Format::u8_u8_float | Format::u16 | Format::u16_float | Format::float16 => 2,
            Format::i8_i8_i8 | Format::i8_i8_i8_float | Format::u8_u8_u8 | Format::u8_u8_u8_float => 3,
            Format::i8_i8_i8_i8 | Format::i8_i8_i8_i8_float | Format::i16_i16 | Format::i16_i16_float | Format::i32 | Format::i32_float | Format::u8_u8_u8_u8 | Format::u8_u8_u8_u8_float | Format::u16_u16 | Format::u16_u16_float | Format::u32 | Format::u32_float | Format::float16_float16 | Format::float32 | Format::i2_i10_i10_i10_rev | Format::u2_u10_u10_u10_rev | Format::u10_u11_u11_rev | Format::i2_i10_i10_i10_rev_float | Format::u2_u10_u10_u10_rev_float | Format::u10_u11_u11_rev_float => 4,
            Format::i16_i16_i16 | Format::i16_i16_i16_float | Format::u16_u16_u16 | Format::u16_u16_u16_float | Format::float16_float16_float16 => 6,
            Format::i16_i16_i16_i16 | Format::i16_i16_i16_i16_float | Format::i32_i32 | Format::i32_i32_float | Format::u16_u16_u16_u16 | Format::u16_u16_u16_u16_float | Format::u32_u32 | Format::u32_u32_float | Format::float16_float16_float16_float16 | Format::float32_float32 | Format::float64 => 8,
            Format::i32_i32_i32 | Format::i32_i32_i32_float | Format::u32_u32_u32 | Format::u32_u32_u32_float | Format::float32_float32_float32 => 12,
            Format::i32_i32_i32_i32 | Format::i32_i32_i32_i32_float | Format::u32_u32_u32_u32 | Format::u32_u32_u32_u32_float | Format::float32_float32_float32_float32 | Format::float64_float64 => 16,
            Format::float64_float64_float64 => 24,
            Format::float64_float64_float64_float64 => 32,
        }
    }

    /// Number of bytes one attribute of this format takes.
    pub fn bytes(&self) -> (r: i32)
        ensures
            r == self.spec_bytes(),
    {
        match *self {
            Format::i8 => 1,
            Format::i8_i8 => 2,
            Format::i8_i8_i8 => 3,
            Format::i8_i8_i8_i8 => 4,
            Format::i8_float => 1,
            Format::i8_i8_float => 2,
            Format::i8_i8_i8_float => 3,
            Format::i8_i8_i8_i8_float => 4,
            Format::i16 => 2,
            Format::i16_i16 => 4,
            Format::i16_i16_i16 => 6,
            Format::i16_i16_i16_i16 => 8,
            Format::i16_float => 2,
            Format::i16_i16_float => 4,
            Format::i16_i16_i16_float => 6,
            Format::i16_i16_i16_i16_float => 8,
            Format::i32 => 4,
            Format::i32_i32 => 8,
            Format::i32_i32_i32 => 12,
            Format::i32_i32_i32_i32 => 16,
            Format::i32_float => 4,
            Format::i32_i32_float => 8,
            Format::i32_i32_i32_float => 12,
            Format::i32_i32_i32_i32_float => 16,
            Format::u8 => 1,
            Format::u8_u8 => 2,
            Format::u8_u8_u8 => 3,
            Format::u8_u8_u8_u8 => 4,
            Format::u8_float => 1,
            Format::u8_u8_float => 2,
            Format::u8_u8_u8_float => 3,
            Format::u8_u8_u8_u8_float => 4,
            Format::u16 => 2,
            Format::u16_u16 => 4,
            Format::u16_u16_u16 => 6,
            Format::u16_u16_u16_u16 => 8,
            Format::u16_float => 2,
            Format::u16_u16_float => 4,
            Format::u16_u16_u16_float => 6,
            Format::u16_u16_u16_u16_float => 8,
            Format::u32 => 4,
            Format::u32_u32 => 8,
            Format::u32_u32_u32 => 12,
            Format::u32_u32_u32_u32 => 16,
            Format::u32_float => 4,
            Format::u32_u32_float => 8,
            Format::u32_u32_u32_float => 12,
            Format::u32_u32_u32_u32_float => 16,
            Format::float16 => 2,
            Format::float16_float16 => 4,
            Format::float16_float16_float16 => 6,
            Format::float16_float16_float16_float16 => 8,
            Format::float32 => 4,
            Format::float32_float32 => 8,
            Format::float32_float32_float32 => 12,
            Format::float32_float32_float32_float32 => 16,
            Format::float64 => 8,
            Format::float64_float64 => 16,
            Format::float64_float64_float64 => 24,
            Format::float64_float64_float64_float64 => 32,
            Format::i2_i10_i10_i10_rev => 4,
            Format::u2_u10_u10_u10_rev => 4,
            Format::u10_u11_u11_rev => 4,
            Format::i2_i10_i10_i10_rev_float => 4,
            Format::u2_u10_u10_u10_rev_float => 4,
            Format::u10_u11_u11_rev_float => 4,
        }
    }
}

} // verus!
