//! Raw pixel images.
use vstd::prelude::*;

verus! {

#[derive(Clone, Copy, Debug, PartialEq, Eq, Hash, Structural)]
pub enum ColorFormat {
    Rgba8,
    Alpha8,
}

impl ColorFormat {
    pub open spec fn bytes_spec(self) -> u8 {
        match self {
            ColorFormat::Rgba8 => 4,
            ColorFormat::Alpha8 => 1,
        }
    }

    /// How many bytes one pixel takes.
    pub fn pixel_per_bytes(&self) -> (r: u8)
        ensures
            r == self.bytes_spec(),
    {
        match self {
            ColorFormat::Rgba8 => 4,
            ColorFormat::Alpha8 => 1,
        }
    }
}

pub struct PixelImage {
    data: Vec<u8>,
    width: u32,
    height: u32,
    format: ColorFormat,
}

impl PixelImage {
    pub closed spec fn data_view(&self) -> Seq<u8> {
        self.data@
    }

    pub closed spec fn width_view(&self) -> u32 {
        self.width
    }

    pub closed spec fn height_view(&self) -> u32 {
        self.height
    }

    pub closed spec fn format_view(&self) -> ColorFormat {
        self.format
    }

    pub fn new(data: Vec<u8>, width: u32, height: u32, format: ColorFormat) -> (r: PixelImage)
        ensures
            r.data_view() == data@,
            r.width_view() == width,
            r.height_view() == height,
            r.format_view() == format,
    {
        PixelImage { data, width, height, format }
    }

    pub fn color_format(&self) -> (r: ColorFormat)
        ensures
            r == self.format_view(),
    {
        self.format
    }

    pub fn width(&self) -> (r: u32)
        ensures
            r == self.width_view(),
    {
        self.width
    }

    pub fn height(&self) -> (r: u32)
        ensures
            r == self.height_view(),
    {
        self.height
    }

    pub fn pixel_bytes(&self) -> (r: &[u8])
        ensures
            r@ == self.data_view(),
    {
        self.data.as_slice()
    }
}

} // verus!
