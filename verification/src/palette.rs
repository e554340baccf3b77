//! The fixed reference palette: an ordered list of RGB colors that bricks
//! may be quantized to when "match to palette" is requested. Eight grays and
//! two rings of twelve hues, one bright and one dark; all entries are
//! pairwise distinct in HSV, so every palette color matches itself.

use vstd::prelude::*;

verus! {

use crate::color::Rgba;

pub open spec fn rgb(r: u8, g: u8, b: u8) -> Rgba {
    Rgba { r, g, b, a: 255 }
}

/// The palette's contents, in order.
pub open spec fn default_palette_spec() -> Seq<Rgba> {
    seq![
        rgb(0, 0, 0),
        rgb(36, 36, 36),
        rgb(72, 72, 72),
        rgb(109, 109, 109),
        rgb(145, 145, 145),
        rgb(182, 182, 182),
        rgb(218, 218, 218),
        rgb(255, 255, 255),
        rgb(255, 0, 0),
        rgb(255, 128, 0),
        rgb(255, 255, 0),
        rgb(128, 255, 0),
        rgb(0, 255, 0),
        rgb(0, 255, 128),
        rgb(0, 255, 255),
        rgb(0, 128, 255),
        rgb(0, 0, 255),
        rgb(128, 0, 255),
        rgb(255, 0, 255),
        rgb(255, 0, 128),
        rgb(128, 0, 0),
        rgb(128, 64, 0),
        rgb(128, 128, 0),
        rgb(64, 128, 0),
        rgb(0, 128, 0),
        rgb(0, 128, 64),
        rgb(0, 128, 128),
        rgb(0, 64, 128),
        rgb(0, 0, 128),
        rgb(64, 0, 128),
        rgb(128, 0, 128),
        rgb(128, 0, 64),
    ]
}

/// Builds the default palette.
pub fn default_palette() -> (p: Vec<Rgba>)
    ensures
        p@ == default_palette_spec(),
        p@.len() == 32,
{
    let mut p: Vec<Rgba> = Vec::new();
    p.push(Rgba { r: 0, g: 0, b: 0, a: 255 });
    p.push(Rgba { r: 36, g: 36, b: 36, a: 255 });
    p.push(Rgba { r: 72, g: 72, b: 72, a: 255 });
    p.push(Rgba { r: 109, g: 109, b: 109, a: 255 });
    p.push(Rgba { r: 145, g: 145, b: 145, a: 255 });
    p.push(Rgba { r: 182, g: 182, b: 182, a: 255 });
    p.push(Rgba { r: 218, g: 218, b: 218, a: 255 });
    p.push(Rgba { r: 255, g: 255, b: 255, a: 255 });
    p.push(Rgba { r: 255, g: 0, b: 0, a: 255 });
    p.push(Rgba { r: 255, g: 128, b: 0, a: 255 });
    p.push(Rgba { r: 255, g: 255, b: 0, a: 255 });
    p.push(Rgba { r: 128, g: 255, b: 0, a: 255 });
    p.push(Rgba { r: 0, g: 255, b: 0, a: 255 });
    p.push(Rgba { r: 0, g: 255, b: 128, a: 255 });
    p.push(Rgba { r: 0, g: 255, b: 255, a: 255 });
    p.push(Rgba { r: 0, g: 128, b: 255, a: 255 });
    p.push(Rgba { r: 0, g: 0, b: 255, a: 255 });
    p.push(Rgba { r: 128, g: 0, b: 255, a: 255 });
    p.push(Rgba { r: 255, g: 0, b: 255, a: 255 });
    p.push(Rgba { r: 255, g: 0, b: 128, a: 255 });
    p.push(Rgba { r: 128, g: 0, b: 0, a: 255 });
    p.push(Rgba { r: 128, g: 64, b: 0, a: 255 });
    p.push(Rgba { r: 128, g: 128, b: 0, a: 255 });
    p.push(Rgba { r: 64, g: 128, b: 0, a: 255 });
    p.push(Rgba { r: 0, g: 128, b: 0, a: 255 });
    p.push(Rgba { r: 0, g: 128, b: 64, a: 255 });
    p.push(Rgba { r: 0, g: 128, b: 128, a: 255 });
    p.push(Rgba { r: 0, g: 64, b: 128, a: 255 });
    p.push(Rgba { r: 0, g: 0, b: 128, a: 255 });
    p.push(Rgba { r: 64, g: 0, b: 128, a: 255 });
    p.push(Rgba { r: 128, g: 0, b: 128, a: 255 });
    p.push(Rgba { r: 128, g: 0, b: 64, a: 255 });
    proof {
        assert(p@ =~= default_palette_spec());
    }
    p
}

} // verus!
