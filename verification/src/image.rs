//! From sampled values to the stored image of a raster tile.

use vstd::prelude::*;

use crate::double::is_nan;
use crate::raster::{lemma_channels, ColorEncoding, IMAGE_EXTENT};

verus! {

/// What a pixel shows: the physical values there, the codes that they round to,
/// and whether the place itself is inside the data.
///
/// The two differ along the edge of a regional grid, and both are needed: the
/// value carries past the edge so that a client filtering across it blends
/// against real data rather than against a sentinel, while the flag still marks
/// where the data actually stops.
#[derive(Clone, Copy, Debug)]
pub struct Sample {
    pub values: [u64; 2],
    pub codes: [u32; 2],
    pub on_grid: bool,
}

impl Sample {
    /// The codes fit the channels of the encoding.
    pub open spec fn fits(self, encoding: ColorEncoding) -> bool {
        encoding.lacks(self.values@) || encoding.holds(self.codes@)
    }
}

/// The pixel of a place. Off the grid the value stays and only the flag says so,
/// where the encoding has one; without any value it is the gap.
pub open spec fn pixel_of(encoding: ColorEncoding, sample: Option<Sample>) -> Seq<u8> {
    match sample {
        None => encoding.gap(),
        Some(s) => {
            let rgba = if encoding.lacks(s.values@) {
                encoding.gap()
            } else {
                encoding.packed(s.codes@)
            };
            if s.on_grid || encoding is Scalar24 {
                rgba
            } else {
                rgba.update(2, encoding.gap()[2])
            }
        },
    }
}

/// The bytes of the pixels, one behind another.
pub open spec fn pixels_of(encoding: ColorEncoding, samples: Seq<Option<Sample>>) -> Seq<u8>
    decreases samples.len(),
{
    if samples.len() == 0 {
        Seq::empty()
    } else {
        pixels_of(encoding, samples.drop_last()) + pixel_of(encoding, samples.last())
    }
}

/// Some place is inside the data.
pub open spec fn is_covered(samples: Seq<Option<Sample>>) -> bool {
    exists|i: int| 0 <= i < samples.len() && (#[trigger] samples[i] matches Some(s) && s.on_grid)
}

/// Every place has its four bytes, and they are those of its own pixel.
pub proof fn lemma_pixel_place(encoding: ColorEncoding, samples: Seq<Option<Sample>>, i: int)
    requires
        0 <= i < samples.len(),
    ensures
        pixels_of(encoding, samples).len() == 4 * samples.len(),
        pixels_of(encoding, samples).subrange(4 * i, 4 * i + 4) == pixel_of(encoding, samples[i]),
    decreases samples.len(),
{
    let before = samples.drop_last();
    lemma_pixel_count(encoding, before);
    let all = pixels_of(encoding, samples);
    if i < before.len() {
        lemma_pixel_place(encoding, before, i);
        assert(all.subrange(4 * i, 4 * i + 4) =~= pixels_of(encoding, before).subrange(
            4 * i,
            4 * i + 4,
        ));
    } else {
        assert(all.subrange(4 * i, 4 * i + 4) =~= pixel_of(encoding, samples.last()));
    }
}

proof fn lemma_pixel_count(encoding: ColorEncoding, samples: Seq<Option<Sample>>)
    ensures
        pixels_of(encoding, samples).len() == 4 * samples.len(),
    decreases samples.len(),
{
    if samples.len() > 0 {
        lemma_pixel_count(encoding, samples.drop_last());
    }
}

/// Every pixel of a tile is opaque, whatever stands at its place, and away from
/// the data a masked encoding says so.
pub proof fn lemma_pixels_opaque(encoding: ColorEncoding, sample: Option<Sample>)
    requires
        sample matches Some(s) ==> s.fits(encoding),
    ensures
        pixel_of(encoding, sample)[3] == 255,
        !(encoding is Scalar24) && !(sample matches Some(s) && s.on_grid) ==> pixel_of(
            encoding,
            sample,
        )[2] == 0,
        !(encoding is Scalar24) && (sample matches Some(s) && s.on_grid && !encoding.lacks(
            s.values@,
        )) ==> pixel_of(encoding, sample)[2] == 255,
{
}

/// The pixels of a tile, or nothing where no pixel is covered, so that the
/// caller can leave the tile out of the archive entirely.
pub fn assemble_pixels(encoding: ColorEncoding, samples: &Vec<Option<Sample>>) -> (pixels: Option<
    Vec<u8>,
>)
    requires
        forall|i: int|
            0 <= i < samples@.len() ==> (#[trigger] samples@[i] matches Some(s) ==> s.fits(
                encoding,
            )),
    ensures
        match pixels {
            Some(pixels) => is_covered(samples@) && pixels@ == pixels_of(encoding, samples@),
            None => !is_covered(samples@),
        },
{
    let gap = encoding.off_grid();
    let mut pixels: Vec<u8> = Vec::new();
    let mut covered = false;
    let mut i: usize = 0;
    proof {
        assert(samples@.take(0) =~= Seq::empty());
    }
    while i < samples.len()
        invariant
            i <= samples@.len(),
            gap@ == encoding.gap(),
            pixels@ == pixels_of(encoding, samples@.take(i as int)),
            covered == exists|k: int|
                0 <= k < i && (#[trigger] samples@[k] matches Some(s) && s.on_grid),
            forall|i: int|
                0 <= i < samples@.len() ==> (#[trigger] samples@[i] matches Some(s) ==> s.fits(
                    encoding,
                )),
        decreases samples@.len() - i,
    {
        let ghost before = pixels@;
        let rgba: [u8; 4] = match samples[i] {
            Some(sample) => {
                let encoded = encoding.encode(sample.values, sample.codes);
                if sample.on_grid {
                    covered = true;
                }
                if sample.on_grid || !encoding.has_mask() {
                    encoded
                } else {
                    [encoded[0], encoded[1], gap[2], encoded[3]]
                }
            },
            None => gap,
        };
        proof {
            assert(samples@.take(i + 1).drop_last() =~= samples@.take(i as int));
            assert(samples@.take(i + 1).last() == samples@[i as int]);
            assert(rgba@ =~= pixel_of(encoding, samples@[i as int]));
        }
        pixels.push(rgba[0]);
        pixels.push(rgba[1]);
        pixels.push(rgba[2]);
        pixels.push(rgba[3]);
        proof {
            assert(pixels@ =~= before + rgba@);
        }
        i = i + 1;
    }
    assert(samples@.take(samples@.len() as int) =~= samples@);
    if covered {
        Some(pixels)
    } else {
        None
    }
}

/// Why `png` could not write an image.
#[verifier::external_type_specification]
#[verifier::external_body]
pub struct ExPngError(png::EncodingError);

/// The file that `png` writes for an image of eight-bit RGBA pixels, with its
/// fast compression.
pub uninterp spec fn png_file(pixels: Seq<u8>, width: u32, height: u32) -> Seq<u8>;

/// Writes an image into memory with `png`'s `Encoder`: `write_header`,
/// `write_image_data` and `finish`, for eight-bit RGBA at the fast compression. It
/// refuses pixels that are not as many as the extent asks for, and nothing else.
/// The file depends on the pixels and the extent alone, and is not stated. The
/// adaptive row filter that the compression selects stays in place.
#[verifier::external_body]
fn write_png(pixels: &Vec<u8>, width: u32, height: u32) -> (file: Result<
    Vec<u8>,
    png::EncodingError,
>)
    requires
        0 < width <= 0x2000,
        0 < height <= 0x2000,
    ensures
        match file {
            Ok(bytes) => {
                &&& pixels@.len() == 4 * width * height
                &&& bytes@ == png_file(pixels@, width, height)
            },
            Err(_) => pixels@.len() != 4 * width * height,
        },
{
    let mut buffer = Vec::new();
    let mut encoder = png::Encoder::new(&mut buffer, width, height);
    encoder.set_color(png::ColorType::Rgba);
    encoder.set_depth(png::BitDepth::Eight);
    encoder.set_compression(png::Compression::Fast);
    let mut writer = encoder.write_header()?;
    writer.write_image_data(pixels)?;
    writer.finish()?;
    Ok(buffer)
}

/// The pixels are not as many as a tile has.
#[derive(Debug)]
pub struct ImageError;

/// How many places the stored image of a tile has.
pub open spec fn image_places() -> int {
    IMAGE_EXTENT * IMAGE_EXTENT
}

/// The stored image of a tile.
pub fn encode_png(pixels: &Vec<u8>) -> (file: Result<Vec<u8>, ImageError>)
    ensures
        match file {
            Ok(bytes) => {
                &&& pixels@.len() == 4 * image_places()
                &&& bytes@ == png_file(pixels@, IMAGE_EXTENT, IMAGE_EXTENT)
            },
            Err(_) => pixels@.len() != 4 * image_places(),
        },
{
    match write_png(pixels, IMAGE_EXTENT, IMAGE_EXTENT) {
        Ok(bytes) => Ok(bytes),
        Err(_) => Err(ImageError),
    }
}

/// Renders the sampled values of one tile into an RGBA raster tile.
///
/// Returns `None` when no pixel is covered, so that the caller can leave the
/// tile out of the archive entirely.
pub fn render_raster_tile(encoding: ColorEncoding, samples: &Vec<Option<Sample>>) -> (tile: Result<
    Option<Vec<u8>>,
    ImageError,
>)
    requires
        forall|i: int|
            0 <= i < samples@.len() ==> (#[trigger] samples@[i] matches Some(s) ==> s.fits(
                encoding,
            )),
    ensures
        match tile {
            Ok(Some(bytes)) => {
                &&& is_covered(samples@)
                &&& samples@.len() == image_places()
                &&& bytes@ == png_file(pixels_of(encoding, samples@), IMAGE_EXTENT, IMAGE_EXTENT)
            },
            Ok(None) => !is_covered(samples@),
            Err(_) => is_covered(samples@) && samples@.len() != image_places(),
        },
{
    proof {
        lemma_pixel_count(encoding, samples@);
    }
    match assemble_pixels(encoding, samples) {
        Some(pixels) => {
            match encode_png(&pixels) {
                Ok(bytes) => Ok(Some(bytes)),
                Err(error) => Err(error),
            }
        },
        None => Ok(None),
    }
}

/// What a place of the image shows, by its four bytes. Without a value, or with one that
/// is no number, it is empty, and a vector stands in the middle; otherwise its channels
/// hold the codes of the place itself, on the grid and off it, and a blue channel that is
/// free for it tells the two apart. Every place is opaque.
pub proof fn lemma_place_shows(encoding: ColorEncoding, samples: Seq<Option<Sample>>, i: int)
    requires
        0 <= i < samples.len(),
        samples[i] matches Some(s) ==> s.fits(encoding),
    ensures
        ({
            let pixels = pixels_of(encoding, samples);
            let (red, green, blue) = (pixels[4 * i], pixels[4 * i + 1], pixels[4 * i + 2]);
            let missing = samples[i] is None || is_nan(samples[i]->0.values@[0]) || (
            encoding is VectorField && is_nan(samples[i]->0.values@[1]));
            let codes = samples[i]->0.codes@;
            &&& pixels.len() == 4 * samples.len()
            &&& pixels[4 * i + 3] == 255
            &&& missing && encoding is VectorField ==> red == 128 && green == 128 && blue == 0
            &&& missing && !(encoding is VectorField) ==> red == 0 && green == 0 && blue == 0
            &&& !missing && encoding is Scalar24 ==> red * 65536 + green * 256 + blue == codes[0]
            &&& !missing && encoding is Scalar16 ==> red * 256 + green == codes[0]
            &&& !missing && encoding is VectorField ==> red == codes[0] && green == codes[1]
            &&& !missing && !(encoding is Scalar24) ==> blue == if samples[i]->0.on_grid {
                255u8
            } else {
                0u8
            }
        }),
{
    let pixels = pixels_of(encoding, samples);
    lemma_pixel_place(encoding, samples, i);
    let place = pixels.subrange(4 * i, 4 * i + 4);
    assert(place[0] == pixels[4 * i] && place[1] == pixels[4 * i + 1] && place[2] == pixels[4 * i
        + 2] && place[3] == pixels[4 * i + 3]);
    if let Some(s) = samples[i] {
        lemma_channels(encoding, s.codes@);
    }
}

/// An image is written where any place is inside the data, and it has the places of a
/// tile with a pixel more on every side.
pub proof fn lemma_image_kept(samples: Seq<Option<Sample>>)
    ensures
        !is_covered(samples) <==> forall|i: int|
            0 <= i < samples.len() ==> (#[trigger] samples[i] is None || !samples[i]->0.on_grid),
        image_places() == (512 + 2) * (512 + 2),
{
    if forall|i: int|
        0 <= i < samples.len() ==> (#[trigger] samples[i] is None || !samples[i]->0.on_grid) {
        assert(!is_covered(samples));
    } else {
        let i = choose|i: int|
            0 <= i < samples.len() && !(#[trigger] samples[i] is None || !samples[i]->0.on_grid);
        assert(samples[i] matches Some(s) && s.on_grid);
    }
}

} // verus!
