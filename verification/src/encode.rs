//! A finished frame as a PNG stream.
//!
//! Compressing and framing the pixel bytes is the work of the `image` crate.
//! What is checked here is that the encoder is only ever handed a frame it
//! accepts, and which refusal a caller gets for one it does not.

use vstd::prelude::*;

verus! {

/// `std::io::Error`, in which the encoder reports that it gave up. Nothing
/// is known of what is inside such a value.
#[verifier::external_type_specification]
#[verifier::external_body]
pub struct ExIoError(std::io::Error);

/// Why a frame was not encoded.
#[derive(Clone, Copy, PartialEq, Eq, Debug)]
pub enum EncodeError {
    /// The frame has no columns.
    ZeroWidth,
    /// The frame has columns but no rows.
    ZeroHeight,
    /// The number of bytes is not three for each pixel.
    WrongLength,
    /// A row is longer than the encoder can address.
    RowTooLong,
    /// The frame is in order and the encoder gave up on it.
    Encoder,
}

/// The bytes of a frame of pixels: for each pixel in turn its red, its green
/// and its blue channel.
pub open spec fn rgb8_bytes(pixels: Seq<(u8, u8, u8)>) -> Seq<u8> {
    Seq::new(
        3 * pixels.len(),
        |i: int|
            if i % 3 == 0 {
                pixels[i / 3].0
            } else if i % 3 == 1 {
                pixels[i / 3].1
            } else {
                pixels[i / 3].2
            },
    )
}

/// Lays the channels of a frame's pixels out as bytes.
pub fn pack_rgb8(pixels: &Vec<(u8, u8, u8)>) -> (bytes: Vec<u8>)
    ensures
        bytes@ == rgb8_bytes(pixels@),
{
    let mut bytes: Vec<u8> = Vec::new();
    let mut at: usize = 0;
    while at < pixels.len()
        invariant
            at <= pixels@.len(),
            bytes@.len() == 3 * at,
            forall|i: int| 0 <= i < bytes@.len() ==> bytes@[i] == rgb8_bytes(pixels@)[i],
        decreases pixels@.len() - at,
    {
        let (red, green, blue) = pixels[at];
        bytes.push(red);
        bytes.push(green);
        bytes.push(blue);
        at = at + 1;
    }
    proof {
        assert(bytes@ =~= rgb8_bytes(pixels@));
    }
    bytes
}

/// The bytes of a frame that has a pixel for each place of a canvas with
/// columns and rows are never refused for their number.
pub proof fn lemma_packed_frame_has_the_length(pixels: Seq<(u8, u8, u8)>, width: u32, height: u32)
    requires
        pixels.len() == width * height,
        width > 0,
        height > 0,
    ensures
        rgb8_bytes(pixels).len() == rgb8_len(width, height),
        frame_fault(rgb8_bytes(pixels), width, height) is None || frame_fault(
            rgb8_bytes(pixels),
            width,
            height,
        ) == Some(EncodeError::RowTooLong),
{
    assert(3 * (width * height) == 3 * width * height) by (nonlinear_arith);
}

/// Number of bytes of a `width` by `height` frame with one byte for each of
/// the red, green and blue channels of a pixel.
pub open spec fn rgb8_len(width: u32, height: u32) -> int {
    3 * width * height
}

/// The encoder can count the bits of a row of `width` pixels.
pub open spec fn row_addressable(width: u32) -> bool {
    24 * width <= usize::MAX
}

/// What the encoder makes of a frame of 8-bit RGB pixels in row order, with
/// its default compression and filter: the PNG stream, or nothing where it
/// gives up.
pub uninterp spec fn png_stream(pixels: Seq<u8>, width: u32, height: u32) -> Option<Seq<u8>>;

/// Calls `image::png::PNGEncoder::encode` with the colour type `RGB(8)` on
/// an encoder that writes into a fresh byte vector, and returns what was
/// written, or the encoder's error. The frame has to have columns and rows
/// and three bytes for each pixel, so that the encoder's own size check
/// passes, and the bits of a row have to be countable, so that the
/// encoder's row arithmetic stays in range. The encoder writes into memory
/// and reads nothing but its arguments, so what comes back is the same for
/// the same frame: that outcome is what `png_stream` names. Nothing is
/// claimed of which frames it succeeds on.
#[verifier::external_body]
fn png_encode_rgb8(pixels: &[u8], width: u32, height: u32) -> (stream: Result<
    Vec<u8>,
    std::io::Error,
>)
    requires
        width > 0,
        height > 0,
        row_addressable(width),
        pixels@.len() == rgb8_len(width, height),
    ensures
        match stream {
            Ok(bytes) => png_stream(pixels@, width, height) == Some(bytes@),
            Err(_) => png_stream(pixels@, width, height) is None,
        },
{
    let mut sink: Vec<u8> = Vec::new();
    let encoder = image::png::PNGEncoder::new(&mut sink);
    match encoder.encode(pixels, width, height, image::ColorType::RGB(8)) {
        Ok(()) => Ok(sink),
        Err(error) => Err(error),
    }
}

/// What is wrong with a frame, if anything: that it has no columns, else
/// that it has no rows, else that its number of bytes is not three for each
/// pixel, else that a row cannot be addressed.
pub open spec fn frame_fault(pixels: Seq<u8>, width: u32, height: u32) -> Option<EncodeError> {
    if width == 0 {
        Some(EncodeError::ZeroWidth)
    } else if height == 0 {
        Some(EncodeError::ZeroHeight)
    } else if pixels.len() != rgb8_len(width, height) {
        Some(EncodeError::WrongLength)
    } else if !row_addressable(width) {
        Some(EncodeError::RowTooLong)
    } else {
        None
    }
}

/// Finds what is wrong with a frame of 8-bit RGB pixels, if anything.
pub fn check_frame(pixels: &[u8], width: u32, height: u32) -> (fault: Option<EncodeError>)
    ensures
        fault == frame_fault(pixels@, width, height),
{
    if width == 0 {
        return Some(EncodeError::ZeroWidth);
    }
    if height == 0 {
        return Some(EncodeError::ZeroHeight);
    }
    assert(width * height <= 0xFFFF_FFFF * 0xFFFF_FFFF) by (nonlinear_arith)
        requires
            0 <= width <= 0xFFFF_FFFF,
            0 <= height <= 0xFFFF_FFFF,
    ;
    let area: u64 = (width as u64) * (height as u64);
    let wanted: u128 = 3 * (area as u128);
    assert(wanted == rgb8_len(width, height)) by (nonlinear_arith)
        requires
            wanted == 3 * (width * height),
    ;
    if pixels.len() as u128 != wanted {
        return Some(EncodeError::WrongLength);
    }
    if (width as u64) * 24 > usize::MAX as u64 {
        return Some(EncodeError::RowTooLong);
    }
    None
}

/// What a caller gets once the encoder has run: its stream, or the word
/// that it gave up.
pub fn encoder_outcome(outcome: Result<Vec<u8>, std::io::Error>) -> (stream: Result<
    Vec<u8>,
    EncodeError,
>)
    ensures
        stream == match outcome {
            Ok(bytes) => Ok::<Vec<u8>, EncodeError>(bytes),
            Err(_) => Err::<Vec<u8>, EncodeError>(EncodeError::Encoder),
        },
{
    match outcome {
        Ok(bytes) => Ok(bytes),
        Err(_) => Err(EncodeError::Encoder),
    }
}

/// Encodes a frame of 8-bit RGB pixels, given row by row, as a PNG stream.
/// A frame with a fault is refused with that fault. For a frame without one
/// the result is what the encoder makes of it: its stream, or the word that
/// it gave up.
pub fn encode_rgb8(pixels: &[u8], width: u32, height: u32) -> (stream: Result<
    Vec<u8>,
    EncodeError,
>)
    ensures
        frame_fault(pixels@, width, height) matches Some(fault) ==> stream == Err::<
            Vec<u8>,
            EncodeError,
        >(fault),
        frame_fault(pixels@, width, height) is None ==> match stream {
            Ok(bytes) => png_stream(pixels@, width, height) == Some(bytes@),
            Err(error) => error == EncodeError::Encoder && png_stream(pixels@, width, height)
                is None,
        },
{
    match check_frame(pixels, width, height) {
        Some(fault) => Err(fault),
        None => encoder_outcome(png_encode_rgb8(pixels, width, height)),
    }
}

} // verus!
