//! Codec: lossless, deterministic conversion between an in-memory RGBA8
//! pixel buffer and a text-safe encoded form (PNG bytes in standard padded
//! base64), and back.

use vstd::prelude::*;
use base64::Engine;
use image::ImageEncoder;

verus! {

/// An in-memory pixel buffer: RGBA8 samples, `width * height * 4` bytes.
pub struct ImageBuf {
    pub width: u32,
    pub height: u32,
    pub bytes: Vec<u8>,
}

impl View for ImageBuf {
    type V = (u32, u32, Seq<u8>);

    open spec fn view(&self) -> (u32, u32, Seq<u8>) {
        (self.width, self.height, self.bytes@)
    }
}

impl ImageBuf {
    /// Well-formed: positive dimensions within what the PNG format can
    /// represent, and exactly four bytes per pixel.
    pub open spec fn wf(&self) -> bool {
        1 <= self.width <= 0x7fff_ffff && 1 <= self.height <= 0x7fff_ffff && self.bytes@.len()
            == self.width as int * self.height as int * 4
    }
}

/// Why a decode failed: the text is not base64, or the decoded bytes are not
/// a valid image stream.
#[derive(Clone, Copy, PartialEq, Eq, Structural, Debug)]
pub enum CodecError {
    InvalidEncoding,
    InvalidImage,
}

/// The PNG stream that the PNG encoder writes for the given RGBA8 buffer:
/// a deterministic function of the dimensions and pixel bytes alone.
pub uninterp spec fn png_of(width: u32, height: u32, pixels: Seq<u8>) -> Seq<u8>;

/// The standard padded base64 text of the given bytes: a deterministic
/// function of the bytes alone.
pub uninterp spec fn b64_of(bytes: Seq<u8>) -> Seq<char>;

/// Whether the bytes are a valid image stream, that is, whether the image
/// decoder (with its allocation limits lifted) accepts them: a deterministic
/// function of the bytes alone. The acceptance set is that of this build's
/// decoder: only the PNG format is compiled in here, so on a build with
/// more formats enabled this name denotes a wider set.
pub uninterp spec fn is_image_stream(bytes: Seq<u8>) -> bool;

/// Relies on `image::codecs::png::PngEncoder::write_image` with RGBA8 color:
/// it writes the PNG encoding of the pixels, a deterministic function of
/// width, height and pixel bytes; on a well-formed buffer written to memory
/// it cannot fail.
#[verifier::external_body]
pub fn image_data_to_bytes(img: &ImageBuf) -> (r: Vec<u8>)
    requires
        img.wf(),
    ensures
        r@ == png_of(img.width, img.height, img.bytes@),
{
    let mut out: Vec<u8> = Vec::new();
    image::codecs::png::PngEncoder::new(&mut out)
        .write_image(
            img.bytes.as_slice(),
            img.width,
            img.height,
            image::ExtendedColorType::Rgba8,
        )
        .unwrap();
    out
}

/// Relies on `base64::Engine::encode` with the `STANDARD` engine (padded):
/// the output text is a deterministic function of the input bytes.
#[verifier::external_body]
fn b64_encode(bytes: &Vec<u8>) -> (r: String)
    ensures
        r@ == b64_of(bytes@),
{
    base64::engine::general_purpose::STANDARD.encode(bytes.as_slice())
}

/// Relies on `base64::Engine::decode` with the `STANDARD` engine, whose
/// config requires canonical padding and rejects set trailing bits: decoding
/// succeeds exactly on the canonical encodings, and inverts `encode`.
#[verifier::external_body]
fn b64_decode(s: &str) -> (r: Option<Vec<u8>>)
    ensures
        r is None ==> forall|b: Seq<u8>| s@ != b64_of(b),
        r matches Some(v) ==> s@ == b64_of(v@) && (forall|b: Seq<u8>| s@ == b64_of(b) ==> b
            == v@),
{
    base64::engine::general_purpose::STANDARD.decode(s).ok()
}

/// Relies on `image::ImageReader` with `no_limits` (so no allocation cap
/// turns a valid stream away) and `DynamicImage::into_rgba8`: decoding
/// succeeds exactly on the streams the decoder accepts, a deterministic
/// function of the bytes alone; PNG is lossless, so the stream written from
/// an RGBA8 buffer decodes back to that buffer exactly. The decoder only
/// guarantees nonzero dimensions and four bytes per pixel; it does not
/// enforce the PNG standard's dimension ceiling, so the verified caller
/// checks that bound itself.
#[verifier::external_body]
fn png_decode(bytes: &Vec<u8>) -> (r: Option<ImageBuf>)
    ensures
        (r is Some) == is_image_stream(bytes@),
        r is None ==> forall|w: u32, h: u32, p: Seq<u8>|
            1 <= w <= 0x7fff_ffff && 1 <= h <= 0x7fff_ffff && p.len() == w as int * h as int * 4
                ==> bytes@ != png_of(w, h, p),
        r matches Some(img) ==> 1 <= img.width && 1 <= img.height && img.bytes@.len()
            == img.width as int * img.height as int * 4 && (forall|w: u32, h: u32, p: Seq<u8>|
            1 <= w <= 0x7fff_ffff && 1 <= h <= 0x7fff_ffff && p.len() == w as int * h as int * 4
                && bytes@ == png_of(w, h, p) ==> img@ == (w, h, p)),
{
    let mut reader = image::ImageReader::new(std::io::Cursor::new(bytes.as_slice()));
    reader.no_limits();
    let decoded = reader.with_guessed_format().ok().and_then(|r| r.decode().ok());
    decoded.map(|di| {
        let rgba = di.into_rgba8();
        let (width, height) = (rgba.width(), rgba.height());
        ImageBuf { width, height, bytes: rgba.into_raw() }
    })
}

/// Encodes an RGBA8 buffer into its portable text form: standard padded
/// base64 of the lossless PNG bytes. Deterministic, so the poller can detect
/// change by equality of the encoded text.
pub fn image_data_to_base64(img: &ImageBuf) -> (r: String)
    requires
        img.wf(),
    ensures
        r@ == b64_of(png_of(img.width, img.height, img.bytes@)),
{
    let bytes = image_data_to_bytes(img);
    b64_encode(&bytes)
}

/// Everything a decode of the text `s` must satisfy: an encoded well-formed
/// buffer decodes back to exactly that buffer; success yields a well-formed
/// buffer; `InvalidEncoding` comes exactly when `s` is not base64;
/// `InvalidImage` comes only on base64 input, and is owed whenever the
/// decoded bytes are no valid image stream. (A stream the decoder accepts
/// but whose declared dimensions exceed the PNG standard's ceiling is also
/// `InvalidImage`; with no spec-level name for a stream's dimensions, that
/// case keeps the two implications from being an equivalence.)
pub open spec fn decode_post(s: Seq<char>, r: Result<ImageBuf, CodecError>) -> bool {
    &&& forall|w: u32, h: u32, p: Seq<u8>|
        1 <= w <= 0x7fff_ffff && 1 <= h <= 0x7fff_ffff && p.len() == w as int * h as int * 4
            && s == b64_of(png_of(w, h, p)) ==> (r matches Ok(img) && img@ == (w, h, p))
    &&& (r matches Ok(img) ==> img.wf())
    &&& ((r is Err && r->Err_0 == CodecError::InvalidEncoding) <==> !(exists|b: Seq<u8>|
        s == b64_of(b)))
    &&& ((r is Err && r->Err_0 == CodecError::InvalidImage) ==> exists|b: Seq<u8>| s == b64_of(b))
    &&& ((exists|b: Seq<u8>| s == b64_of(b) && !is_image_stream(b)) ==> (r is Err && r->Err_0
        == CodecError::InvalidImage))
}

/// Decodes the portable text form back into the exact pixel buffer.
/// Fails with `InvalidEncoding` exactly when the text is not base64, and
/// with `InvalidImage` when the decoded bytes are not a valid image stream
/// or declare dimensions beyond the PNG standard's ceiling.
pub fn base64_str_to_image_data(s: &str) -> (r: Result<ImageBuf, CodecError>)
    ensures
        decode_post(s@, r),
{
    match b64_decode(s) {
        None => Err(CodecError::InvalidEncoding),
        Some(bytes) => {
            match png_decode(&bytes) {
                None => Err(CodecError::InvalidImage),
                Some(img) => {
                    if img.width <= 0x7fff_ffff && img.height <= 0x7fff_ffff {
                        Ok(img)
                    } else {
                        Err(CodecError::InvalidImage)
                    }
                },
            }
        },
    }
}

/// Codec round-trip law: decoding the encoding of any well-formed RGBA8
/// buffer succeeds and returns the buffer exactly, pixel for pixel and
/// dimension for dimension.
pub fn encode_decode_round_trip(img: &ImageBuf) -> (r: Result<ImageBuf, CodecError>)
    requires
        img.wf(),
    ensures
        r matches Ok(out) && out@ == img@,
{
    let text = image_data_to_base64(img);
    base64_str_to_image_data(text.as_str())
}

} // verus!
