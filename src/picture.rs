use vstd::prelude::*;

verus! {

/// The JPEG encoding of the picture that the file bytes `b` hold, or `None`
/// when they hold no picture in a format this build reads, or encoding fails.
pub uninterp spec fn jpeg_of(b: Seq<u8>) -> Option<Seq<u8>>;

/// Relies on `image::load_from_memory`, which decodes the picture the bytes
/// hold, and `DynamicImage::write_to` with `ImageFormat::Jpeg`, which encodes
/// it. The result depends on the bytes alone.
#[verifier::external_body]
pub(crate) fn transcode_jpeg(b: &Vec<u8>) -> (r: Option<Vec<u8>>)
    ensures
        match r {
            Some(v) => jpeg_of(b@) == Some(v@),
            None => jpeg_of(b@) is None,
        },
{
    let picture = image::load_from_memory(b).ok()?;
    let mut out: Vec<u8> = Vec::new();
    picture.write_to(&mut std::io::Cursor::new(&mut out), image::ImageFormat::Jpeg).ok()?;
    Some(out)
}

} // verus!
