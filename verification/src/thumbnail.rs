//! Grid thumbnails: a preview turned the way its photo says and shrunk to
//! the size the caller asked for. Decoding, turning, shrinking and encoding
//! are the `image` crate's; reading the orientation tag is `kamadak-exif`'s.
use vstd::prelude::*;
use image::DynamicImage;

verus! {

#[verifier::external_type_specification]
#[verifier::external_body]
pub struct ExDynamicImage(image::DynamicImage);

/// What `kamadak-exif` reads as the primary image's `Orientation` (its first
/// value, as an unsigned integer) from these bytes; none where they carry no
/// readable EXIF or no such tag.
pub uninterp spec fn exif_orientation_of(bytes: Seq<u8>) -> Option<u32>;

/// The width and height of the image that `image::load_from_memory`
/// decodes from these bytes; none where it decodes none.
pub uninterp spec fn decoded_size_of(bytes: Seq<u8>) -> Option<(u32, u32)>;

/// Whether these bytes decode as an image.
pub open spec fn image_decodes(bytes: Seq<u8>) -> bool {
    decoded_size_of(bytes) is Some
}

/// `exif::Reader::read_from_container` over the bytes, then the primary
/// image's `Orientation` field read with `Value::get_uint(0)`. The value is
/// named, not spelled out.
#[verifier::external_body]
fn read_exif_orientation(bytes: &[u8]) -> (r: Option<u32>)
    ensures
        r == exif_orientation_of(bytes@),
{
    let data = match exif::Reader::new().read_from_container(&mut std::io::Cursor::new(bytes)) {
        Ok(data) => data,
        Err(_) => return None,
    };
    match data.get_field(exif::Tag::Orientation, exif::In::PRIMARY) {
        Some(field) => field.value.get_uint(0),
        None => None,
    }
}

/// An image's pixels as rows from the top, each pixel from the left and
/// each pixel its 8-bit channels (the crate is built to decode JPEG only,
/// whose images are grey, grey with alpha, RGB or RGBA at 8 bits a channel,
/// so the channel count tells the colour type).
pub open spec fn grid_sized(g: Seq<Seq<Seq<u8>>>, width: u32, height: u32) -> bool {
    g.len() == height && forall|r: int| 0 <= r < g.len() ==> #[trigger] g[r].len() == width
}

/// The pixels of the image `image::load_from_memory` decodes from these
/// bytes.
pub uninterp spec fn decoded_grid_of(bytes: Seq<u8>) -> Seq<Seq<Seq<u8>>>;

/// The pixels `DynamicImage::thumbnail(edge, edge)` makes of an image with
/// these pixels (each output pixel the average of the source pixels it
/// covers).
pub uninterp spec fn thumbnail_grid_of(grid: Seq<Seq<Seq<u8>>>, edge: u32) -> Seq<Seq<Seq<u8>>>;

/// The bytes `DynamicImage::write_to` writes for an image with these
/// pixels as a JPEG (the encoder's default quality).
pub uninterp spec fn jpeg_of(grid: Seq<Seq<Seq<u8>>>) -> Seq<u8>;

/// Mirrored left to right: `imageops::flip_horizontal` puts the pixel at
/// `(x, y)` at `(width - 1 - x, y)`.
pub open spec fn mirrored(g: Seq<Seq<Seq<u8>>>, width: u32, height: u32) -> Seq<Seq<Seq<u8>>> {
    Seq::new(height as nat, |r: int| Seq::new(width as nat, |c: int| g[r][width - 1 - c]))
}

/// Flipped top to bottom: `imageops::flip_vertical` puts the pixel at
/// `(x, y)` at `(x, height - 1 - y)`.
pub open spec fn flipped(g: Seq<Seq<Seq<u8>>>, width: u32, height: u32) -> Seq<Seq<Seq<u8>>> {
    Seq::new(height as nat, |r: int| Seq::new(width as nat, |c: int| g[height - 1 - r][c]))
}

/// Turned a quarter clockwise: `imageops::rotate90` puts the pixel at
/// `(x, y)` at `(height - 1 - y, x)` of an image `height` wide.
pub open spec fn quarter_cw(g: Seq<Seq<Seq<u8>>>, width: u32, height: u32) -> Seq<Seq<Seq<u8>>> {
    Seq::new(width as nat, |r: int| Seq::new(height as nat, |c: int| g[height - 1 - c][r]))
}

/// Turned half round: `imageops::rotate180` puts the pixel at `(x, y)` at
/// `(width - 1 - x, height - 1 - y)`.
pub open spec fn half_turn(g: Seq<Seq<Seq<u8>>>, width: u32, height: u32) -> Seq<Seq<Seq<u8>>> {
    Seq::new(height as nat, |r: int| Seq::new(width as nat, |c: int| g[height - 1 - r][width - 1 - c]))
}

/// Turned a quarter counter-clockwise: `imageops::rotate270` puts the pixel
/// at `(x, y)` at `(y, width - 1 - x)` of an image `height` wide.
pub open spec fn quarter_ccw(g: Seq<Seq<Seq<u8>>>, width: u32, height: u32) -> Seq<Seq<Seq<u8>>> {
    Seq::new(width as nat, |r: int| Seq::new(height as nat, |c: int| g[c][width - 1 - r]))
}

/// The pixels of a `width` by `height` image turned the way an EXIF
/// orientation value says: 2 mirrors it, 3 turns it half round, 4 flips it,
/// 5 and 7 turn it a quarter clockwise then mirror or flip it, 6 turns it a
/// quarter clockwise, 8 a quarter counter-clockwise, and anything else
/// leaves it as it is.
pub open spec fn oriented(g: Seq<Seq<Seq<u8>>>, width: u32, height: u32, orientation: u32) -> Seq<
    Seq<Seq<u8>>,
> {
    if orientation == 2 {
        mirrored(g, width, height)
    } else if orientation == 3 {
        half_turn(g, width, height)
    } else if orientation == 4 {
        flipped(g, width, height)
    } else if orientation == 5 {
        mirrored(quarter_cw(g, width, height), height, width)
    } else if orientation == 6 {
        quarter_cw(g, width, height)
    } else if orientation == 7 {
        flipped(quarter_cw(g, width, height), height, width)
    } else if orientation == 8 {
        quarter_ccw(g, width, height)
    } else {
        g
    }
}

/// A decoded image with its width and height as plain values, and its
/// pixels as a ghost: what the thumbnail logic reads of it. Each is made by
/// a call below that reads the size off the image it holds.
struct Picture {
    image: DynamicImage,
    width: u32,
    height: u32,
    grid: Ghost<Seq<Seq<Seq<u8>>>>,
}

/// `image::load_from_memory` (the format guessed from the bytes), with the
/// decoded image's `width()`, `height()` and pixels (an image buffer holds
/// `width` times `height` of them); none where it fails.
#[verifier::external_body]
fn load_image(bytes: &[u8]) -> (r: Option<Picture>)
    ensures
        match r {
            Some(p) => decoded_size_of(bytes@) == Some((p.width, p.height)) && p.grid@ == decoded_grid_of(bytes@)
                && grid_sized(p.grid@, p.width, p.height),
            None => decoded_size_of(bytes@) is None,
        },
{
    match image::load_from_memory(bytes) {
        Ok(image) => Some(
            Picture { width: image.width(), height: image.height(), image, grid: Ghost(decoded_grid_of(bytes@)) },
        ),
        Err(_) => None,
    }
}

/// `DynamicImage::fliph`: `imageops::flip_horizontal` into a buffer of the
/// input's size.
#[verifier::external_body]
fn flip_horizontal(p: &Picture) -> (r: Picture)
    ensures
        r.width == p.width && r.height == p.height,
        r.grid@ == mirrored(p.grid@, p.width, p.height),
{
    let image = p.image.fliph();
    Picture { width: image.width(), height: image.height(), image, grid: Ghost(mirrored(p.grid@, p.width, p.height)) }
}

/// `DynamicImage::flipv`: `imageops::flip_vertical` into a buffer of the
/// input's size.
#[verifier::external_body]
fn flip_vertical(p: &Picture) -> (r: Picture)
    ensures
        r.width == p.width && r.height == p.height,
        r.grid@ == flipped(p.grid@, p.width, p.height),
{
    let image = p.image.flipv();
    Picture { width: image.width(), height: image.height(), image, grid: Ghost(flipped(p.grid@, p.width, p.height)) }
}

/// `DynamicImage::rotate90` (clockwise): `imageops::rotate90` into a buffer
/// `height` wide and `width` high.
#[verifier::external_body]
fn rotate_90(p: &Picture) -> (r: Picture)
    ensures
        r.width == p.height && r.height == p.width,
        r.grid@ == quarter_cw(p.grid@, p.width, p.height),
{
    let image = p.image.rotate90();
    Picture {
        width: image.width(),
        height: image.height(),
        image,
        grid: Ghost(quarter_cw(p.grid@, p.width, p.height)),
    }
}

/// `DynamicImage::rotate180`: `imageops::rotate180` into a buffer of the
/// input's size.
#[verifier::external_body]
fn rotate_180(p: &Picture) -> (r: Picture)
    ensures
        r.width == p.width && r.height == p.height,
        r.grid@ == half_turn(p.grid@, p.width, p.height),
{
    let image = p.image.rotate180();
    Picture { width: image.width(), height: image.height(), image, grid: Ghost(half_turn(p.grid@, p.width, p.height)) }
}

/// `DynamicImage::rotate270` (clockwise, so a quarter counter-clockwise):
/// `imageops::rotate270` into a buffer `height` wide and `width` high.
#[verifier::external_body]
fn rotate_270(p: &Picture) -> (r: Picture)
    ensures
        r.width == p.height && r.height == p.width,
        r.grid@ == quarter_ccw(p.grid@, p.width, p.height),
{
    let image = p.image.rotate270();
    Picture {
        width: image.width(),
        height: image.height(),
        image,
        grid: Ghost(quarter_ccw(p.grid@, p.width, p.height)),
    }
}

/// The longest side a thumbnail fitted to `edge` can have: the crate never
/// makes a side shorter than one pixel.
pub open spec fn fitted_edge(edge: u32) -> u32 {
    if edge == 0 {
        1
    } else {
        edge
    }
}

/// The size `DynamicImage::thumbnail(edge, edge)` scales a `width` by
/// `height` image to: the aspect ratio kept, the largest that fits a square
/// of that edge, each side at least one pixel (computed in floating point
/// from these three values alone).
pub uninterp spec fn thumbnail_size_of(width: u32, height: u32, edge: u32) -> (u32, u32);

/// `DynamicImage::thumbnail(edge, edge)`: the image scaled to
/// `thumbnail_size_of` its size and the edge, which fits a square of that
/// edge with each side at least one pixel (as its documentation says). The
/// rounded size itself is named, not spelled out.
#[verifier::external_body]
fn shrink_to_fit(p: &Picture, edge: u32) -> (r: Picture)
    ensures
        (r.width, r.height) == thumbnail_size_of(p.width, p.height, edge),
        1 <= r.width <= fitted_edge(edge),
        1 <= r.height <= fitted_edge(edge),
        r.grid@ == thumbnail_grid_of(p.grid@, edge),
{
    let image = p.image.thumbnail(edge, edge);
    Picture { width: image.width(), height: image.height(), image, grid: Ghost(thumbnail_grid_of(p.grid@, edge)) }
}

/// `DynamicImage::write_to` with `ImageFormat::Jpeg` into a byte buffer:
/// the JPEG, or none where encoding fails. The encoder refuses only a side
/// of zero or over 65535 pixels (writing to a `Vec` does not fail), and it
/// writes the image's size into the JPEG's frame header, which is the size
/// the JPEG decodes to. Whether the decoder's memory limit lets it decode
/// the JPEG again is not stated.
#[verifier::external_body]
fn encode_jpeg(p: &Picture) -> (r: Option<Vec<u8>>)
    ensures
        (1 <= p.width <= 65535 && 1 <= p.height <= 65535) ==> r is Some,
        r matches Some(out) ==> out@ == jpeg_of(p.grid@),
        r matches Some(out) ==> (decoded_size_of(out@) matches Some(d) ==> d == (
        p.width,
        p.height,
        )),
{
    let mut out = std::io::Cursor::new(Vec::new());
    match p.image.write_to(&mut out, image::ImageFormat::Jpeg) {
        Ok(()) => Some(out.into_inner()),
        Err(_) => None,
    }
}

/// The orientation a thumbnail is turned by: the preview's own tag when it
/// has a valid one (1 to 8); when it is silent, as a raw's embedded preview
/// often is, the source file's.
pub open spec fn thumb_orientation_of(bytes: Seq<u8>, source_orientation: u32) -> u32 {
    match exif_orientation_of(bytes) {
        Some(v) => if 1 <= v <= 8 {
            v
        } else {
            source_orientation
        },
        None => source_orientation,
    }
}

/// How a thumbnail of these bytes is to be turned.
pub fn grid_thumb_orientation(bytes: &[u8], source_orientation: u32) -> (r: u32)
    ensures
        r == thumb_orientation_of(bytes@, source_orientation),
{
    match read_exif_orientation(bytes) {
        Some(v) => if 1 <= v && v <= 8 {
            v
        } else {
            source_orientation
        },
        None => source_orientation,
    }
}

/// Whether an EXIF orientation turns the image a quarter (5 to 8), so its
/// width and height trade places.
pub open spec fn quarter_turn(orientation: u32) -> bool {
    5 <= orientation <= 8
}

/// Turn an image the way an EXIF orientation value says (1, or anything
/// out of range, leaves it as it is): 2 mirrors it, 3 turns it half round,
/// 4 flips it, 5 and 7 turn it a quarter clockwise then mirror or flip it,
/// 6 turns it a quarter clockwise, 8 a quarter counter-clockwise.
fn orient(img: Picture, orientation: u32) -> (r: Picture)
    ensures
        quarter_turn(orientation) ==> r.width == img.height && r.height == img.width,
        !quarter_turn(orientation) ==> r.width == img.width && r.height == img.height,
        r.grid@ == oriented(img.grid@, img.width, img.height, orientation),
{
    if orientation == 2 {
        flip_horizontal(&img)
    } else if orientation == 3 {
        rotate_180(&img)
    } else if orientation == 4 {
        flip_vertical(&img)
    } else if orientation == 5 {
        flip_horizontal(&rotate_90(&img))
    } else if orientation == 6 {
        rotate_90(&img)
    } else if orientation == 7 {
        flip_vertical(&rotate_90(&img))
    } else if orientation == 8 {
        rotate_270(&img)
    } else {
        img
    }
}

/// The size of a preview turned by `orientation`, and whether it must be
/// shrunk to fit `max_edge`.
pub open spec fn thumb_plan_of(width: u32, height: u32, orientation: u32, max_edge: u32) -> (
    u32,
    u32,
    bool,
) {
    let w = if quarter_turn(orientation) {
        height
    } else {
        width
    };
    let h = if quarter_turn(orientation) {
        width
    } else {
        height
    };
    (w, h, w > max_edge || h > max_edge)
}

/// How a decoded preview of `width` by `height` becomes a thumbnail: its
/// size once turned (width and height trade places for orientations 5 to
/// 8), and whether that is larger than `max_edge` on either side, so that it
/// is shrunk.
pub fn thumb_plan(width: u32, height: u32, orientation: u32, max_edge: u32) -> (r: (u32, u32, bool))
    ensures
        r == thumb_plan_of(width, height, orientation, max_edge),
{
    let (w, h) = if 5 <= orientation && orientation <= 8 {
        (height, width)
    } else {
        (width, height)
    };
    (w, h, w > max_edge || h > max_edge)
}

/// The pixels of a decoded preview turned by the thumbnail orientation.
pub open spec fn turned_preview(bytes: Seq<u8>, source_orientation: u32) -> Seq<Seq<Seq<u8>>> {
    match decoded_size_of(bytes) {
        Some((w, h)) => oriented(decoded_grid_of(bytes), w, h, thumb_orientation_of(bytes, source_orientation)),
        None => Seq::empty(),
    }
}

/// A served thumbnail: the preview turned by `grid_thumb_orientation`, then
/// shrunk to fit `max_edge` if it is larger, as a JPEG. Bytes that do not
/// decode come back unchanged, so a strange source never becomes a broken
/// thumbnail; so do the bytes of an image that fails to encode.
///
/// Of a preview that decodes to `w` by `h`: the JPEG is the encoding of its
/// pixels turned by the thumbnail orientation, shrunk by `thumbnail` to fit
/// `max_edge` where either side is larger. Where it needs no shrinking, the
/// JPEG is the turned size; where it is shrunk, the turned size scaled by
/// `thumbnail_size_of` (both said of the JPEG as it decodes again).
pub fn downscale_grid_thumb(bytes: Vec<u8>, max_edge: u32, source_orientation: u32) -> (r: Vec<u8>)
    ensures
        !image_decodes(bytes@) ==> r@ == bytes@,
        decoded_size_of(bytes@) matches Some((w, h)) ==> {
            let plan = thumb_plan_of(w, h, thumb_orientation_of(bytes@, source_orientation), max_edge);
            &&& (!plan.2 && 1 <= w <= 65535 && 1 <= h <= 65535) ==> (decoded_size_of(r@) matches Some(d)
                ==> d == (plan.0, plan.1))
            &&& (plan.2 && max_edge <= 65535) ==> (decoded_size_of(r@) matches Some(d) ==> d
                == thumbnail_size_of(plan.0, plan.1, max_edge) && 1 <= d.0 <= fitted_edge(max_edge) && 1
                <= d.1 <= fitted_edge(max_edge))
            &&& (!plan.2 && 1 <= w <= 65535 && 1 <= h <= 65535) ==> r@ == jpeg_of(turned_preview(bytes@, source_orientation))
            &&& (plan.2 && max_edge <= 65535) ==> r@ == jpeg_of(
                thumbnail_grid_of(turned_preview(bytes@, source_orientation), max_edge),
            )
        },
{
    let orientation = grid_thumb_orientation(&bytes, source_orientation);
    let img = match load_image(&bytes) {
        Some(img) => img,
        None => {
            return bytes;
        },
    };
    let (_, _, shrink) = thumb_plan(img.width, img.height, orientation, max_edge);
    let img = orient(img, orientation);
    let out = if shrink {
        encode_jpeg(&shrink_to_fit(&img, max_edge))
    } else {
        encode_jpeg(&img)
    };
    match out {
        Some(out) => out,
        None => bytes,
    }
}

/// Whether a file's bytes are an image that decodes, whatever its name
/// says: a JPEG saved with a raw extension is still served.
pub fn is_plain_image(bytes: &[u8]) -> (r: bool)
    ensures
        r == image_decodes(bytes@),
{
    load_image(bytes).is_some()
}

/// How each EXIF orientation turns a `width` by `height` preview, pixel by
/// pixel: the thumbnail's pixel at row `r`, column `c` is the source pixel
/// named below. 2 mirrors, 3 turns half round, 4 flips, 5 transposes, 6
/// turns a quarter clockwise (the camera held with its grip up), 7 turns a
/// quarter clockwise and flips, 8 turns a quarter counter-clockwise; the
/// quarter turns are `height` wide and `width` high, the others keep the
/// size.
pub proof fn law_orientation_moves_pixels(g: Seq<Seq<Seq<u8>>>, width: u32, height: u32, r: int, c: int)
    requires
        grid_sized(g, width, height),
    ensures
        (0 <= r < height && 0 <= c < width) ==> {
            &&& oriented(g, width, height, 1)[r][c] == g[r][c]
            &&& oriented(g, width, height, 2)[r][c] == g[r][width - 1 - c]
            &&& oriented(g, width, height, 3)[r][c] == g[height - 1 - r][width - 1 - c]
            &&& oriented(g, width, height, 4)[r][c] == g[height - 1 - r][c]
        },
        (0 <= r < width && 0 <= c < height) ==> {
            &&& oriented(g, width, height, 5)[r][c] == g[c][r]
            &&& oriented(g, width, height, 6)[r][c] == g[height - 1 - c][r]
            &&& oriented(g, width, height, 7)[r][c] == g[height - 1 - c][width - 1 - r]
            &&& oriented(g, width, height, 8)[r][c] == g[c][width - 1 - r]
        },
        forall|o: u32| 1 <= o <= 4 ==> #[trigger] oriented(g, width, height, o).len() == height,
        forall|o: u32| 5 <= o <= 8 ==> #[trigger] oriented(g, width, height, o).len() == width,
        0 <= r < height ==> forall|o: u32| 2 <= o <= 4 ==> #[trigger] oriented(g, width, height, o)[r].len() == width,
        0 <= r < width ==> forall|o: u32| 5 <= o <= 8 ==> #[trigger] oriented(g, width, height, o)[r].len() == height,
{
    if 0 <= r < width && 0 <= c < height {
        let q = quarter_cw(g, width, height);
        assert(q[r][c] == g[height - 1 - c][r]);
        assert(q[width - 1 - r][c] == g[height - 1 - c][width - 1 - r]);
        assert(q[r][height - 1 - c] == g[c][r]);
    }
}

} // verus!
