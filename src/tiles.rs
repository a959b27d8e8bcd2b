//! The tile walker: the tiles of one zoom level's image, in Morton order,
//! restricted to the level's index range, with the names under which they are
//! written.
use crate::config::{level_tiles, Config, MAX_ZOOM};
use crate::error::TileError;
use crate::morton::{decode, lemma_coords_in_level, lemma_index_of_coords, morton_x, morton_y};
use image::DynamicImage;
use oxipng::{PngError, RawImage};
use vstd::arithmetic::power2::{lemma2_to64, lemma_pow2_strictly_increases, pow2};
use vstd::bits::lemma_u64_shl_is_mul;
use vstd::prelude::*;

verus! {

#[verifier::external_type_specification]
#[verifier::external_body]
pub struct ExDynamicImage(DynamicImage);

#[verifier::external_type_specification]
#[verifier::external_body]
pub struct ExPngError(PngError);

/// Relies on DynamicImage::width, the image's width in pixels.
pub assume_specification[ DynamicImage::width ](img: &DynamicImage) -> u32;

/// Relies on DynamicImage::height, the image's height in pixels.
pub assume_specification[ DynamicImage::height ](img: &DynamicImage) -> u32;

/// Relies on DynamicImage::resize with the Lanczos3 filter, which scales the
/// image to fit in a `side x side` square, keeping its aspect ratio.
#[verifier::external_body]
fn resize_square(img: &DynamicImage, side: u32) -> DynamicImage {
    img.resize(side, side, image::imageops::FilterType::Lanczos3)
}

/// The bytes of the PNG file that oxipng makes, at compression preset
/// `preset`, of the `side x side` image whose 8-bit RGBA pixels are `rgba`,
/// or `None` if it fails.
pub uninterp spec fn png_of(side: u32, rgba: Seq<u8>, preset: u8) -> Option<Seq<u8>>;

/// Relies on oxipng::RawImage::new, which accepts 8-bit RGBA pixel data of a
/// `side x side` image when it holds four bytes per pixel, and on
/// RawImage::create_optimized_png with the options of compression preset
/// `preset`. Without oxipng's parallel feature and without a timeout, the
/// file's bytes depend on the pixels, the side and the preset alone.
#[verifier::external_body]
fn optimized_png(side: u32, rgba: Vec<u8>, preset: u8) -> (r: Result<Vec<u8>, PngError>)
    requires
        side > 0,
        rgba@.len() == 4 * side * side,
    ensures
        r is Ok <==> png_of(side, rgba@, preset) is Some,
        r is Ok ==> r->Ok_0@ == png_of(side, rgba@, preset)->0,
{
    let raw = RawImage::new(side, side, oxipng::ColorType::RGBA, oxipng::BitDepth::Eight, rgba)?;
    raw.create_optimized_png(&oxipng::Options::from_preset(preset))
}

/// The character of decimal digit `d`.
pub open spec fn digit_char(d: nat) -> char {
    if d == 0 {
        '0'
    } else if d == 1 {
        '1'
    } else if d == 2 {
        '2'
    } else if d == 3 {
        '3'
    } else if d == 4 {
        '4'
    } else if d == 5 {
        '5'
    } else if d == 6 {
        '6'
    } else if d == 7 {
        '7'
    } else if d == 8 {
        '8'
    } else {
        '9'
    }
}

/// The decimal digits of `n`, without leading zeros.
pub open spec fn decimal(n: nat) -> Seq<char>
    decreases n,
{
    if n < 10 {
        seq![digit_char(n)]
    } else {
        decimal(n / 10).push(digit_char(n % 10))
    }
}

/// The name of tile `(x, y)` of zoom level `z`: `{z}-{x}-{y}`.
pub open spec fn tile_name_of(z: nat, x: nat, y: nat) -> Seq<char> {
    decimal(z) + seq!['-'] + decimal(x) + seq!['-'] + decimal(y)
}

/// The character of decimal digit `d`.
fn digit_of(d: u64) -> (c: char)
    requires
        d < 10,
    ensures
        c == digit_char(d as nat),
{
    if d == 0 {
        '0'
    } else if d == 1 {
        '1'
    } else if d == 2 {
        '2'
    } else if d == 3 {
        '3'
    } else if d == 4 {
        '4'
    } else if d == 5 {
        '5'
    } else if d == 6 {
        '6'
    } else if d == 7 {
        '7'
    } else if d == 8 {
        '8'
    } else {
        '9'
    }
}

/// Appends the decimal digits of `n` to `out`.
fn push_decimal(out: &mut Vec<char>, n: u64)
    ensures
        final(out)@ == old(out)@ + decimal(n as nat),
    decreases n,
{
    if n >= 10 {
        push_decimal(out, n / 10);
    }
    out.push(digit_of(n % 10));
    proof {
        if n >= 10 {
            assert(old(out)@ + decimal((n / 10) as nat) + seq![digit_char((n % 10) as nat)]
                =~= old(out)@ + decimal(n as nat));
        } else {
            assert(old(out)@ + seq![digit_char((n % 10) as nat)] =~= old(out)@ + decimal(n as nat));
        }
    }
}

/// Relies on collecting characters into a `String`: the string of exactly
/// those characters, in order.
#[verifier::external_body]
fn string_of(chars: Vec<char>) -> (r: String)
    ensures
        r@ == chars@,
{
    chars.into_iter().collect()
}

/// The name of tile `(x, y)` of zoom level `z`.
fn tile_name(z: u8, x: u64, y: u64) -> (r: String)
    ensures
        r@ == tile_name_of(z as nat, x as nat, y as nat),
{
    let mut chars: Vec<char> = Vec::new();
    push_decimal(&mut chars, z as u64);
    chars.push('-');
    push_decimal(&mut chars, x);
    chars.push('-');
    push_decimal(&mut chars, y);
    assert(chars@ =~= tile_name_of(z as nat, x as nat, y as nat));
    string_of(chars)
}

/// Side length in pixels of the image of zoom level `z` for tiles of
/// `tilesize` pixels.
fn level_side_of(tilesize: u32, z: u8) -> (r: u64)
    requires
        z < 32,
    ensures
        r == tilesize * pow2(z as nat),
{
    proof {
        lemma2_to64();
        lemma_pow2_strictly_increases(z as nat, 32);
        lemma_u64_shl_is_mul(1u64, z as u64);
        assert(tilesize * pow2(z as nat) <= 0xffff_ffff * 0x1_0000_0000) by (nonlinear_arith)
            requires
                tilesize <= 0xffff_ffff,
                pow2(z as nat) <= 0x1_0000_0000,
        ;
    }
    tilesize as u64 * (1u64 << z as u64)
}

impl Config {
    /// The zoom level that the names of the tiles of level `z` carry: the
    /// parent zoom level when the source is a sub-tile of a deeper pyramid.
    pub open spec fn output_level(&self, z: u8) -> u8 {
        match self.parentzoomlevel {
            Some(p) => if p > self.zoomlevel {
                p
            } else {
                z
            },
            None => z,
        }
    }

    /// Column and row, in tiles of the source's own size, of the source
    /// image's place in the deeper pyramid; `(0, 0)` without one.
    pub open spec fn origin(&self) -> (nat, nat) {
        match self.parentzoomlevel {
            Some(p) => if p > self.zoomlevel {
                (morton_x(self.indexforzoom as nat), morton_y(self.indexforzoom as nat))
            } else {
                (0, 0)
            },
            None => (0, 0),
        }
    }

    /// Side length in pixels of the image of zoom level `z`.
    pub open spec fn level_side(&self, z: nat) -> nat {
        (self.tilesize * pow2(z)) as nat
    }

    /// Whether the image of every level to produce has a side that fits in
    /// 32 bits.
    pub open spec fn sides_fit(&self) -> bool {
        self.level_side(self.end_zoom()) <= u32::MAX
    }

    /// Whether a `width x height` source image is square with the side of
    /// the source zoom level.
    pub open spec fn dimension_ok(&self, width: nat, height: nat) -> bool {
        width == height && width == self.level_side(self.zoomlevel as nat)
    }

    /// Accepts a `width x height` source image only if it is square and its
    /// side is the tile size scaled to the source zoom level.
    pub fn check_dimension(&self, width: u32, height: u32) -> (r: Result<(), TileError>)
        requires
            self.tilesize > 0,
        ensures
            r is Ok <==> self.dimension_ok(width as nat, height as nat),
            r is Err ==> r == Err::<(), TileError>(TileError::DimensionMismatch),
    {
        if width != height {
            return Err(TileError::DimensionMismatch);
        }
        if self.zoomlevel >= 32 {
            proof {
                lemma2_to64();
                if self.zoomlevel > 32 {
                    lemma_pow2_strictly_increases(32, self.zoomlevel as nat);
                }
                assert(self.tilesize * pow2(self.zoomlevel as nat) >= pow2(32)) by (nonlinear_arith)
                    requires
                        self.tilesize >= 1,
                        pow2(self.zoomlevel as nat) >= pow2(32),
                ;
            }
            return Err(TileError::DimensionMismatch);
        }
        let side = level_side_of(self.tilesize, self.zoomlevel);
        if width as u64 != side {
            return Err(TileError::DimensionMismatch);
        }
        Ok(())
    }

    /// The images of the levels to produce, each resized from `img` to the
    /// level's side, with their zoom levels in ascending order. Rejects a
    /// tile size whose deepest level's side does not fit in 32 bits, and a
    /// source image that `check_dimension` rejects; the image's width and
    /// height are read from it.
    pub fn resize_range(&self, img: &DynamicImage) -> (r: Result<Vec<(TileImage<'_>, u8)>, TileError>)
        requires
            self.wf(),
        ensures
            !self.sides_fit() ==> r == Err::<Vec<(TileImage<'_>, u8)>, TileError>(
                TileError::InvalidTileSize,
            ),
            self.sides_fit() ==> r is Ok || r == Err::<Vec<(TileImage<'_>, u8)>, TileError>(
                TileError::DimensionMismatch,
            ),
            r is Ok ==> self.resized_levels(r->Ok_0@),
    {
        self.resize_levels(img, img.width(), img.height())
    }

    /// Whether `levels` holds one image for each level to produce, in
    /// ascending zoom order, each tagged with its zoom level.
    pub open spec fn resized_levels(&self, levels: Seq<(TileImage<'_>, u8)>) -> bool {
        &&& levels.len() == self.end_zoom() - self.start_zoom() + 1
        &&& forall|k: int|
            0 <= k < levels.len() ==> {
                &&& (#[trigger] levels[k]).1 == self.start_zoom() + k
                &&& levels[k].0.config == self
            }
    }

    /// The images of the levels to produce, each resized from `img`, whose
    /// width and height are `width` and `height`, to the level's side, with
    /// their zoom levels in ascending order. Succeeds exactly when the
    /// deepest level's side fits in 32 bits and `check_dimension` accepts
    /// the image; else it fails with `InvalidTileSize` or, for the image,
    /// `DimensionMismatch`.
    pub fn resize_levels(&self, img: &DynamicImage, width: u32, height: u32) -> (r: Result<
        Vec<(TileImage<'_>, u8)>,
        TileError,
    >)
        requires
            self.wf(),
        ensures
            !self.sides_fit() ==> r == Err::<Vec<(TileImage<'_>, u8)>, TileError>(
                TileError::InvalidTileSize,
            ),
            self.sides_fit() && !self.dimension_ok(width as nat, height as nat) ==> r == Err::<
                Vec<(TileImage<'_>, u8)>,
                TileError,
            >(TileError::DimensionMismatch),
            self.sides_fit() && self.dimension_ok(width as nat, height as nat) ==> r is Ok,
            r is Ok ==> self.resized_levels(r->Ok_0@),
    {
        let first = *self.zoomrangetoslice.start();
        let last = *self.zoomrangetoslice.end();
        let deepest = level_side_of(self.tilesize, last);
        if deepest > u32::MAX as u64 {
            return Err(TileError::InvalidTileSize);
        }
        match self.check_dimension(width, height) {
            Ok(()) => {},
            Err(e) => return Err(e),
        }
        let mut levels: Vec<(TileImage<'_>, u8)> = Vec::new();
        let mut z: u8 = first;
        while z <= last
            invariant
                first == self.start_zoom(),
                last == self.end_zoom(),
                first <= z <= last + 1,
                last <= MAX_ZOOM,
                deepest == self.level_side(last as nat),
                deepest <= u32::MAX,
                levels.len() == z - first,
                forall|k: int|
                    0 <= k < levels.len() ==> {
                        &&& (#[trigger] levels[k]).1 == first + k
                        &&& levels[k].0.config == self
                    },
            decreases last + 1 - z,
        {
            let side = level_side_of(self.tilesize, z);
            proof {
                if z < last {
                    lemma_pow2_strictly_increases(z as nat, last as nat);
                }
                assert(self.tilesize * pow2(z as nat) <= self.tilesize * pow2(last as nat))
                    by (nonlinear_arith)
                    requires
                        pow2(z as nat) <= pow2(last as nat),
                ;
            }
            let resized = resize_square(img, side as u32);
            levels.push((TileImage { config: self, img: resized }, z));
            z = z + 1;
        }
        Ok(levels)
    }
}

/// Number of tiles of the walk over level `index` under `config`.
pub open spec fn walk_len(config: Config, index: u8) -> nat {
    (config.level_hi(index as nat) - config.level_lo(index as nat) + 1) as nat
}

/// Whether `t` is the `k`-th tile of the walk over level `index` under
/// `config`: the tile with Morton index `level_lo(index) + k`, inside the
/// level's `2^index x 2^index` grid, named after the output zoom level and
/// its column and row in the output pyramid, where the source image spans
/// `2^index` tiles per side.
pub open spec fn walk_tile(config: Config, index: u8, k: int, t: Tile<'_>) -> bool {
    let m = config.level_lo(index as nat) + k;
    let (ox, oy) = config.origin();
    &&& t.x == morton_x(m as nat)
    &&& t.y == morton_y(m as nat)
    &&& t.x < pow2(index as nat)
    &&& t.y < pow2(index as nat)
    &&& t.name@ == tile_name_of(
        config.output_level(index) as nat,
        (ox * pow2(index as nat) + t.x) as nat,
        (oy * pow2(index as nat) + t.y) as nat,
    )
}

/// Walking the same level under the same configuration twice gives the same
/// tiles, in the same order, under the same names.
pub proof fn lemma_walk_repeats(config: Config, index: u8, a: Seq<Tile<'_>>, b: Seq<Tile<'_>>)
    requires
        a.len() == walk_len(config, index),
        b.len() == walk_len(config, index),
        forall|k: int| 0 <= k < a.len() ==> walk_tile(config, index, k, #[trigger] a[k]),
        forall|k: int| 0 <= k < b.len() ==> walk_tile(config, index, k, #[trigger] b[k]),
    ensures
        a.len() == b.len(),
        forall|k: int|
            0 <= k < a.len() ==> (#[trigger] a[k]).x == b[k].x && a[k].y == b[k].y && a[k].name@
                == b[k].name@,
{
    assert forall|k: int| 0 <= k < a.len() implies (#[trigger] a[k]).x == b[k].x && a[k].y
        == b[k].y && a[k].name@ == b[k].name@ by {
        assert(walk_tile(config, index, k, a[k]));
        assert(walk_tile(config, index, k, b[k]));
    }
}

/// No two tiles of the walk over one level share a column and a row, so no
/// two of them are written to the same place.
pub proof fn lemma_walk_distinct(config: Config, index: u8, tiles: Seq<Tile<'_>>)
    requires
        forall|k: int| 0 <= k < tiles.len() ==> walk_tile(config, index, k, #[trigger] tiles[k]),
    ensures
        forall|j: int, k: int|
            0 <= j < k < tiles.len() ==> (#[trigger] tiles[j]).x != (#[trigger] tiles[k]).x
                || tiles[j].y != tiles[k].y,
{
    assert forall|j: int, k: int| 0 <= j < k < tiles.len() implies (#[trigger] tiles[j]).x != (
    #[trigger] tiles[k]).x || tiles[j].y != tiles[k].y by {
        assert(walk_tile(config, index, j, tiles[j]));
        assert(walk_tile(config, index, k, tiles[k]));
        let lo = config.level_lo(index as nat);
        lemma_index_of_coords((lo + j) as nat);
        lemma_index_of_coords((lo + k) as nat);
    }
}

/// The image of one zoom level, resized from the source.
pub struct TileImage<'c> {
    pub config: &'c Config,
    pub img: DynamicImage,
}

/// One tile of a zoom level's image: its column and row in that image, and
/// the name under which it is written.
pub struct Tile<'c> {
    pub config: &'c Config,
    pub parent_img: &'c DynamicImage,
    pub x: u32,
    pub y: u32,
    pub name: String,
}

impl<'c> TileImage<'c> {
    /// The tiles of zoom level `index` to produce, in ascending Morton order:
    /// the `k`-th is the tile with Morton index `level_lo(index) + k`. Each
    /// tile's name carries the output zoom level and its column and row in
    /// the deeper pyramid, whose source image spans `2^index` tiles per side.
    pub fn slice_tiles(&self, index: u8) -> (r: Vec<Tile<'_>>)
        requires
            self.config.wf(),
            index <= MAX_ZOOM,
        ensures
            r.len() == walk_len(*self.config, index),
            forall|k: int|
                0 <= k < r.len() ==> {
                    &&& walk_tile(*self.config, index, k, #[trigger] r[k])
                    &&& r[k].config == self.config
                    &&& r[k].parent_img == &self.img
                },
    {
        let config = self.config;
        let (lo, hi) = config.level_range(index);
        let (ox, oy): (u16, u16) = match config.parentzoomlevel {
            Some(p) => if p > config.zoomlevel {
                zorder::coord_of(config.indexforzoom as u32)
            } else {
                (0, 0)
            },
            None => (0, 0),
        };
        let level: u8 = match config.parentzoomlevel {
            Some(p) => if p > config.zoomlevel {
                p
            } else {
                index
            },
            None => index,
        };
        let side: u64 = 1u64 << index as u64;
        proof {
            lemma2_to64();
            lemma_pow2_strictly_increases(index as nat, 16);
            lemma_u64_shl_is_mul(1u64, index as u64);
            if 2 * index < 32 {
                lemma_pow2_strictly_increases(2 * index as nat, 32);
            }
            assert(ox * side <= 0xffff * 0x10000) by (nonlinear_arith)
                requires
                    ox <= 0xffff,
                    side <= 0x10000,
            ;
            assert(oy * side <= 0xffff * 0x10000) by (nonlinear_arith)
                requires
                    oy <= 0xffff,
                    side <= 0x10000,
            ;
        }
        let mut tiles: Vec<Tile<'_>> = Vec::new();
        let mut m: u32 = lo;
        while m <= hi
            invariant
                lo <= m <= hi + 1,
                hi < level_tiles(index as nat),
                hi < 0xffff_ffff,
                lo == config.level_lo(index as nat),
                hi == config.level_hi(index as nat),
                config == self.config,
                index <= MAX_ZOOM,
                side == pow2(index as nat),
                side <= 0x10000,
                ox * side <= 0xffff * 0x10000,
                oy * side <= 0xffff * 0x10000,
                (ox as nat, oy as nat) == config.origin(),
                level == config.output_level(index),
                tiles.len() == m - lo,
                forall|k: int|
                    0 <= k < tiles.len() ==> {
                        &&& walk_tile(*self.config, index, k, #[trigger] tiles[k])
                        &&& tiles[k].config == self.config
                        &&& tiles[k].parent_img == &self.img
                    },
            decreases hi + 1 - m,
        {
            let (x, y) = decode(m);
            proof {
                lemma_coords_in_level(index as nat, m as nat);
            }
            let gx: u64 = ox as u64 * side + x as u64;
            let gy: u64 = oy as u64 * side + y as u64;
            let name = tile_name(level, gx, gy);
            tiles.push(Tile { config, parent_img: &self.img, x: x as u32, y: y as u32, name });
            m = m + 1;
        }
        tiles
    }
}

impl<'c> Tile<'c> {
    /// Encodes the tile's pixels, 8-bit RGBA in rows from the top, as a PNG
    /// file optimised with the configured compression preset. Pixel data
    /// that is not four bytes for each pixel of the tile is rejected.
    pub fn convert_to_oxipng(&self, rgba: Vec<u8>) -> (r: Result<Vec<u8>, TileError>)
        requires
            self.config.tilesize > 0,
            self.config.preset is Some,
        ensures
            ({
                let side = self.config.tilesize;
                let png = png_of(side, rgba@, self.config.preset->0);
                &&& rgba@.len() != 4 * side * side ==> r == Err::<Vec<u8>, TileError>(
                    TileError::EncodeFailure,
                )
                &&& rgba@.len() == 4 * side * side ==> (r is Ok <==> png is Some)
                &&& r is Ok ==> r->Ok_0@ == png->0
                &&& r is Err ==> r == Err::<Vec<u8>, TileError>(TileError::EncodeFailure)
            }),
    {
        let side = self.config.tilesize;
        proof {
            assert(4 * side * side <= 4 * 0xffff_ffff * 0xffff_ffff) by (nonlinear_arith)
                requires
                    side <= 0xffff_ffff,
            ;
        }
        let need: u128 = 4 * side as u128 * side as u128;
        if rgba.len() as u128 != need {
            return Err(TileError::EncodeFailure);
        }
        let preset = match self.config.preset {
            Some(p) => p,
            None => 0,
        };
        match optimized_png(side, rgba, preset) {
            Ok(bytes) => Ok(bytes),
            Err(_) => Err(TileError::EncodeFailure),
        }
    }
}

} // verus!
