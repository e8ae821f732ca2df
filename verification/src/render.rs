//! Light transport along a ray, the colour of a pixel, and the assembly of
//! the image tile by tile.

use crate::fixed::{lemma_times_fraction, quot, Fixed, SCALE};
use crate::frame::{fits, rgb_channels, Framebuffer};
use crate::physics::{lemma_nearest_is_nearest, nearest, HitRecord, Hittable, HittableList, Ray};
use crate::rmath::{channel_byte, clamp, clamp_spec, random_double, Camera, Vector3};
use vstd::prelude::*;

verus! {

/// The raw count of the least ray parameter at which a hit counts; nearer
/// hits are taken for the surface that the ray has just left.
pub const T_MIN_RAW: i64 = 1_000;

/// The raw count of the brightest level of a channel, just below one.
pub const LEVEL_MAX_RAW: i64 = 999_000;

/// The colour of the sky at the zenith.
pub open spec fn sky_blue() -> Vector3 {
    Vector3(Fixed { raw: 500_000 }, Fixed { raw: 700_000 }, Fixed { raw: 1_000_000 })
}

/// White.
pub open spec fn white() -> Vector3 {
    Vector3(Fixed { raw: 1_000_000 }, Fixed { raw: 1_000_000 }, Fixed { raw: 1_000_000 })
}

/// Black.
pub open spec fn black() -> Vector3 {
    Vector3(Fixed { raw: 0 }, Fixed { raw: 0 }, Fixed { raw: 0 })
}

/// The colour of the background behind a ray that meets nothing: with `y`
/// the height of the normalised direction and `t = (y + 1) / 2`, the blend
/// `(1 - t) white + t blue`. A ray without direction sees black.
pub open spec fn background(r: Ray) -> Vector3 {
    match r.direction.unit_spec() {
        Some(unit_dir) => {
            let t = (Fixed { raw: 500_000 }).times(unit_dir.1.plus(Fixed { raw: 1_000_000 }));
            white().scaled((Fixed { raw: 1_000_000 }).minus(t)).plus(sky_blue().scaled(t))
        },
        None => black(),
    }
}

/// The light that arrives along `r` from the scene `world` when at most
/// `depth` bounces are followed and the bounce that leaves `d` more to follow
/// is displaced by `draws[d]`: nothing once the bounces are used up; the
/// background where the ray meets nothing beyond [`T_MIN_RAW`]; nothing where
/// the surface absorbs the ray; else the light along the scattered ray,
/// tinted channel by channel.
pub open spec fn ray_color_spec(r: Ray, world: Seq<Hittable>, depth: int, draws: Seq<Vector3>) -> Vector3
    decreases depth,
{
    if depth <= 0 {
        black()
    } else {
        match nearest(world, r, Fixed { raw: T_MIN_RAW }, Fixed { raw: i64::MAX }) {
            Some(rec) => match rec.material.scatter_spec(r, rec, draws[depth - 1]) {
                Some((attenuation, scattered)) => attenuation.mul_one_by_one_spec(
                    ray_color_spec(scattered, world, depth - 1, draws),
                ),
                None => black(),
            },
            None => background(r),
        }
    }
}

/// A record of the directions drawn along a path of at most `depth` bounces.
pub open spec fn is_path_draws(draws: Seq<Vector3>, depth: int) -> bool {
    &&& draws.len() == (if depth > 0 {
        depth
    } else {
        0
    })
    &&& forall|i: int| 0 <= i < draws.len() ==> (#[trigger] draws[i]).is_cylinder_sample()
}

/// The light along a ray depends only on the draws of the bounces that it
/// may still follow.
pub proof fn lemma_ray_color_prefix(
    r: Ray,
    world: Seq<Hittable>,
    depth: int,
    draws: Seq<Vector3>,
    more: Seq<Vector3>,
)
    requires
        depth <= draws.len() <= more.len(),
        forall|i: int| 0 <= i < depth ==> draws[i] == more[i],
    ensures
        ray_color_spec(r, world, depth, draws) == ray_color_spec(r, world, depth, more),
    decreases depth,
{
    if depth > 0 {
        match nearest(world, r, Fixed { raw: T_MIN_RAW }, Fixed { raw: i64::MAX }) {
            Some(rec) => match rec.material.scatter_spec(r, rec, draws[depth - 1]) {
                Some((attenuation, scattered)) => {
                    lemma_ray_color_prefix(scattered, world, depth - 1, draws, more);
                },
                None => {},
            },
            None => {},
        }
    }
}

/// Every channel lies between zero and one.
pub open spec fn is_color(c: Vector3) -> bool {
    &&& 0 <= c.0.raw <= SCALE
    &&& 0 <= c.1.raw <= SCALE
    &&& 0 <= c.2.raw <= SCALE
}

/// Every shape of the scene has a material whose tint is a colour.
pub open spec fn tints_are_colors(world: Seq<Hittable>) -> bool {
    forall|i: int| 0 <= i < world.len() ==> is_color((#[trigger] world[i]).material_spec().tint())
}

/// One channel of the background: the blend `(1 - t) + t c` of white and a
/// channel `c` of the sky is a level between zero and one.
proof fn lemma_blend_is_level(t: int, c: int)
    requires
        0 <= t <= 1_000_000,
        0 <= c <= 1_000_000,
    ensures
        quot(1_000_000 * (1_000_000 - t), SCALE as int) == 1_000_000 - t,
        0 <= quot(c * t, SCALE as int) <= t,
{
    assert(SCALE == 1_000_000);
    assert(c * t == t * c) by (nonlinear_arith);
    lemma_times_fraction(t, c);
}

/// The background is a colour.
pub proof fn lemma_background_is_color(r: Ray)
    ensures
        is_color(background(r)),
{
    r.direction.lemma_unit_bounded();
    match r.direction.unit_spec() {
        Some(unit_dir) => {
            let y = unit_dir.1.raw as int;
            let lifted = y + 1_000_000;
            assert(SCALE == 1_000_000);
            assert(quot(500_000 * lifted, SCALE as int) == (500_000 * lifted) / 1_000_000);
            let t = (500_000 * lifted) / 1_000_000;
            assert(0 <= t <= 1_000_000);
            lemma_blend_is_level(t, 500_000);
            lemma_blend_is_level(t, 700_000);
            lemma_blend_is_level(t, 1_000_000);
        },
        None => {},
    }
}

/// The light along a ray is a colour where every tint of the scene is: the
/// background is one, and a tint takes nothing out of the interval from
/// zero to one.
pub proof fn lemma_ray_color_is_color(r: Ray, world: Seq<Hittable>, depth: int, draws: Seq<Vector3>)
    requires
        tints_are_colors(world),
    ensures
        is_color(ray_color_spec(r, world, depth, draws)),
    decreases depth,
{
    if depth > 0 {
        let t_min = Fixed { raw: T_MIN_RAW };
        let t_max = Fixed { raw: i64::MAX };
        lemma_nearest_is_nearest(world, r, t_min, t_max);
        match nearest(world, r, t_min, t_max) {
            Some(rec) => {
                let k = choose|k: int|
                    0 <= k < world.len() && (#[trigger] world[k]).hit_spec(r, t_min, t_max) == Some(
                        rec,
                    );
                world[k].lemma_hit_material(r, t_min, t_max);
                rec.material.lemma_scatter_tint(r, rec, draws[depth - 1]);
                match rec.material.scatter_spec(r, rec, draws[depth - 1]) {
                    Some((attenuation, scattered)) => {
                        lemma_ray_color_is_color(scattered, world, depth - 1, draws);
                        let inner = ray_color_spec(scattered, world, depth - 1, draws);
                        lemma_times_fraction(attenuation.0.raw as int, inner.0.raw as int);
                        lemma_times_fraction(attenuation.1.raw as int, inner.1.raw as int);
                        lemma_times_fraction(attenuation.2.raw as int, inner.2.raw as int);
                    },
                    None => {},
                }
            },
            None => {
                lemma_background_is_color(r);
            },
        }
    }
}

/// The colour of the background behind a ray that meets nothing.
pub fn background_color(r: &Ray) -> (c: Vector3)
    ensures
        c == background(*r),
{
    match r.get_direction().unit() {
        Some(unit_dir) => {
            let t = Fixed::from_raw(500_000) * (unit_dir.y() + Fixed::one());
            (Fixed::one() - t) * Vector3::new(Fixed::one()) + t * Vector3(
                Fixed::from_raw(500_000),
                Fixed::from_raw(700_000),
                Fixed::one(),
            )
        },
        None => Vector3::zero(),
    }
}

/// The light that arrives along `r` from the scene, following at most
/// `depth` bounces. Where every tint of the scene is a colour, so is the
/// light: [`lemma_ray_color_is_color`] shows it of every record of draws.
pub fn ray_color(r: &Ray, world: &HittableList, depth: i32) -> (c: Vector3)
    ensures
        depth <= 0 ==> c == black(),
        exists|draws: Seq<Vector3>|
            is_path_draws(draws, depth as int) && c == #[trigger] ray_color_spec(
                *r,
                world@,
                depth as int,
                draws,
            ),
    decreases depth,
{
    proof {
        Vector3::lemma_cylinder_sample_exists();
    }
    let ghost filler = Vector3::from_cylinder_spec(Fixed { raw: 0 }, Fixed { raw: 0 });
    if depth <= 0 {
        assert(is_path_draws(Seq::<Vector3>::empty(), depth as int));
        assert(black() == ray_color_spec(*r, world@, depth as int, Seq::<Vector3>::empty()));
        return Vector3::zero();
    }
    let ghost fill = Seq::new(depth as nat, |i: int| filler);
    assert(is_path_draws(fill, depth as int));
    if let Some(rec) = world.hit(r, Fixed::from_raw(T_MIN_RAW), Fixed::max_value()) {
        let ghost unit;
        let scattered = rec.material.scatter(r, &rec);
        proof {
            unit = choose|unit: Vector3|
                unit.is_cylinder_sample() && scattered == #[trigger] rec.material.scatter_spec(
                    *r,
                    rec,
                    unit,
                );
        }
        if let Some((attenuation, scattered_ray)) = scattered {
            let inner = ray_color(&scattered_ray, world, depth - 1);
            let c = attenuation.mul_one_by_one(inner);
            proof {
                let rest = choose|draws: Seq<Vector3>|
                    is_path_draws(draws, depth - 1) && inner == #[trigger] ray_color_spec(
                        scattered_ray,
                        world@,
                        depth - 1,
                        draws,
                    );
                let draws = rest.push(unit);
                lemma_ray_color_prefix(scattered_ray, world@, depth - 1, rest, draws);
                assert(draws[depth - 1] == unit);
                assert(is_path_draws(draws, depth as int));
                assert(c == ray_color_spec(*r, world@, depth as int, draws));
            }
            return c;
        }
        proof {
            let draws = fill.update(depth - 1, unit);
            assert(is_path_draws(draws, depth as int));
            assert(black() == ray_color_spec(*r, world@, depth as int, draws));
        }
        return Vector3::zero();
    }
    let c = background_color(r);
    assert(c == ray_color_spec(*r, world@, depth as int, fill));
    c
}

/// The gamma-corrected level of a channel: its square root, and zero for a
/// negative channel.
pub open spec fn gamma_correction_spec(x: Fixed) -> Fixed {
    match x.sqrt_spec() {
        Some(root) => root,
        None => Fixed { raw: 0 },
    }
}

/// The level of a channel that has gathered `total` over `samples` samples:
/// the gamma-corrected mean, limited to the interval from zero to 0.999.
pub open spec fn level(total: Fixed, samples: Fixed) -> Fixed
    recommends
        samples.raw != 0,
{
    clamp_spec(
        gamma_correction_spec(total.div_spec(samples).unwrap()),
        Fixed { raw: 0 },
        Fixed { raw: LEVEL_MAX_RAW },
    )
}

/// The bytes of the pixel whose channels have gathered `pixcolor` over
/// `samples_per_pixel` samples. Without samples there is no pixel.
pub open spec fn write_color_spec(pixcolor: Vector3, samples_per_pixel: u32) -> Option<
    (u8, u8, u8),
> {
    if samples_per_pixel == 0 {
        None
    } else {
        let samples = Fixed::saturated(samples_per_pixel * SCALE);
        Some(
            (
                channel_byte(level(pixcolor.0, samples)),
                channel_byte(level(pixcolor.1, samples)),
                channel_byte(level(pixcolor.2, samples)),
            ),
        )
    }
}

/// Gamma correction of a channel.
pub fn gamma_correction(x: Fixed) -> (r: Fixed)
    ensures
        r == gamma_correction_spec(x),
{
    match x.sqrt() {
        Some(root) => root,
        None => Fixed::zero(),
    }
}

/// The pixel for the light gathered over `samples_per_pixel` samples.
pub fn write_color(pixcolor: &Vector3, samples_per_pixel: u32) -> (res: Option<image::Rgb<u8>>)
    ensures
        res.is_some() == (samples_per_pixel != 0),
        res matches Some(px) ==> Some(rgb_channels(px)) == write_color_spec(
            *pixcolor,
            samples_per_pixel,
        ),
{
    if samples_per_pixel == 0 {
        return None;
    }
    let samples = Fixed::from_int(samples_per_pixel as i64);
    let tone = |x: Fixed| -> (r: Fixed)
        ensures
            r == level(x, samples),
        {
            let mean = match x.div(samples) {
                Some(mean) => mean,
                None => x,
            };
            clamp(gamma_correction(mean), Fixed::zero(), Fixed::from_raw(LEVEL_MAX_RAW))
        };
    Some(pixcolor.map(tone).into_rgb())
}

/// What chance contributes to one sample of a pixel: the two jitters of the
/// point on the image and the directions drawn along the path.
pub struct SampleDraws {
    pub jitter_u: Fixed,
    pub jitter_v: Fixed,
    pub path: Seq<Vector3>,
}

/// The fraction `(k + jitter) / extent` of the image extent; an image
/// without extent has none.
pub open spec fn screen_fraction(k: int, jitter: Fixed, extent: u32) -> Option<Fixed> {
    Fixed::saturated(k * SCALE).plus(jitter).div_spec(Fixed::saturated(extent * SCALE))
}

/// The camera ray of a sample of the pixel in column `x` and row `y`, rows
/// counted from the top: it passes the image at the fractions
/// `(x + jitter_u) / width` and `(height - y + jitter_v) / height`.
pub open spec fn sample_ray_spec(
    cam: Camera,
    x: int,
    y: int,
    width: u32,
    height: u32,
    jitter_u: Fixed,
    jitter_v: Fixed,
) -> Option<Ray> {
    match (screen_fraction(x, jitter_u, width), screen_fraction(height - y, jitter_v, height)) {
        (Some(u), Some(v)) => Some(cam.get_ray_spec(u, v)),
        _ => None,
    }
}

/// The draws of a sample are in range: each jitter from zero (included) to
/// one (excluded), the path a record of `depth` bounces.
pub open spec fn is_sample_draws(d: SampleDraws, depth: int) -> bool {
    &&& 0 <= d.jitter_u.raw < SCALE
    &&& 0 <= d.jitter_v.raw < SCALE
    &&& is_path_draws(d.path, depth)
}

/// The light gathered at a pixel over the samples with the given draws, in
/// their order.
pub open spec fn gathered(
    cam: Camera,
    world: Seq<Hittable>,
    x: int,
    y: int,
    width: u32,
    height: u32,
    depth: int,
    draws: Seq<SampleDraws>,
) -> Vector3
    decreases draws.len(),
{
    if draws.len() == 0 {
        black()
    } else {
        let d = draws.last();
        gathered(cam, world, x, y, width, height, depth, draws.drop_last()).plus(
            ray_color_spec(
                sample_ray_spec(cam, x, y, width, height, d.jitter_u, d.jitter_v).unwrap(),
                world,
                depth,
                d.path,
            ),
        )
    }
}

/// `channels` is a rendering of the pixel in column `x` and row `y`: the
/// bytes for the light gathered over `samples_per_pixel` samples, for some
/// draws in range.
pub open spec fn is_rendering(
    cam: Camera,
    world: Seq<Hittable>,
    x: int,
    y: int,
    width: u32,
    height: u32,
    samples_per_pixel: u32,
    depth: int,
    channels: (u8, u8, u8),
) -> bool {
    exists|draws: Seq<SampleDraws>|
        {
            &&& draws.len() == samples_per_pixel
            &&& forall|i: int| 0 <= i < draws.len() ==> is_sample_draws(#[trigger] draws[i], depth)
            &&& Some(channels) == write_color_spec(
                #[trigger] gathered(cam, world, x, y, width, height, depth, draws),
                samples_per_pixel,
            )
        }
}

/// The camera ray of a sample with the given jitters.
pub fn sample_ray(
    cam: &Camera,
    x: u32,
    y: u32,
    width: u32,
    height: u32,
    jitter_u: Fixed,
    jitter_v: Fixed,
) -> (res: Option<Ray>)
    ensures
        res == sample_ray_spec(*cam, x as int, y as int, width, height, jitter_u, jitter_v),
        res.is_some() == (width != 0 && height != 0),
{
    proof {
        crate::fixed::lemma_scaled(width as int);
        crate::fixed::lemma_scaled(height as int);
    }
    let u = (Fixed::from_int(x as i64) + jitter_u).div(Fixed::from_int(width as i64));
    let v = (Fixed::from_int(height as i64 - y as i64) + jitter_v).div(
        Fixed::from_int(height as i64),
    );
    match (u, v) {
        (Some(u), Some(v)) => Some(cam.get_ray(u, v)),
        _ => None,
    }
}

/// Renders the pixel in column `x` and row `y` of an image of the given
/// size: gathers the light of `samples_per_pixel` jittered camera rays, each
/// followed for at most `max_depth` bounces. There is no pixel without
/// samples or in an image without extent.
pub fn render_pixel(
    cam: &Camera,
    world: &HittableList,
    x: u32,
    y: u32,
    width: u32,
    height: u32,
    samples_per_pixel: u32,
    max_depth: i32,
) -> (res: Option<image::Rgb<u8>>)
    ensures
        res.is_some() == (width != 0 && height != 0 && samples_per_pixel != 0),
        res matches Some(px) ==> is_rendering(
            *cam,
            world@,
            x as int,
            y as int,
            width,
            height,
            samples_per_pixel,
            max_depth as int,
            rgb_channels(px),
        ),
{
    if width == 0 || height == 0 {
        return None;
    }
    let mut pixcolor = Vector3::zero();
    let ghost mut draws: Seq<SampleDraws> = Seq::empty();
    let mut k: u32 = 0;
    while k < samples_per_pixel
        invariant
            width != 0,
            height != 0,
            k <= samples_per_pixel,
            draws.len() == k,
            forall|i: int| 0 <= i < draws.len() ==> is_sample_draws(#[trigger] draws[i], max_depth as int),
            pixcolor == gathered(*cam, world@, x as int, y as int, width, height, max_depth as int, draws),
        decreases samples_per_pixel - k,
    {
        let jitter_u = random_double();
        let jitter_v = random_double();
        let ray = match sample_ray(cam, x, y, width, height, jitter_u, jitter_v) {
            Some(ray) => ray,
            None => {
                return None;
            },
        };
        let color = ray_color(&ray, world, max_depth);
        pixcolor = pixcolor + color;
        proof {
            let path = choose|path: Seq<Vector3>|
                is_path_draws(path, max_depth as int) && color == #[trigger] ray_color_spec(
                    ray,
                    world@,
                    max_depth as int,
                    path,
                );
            let d = SampleDraws { jitter_u, jitter_v, path };
            let extended = draws.push(d);
            assert(extended.drop_last() == draws);
            assert(extended.last() == d);
            assert(is_sample_draws(d, max_depth as int));
            draws = extended;
        }
        k += 1;
    }
    let res = write_color(&pixcolor, samples_per_pixel);
    proof {
        if res.is_some() {
            assert(Some(rgb_channels(res.unwrap())) == write_color_spec(
                gathered(*cam, world@, x as int, y as int, width, height, max_depth as int, draws),
                samples_per_pixel,
            ));
        }
    }
    res
}

/// Where the `k`-th of `parts` consecutive parts of the extent `len`
/// begins: `k * len / parts`, rounded down.
pub open spec fn cut(k: int, parts: int, len: int) -> int {
    (k * len) / parts
}

/// A rectangle of pixels: the columns from `x0` to `x1` and the rows from
/// `y0` to `y1`, the lower limit included and the upper excluded.
#[derive(Clone, Copy, Debug, PartialEq, Eq, Structural)]
pub struct Tile {
    pub x0: u32,
    pub x1: u32,
    pub y0: u32,
    pub y1: u32,
}

impl Tile {
    /// Whether the pixel in column `x` and row `y` belongs to the tile.
    pub open spec fn contains(self, x: int, y: int) -> bool {
        self.x0 <= x < self.x1 && self.y0 <= y < self.y1
    }

    /// The tile in row `row` and column `col` of the tiling.
    pub fn at(row: u32, col: u32, rows: u32, cols: u32, width: u32, height: u32) -> (t: Tile)
        requires
            row < rows,
            col < cols,
        ensures
            t.x0 == cut(col as int, cols as int, width as int),
            t.x1 == cut(col + 1, cols as int, width as int),
            t.y0 == cut(row as int, rows as int, height as int),
            t.y1 == cut(row + 1, rows as int, height as int),
            t.x0 <= t.x1 <= width,
            t.y0 <= t.y1 <= height,
            forall|x: int, y: int|
                t.contains(x, y) == in_tile(
                    row as int,
                    col as int,
                    rows as int,
                    cols as int,
                    width as int,
                    height as int,
                    x,
                    y,
                ),
    {
        proof {
            lemma_cut_monotone(col as int, col + 1, cols as int, width as int);
            lemma_cut_monotone(row as int, row + 1, rows as int, height as int);
        }
        Tile {
            x0: cut_at(col, cols, width),
            x1: cut_at(col + 1, cols, width),
            y0: cut_at(row, rows, height),
            y1: cut_at(row + 1, rows, height),
        }
    }
}

/// The cuts of a division run from zero to the whole extent.
pub proof fn lemma_cut_ends(parts: int, len: int)
    requires
        parts > 0,
        len >= 0,
    ensures
        cut(0, parts, len) == 0,
        cut(parts, parts, len) == len,
{
    assert(0 * len == 0) by (nonlinear_arith);
    assert((parts * len) / parts == len) by (nonlinear_arith)
        requires
            parts > 0,
    ;
}

/// Later cuts lie no further left.
pub proof fn lemma_cut_monotone(j: int, k: int, parts: int, len: int)
    requires
        parts > 0,
        len >= 0,
        j <= k,
    ensures
        cut(j, parts, len) <= cut(k, parts, len),
{
    assert((j * len) / parts <= (k * len) / parts) by (nonlinear_arith)
        requires
            parts > 0,
            len >= 0,
            j <= k,
    ;
}

/// The position `x` lies in the `k`-th of `parts` parts of the extent `len`.
pub open spec fn in_part(k: int, parts: int, len: int, x: int) -> bool {
    cut(k, parts, len) <= x < cut(k + 1, parts, len)
}

/// The pixel in column `x` and row `y` belongs to the tile in row `row` and
/// column `col` of the division of an image into `rows` by `cols` tiles.
pub open spec fn in_tile(
    row: int,
    col: int,
    rows: int,
    cols: int,
    width: int,
    height: int,
    x: int,
    y: int,
) -> bool {
    in_part(col, cols, width, x) && in_part(row, rows, height, y)
}

/// Below a cut that lies beyond `x` there is a part that holds `x`.
proof fn lemma_part_exists(parts: int, len: int, x: int, upto: int)
    requires
        parts > 0,
        0 <= x < len,
        0 < upto <= parts,
        x < cut(upto, parts, len),
        cut(0, parts, len) == 0,
    ensures
        exists|k: int| 0 <= k < upto && #[trigger] in_part(k, parts, len, x),
    decreases upto,
{
    if cut(upto - 1, parts, len) <= x {
        assert(in_part(upto - 1, parts, len, x));
    } else {
        lemma_part_exists(parts, len, x, upto - 1);
    }
}

/// Every position of an extent falls into exactly one of its parts.
pub proof fn lemma_parts_partition(parts: int, len: int, x: int)
    requires
        parts > 0,
        0 <= x < len,
    ensures
        exists|k: int| 0 <= k < parts && #[trigger] in_part(k, parts, len, x),
        forall|j: int, k: int|
            0 <= j < parts && 0 <= k < parts && #[trigger] in_part(j, parts, len, x)
                && #[trigger] in_part(k, parts, len, x) ==> j == k,
{
    lemma_cut_ends(parts, len);
    lemma_part_exists(parts, len, x, parts);
    assert forall|j: int, k: int|
        0 <= j < parts && 0 <= k < parts && #[trigger] in_part(j, parts, len, x)
            && #[trigger] in_part(k, parts, len, x) implies j == k by {
        if j < k {
            lemma_cut_monotone(j + 1, k, parts, len);
        } else if k < j {
            lemma_cut_monotone(k + 1, j, parts, len);
        }
    }
}

/// The tiles divide the image: every pixel belongs to exactly one tile.
pub proof fn lemma_tiles_partition(rows: int, cols: int, width: int, height: int, x: int, y: int)
    requires
        rows > 0,
        cols > 0,
        0 <= x < width,
        0 <= y < height,
    ensures
        exists|row: int, col: int|
            0 <= row < rows && 0 <= col < cols && #[trigger] in_tile(
                row,
                col,
                rows,
                cols,
                width,
                height,
                x,
                y,
            ),
        forall|r1: int, c1: int, r2: int, c2: int|
            0 <= r1 < rows && 0 <= c1 < cols && 0 <= r2 < rows && 0 <= c2 < cols && #[trigger] in_tile(
                r1,
                c1,
                rows,
                cols,
                width,
                height,
                x,
                y,
            ) && #[trigger] in_tile(r2, c2, rows, cols, width, height, x, y) ==> r1 == r2 && c1
                == c2,
{
    lemma_parts_partition(cols, width, x);
    lemma_parts_partition(rows, height, y);
    let col = choose|k: int| 0 <= k < cols && #[trigger] in_part(k, cols, width, x);
    let row = choose|k: int| 0 <= k < rows && #[trigger] in_part(k, rows, height, y);
    assert(in_tile(row, col, rows, cols, width, height, x, y));
}

/// Where the `k`-th of `parts` parts of `len` begins.
fn cut_at(k: u32, parts: u32, len: u32) -> (c: u32)
    requires
        k <= parts,
        parts > 0,
    ensures
        c == cut(k as int, parts as int, len as int),
        c <= len,
{
    proof {
        lemma_cut_monotone(k as int, parts as int, parts as int, len as int);
        lemma_cut_monotone(0, k as int, parts as int, len as int);
        lemma_cut_ends(parts as int, len as int);
    }
    assert(k * len <= 0xffff_ffff * 0xffff_ffff) by (nonlinear_arith)
        requires
            k <= 0xffff_ffff,
            len <= 0xffff_ffff,
    ;
    ((k as u64 * len as u64) / parts as u64) as u32
}

/// Renders the pixels of `tile` into the framebuffer and leaves the others
/// as they are. Without samples nothing is rendered, and the answer is
/// `false`.
pub fn render_tile(
    cam: &Camera,
    world: &HittableList,
    tile: Tile,
    samples_per_pixel: u32,
    max_depth: i32,
    fb: &mut Framebuffer,
) -> (done: bool)
    requires
        old(fb).wf(),
        tile.x0 <= tile.x1 <= old(fb).width_spec(),
        tile.y0 <= tile.y1 <= old(fb).height_spec(),
    ensures
        final(fb).wf(),
        final(fb).width_spec() == old(fb).width_spec(),
        final(fb).height_spec() == old(fb).height_spec(),
        done == (samples_per_pixel != 0),
        !done ==> *final(fb) == *old(fb),
        forall|x: int, y: int| !tile.contains(x, y) ==> #[trigger] final(fb).pixel(x, y) == old(fb).pixel(x, y),
        done ==> forall|x: int, y: int|
            tile.contains(x, y) ==> is_rendering(
                *cam,
                world@,
                x,
                y,
                old(fb).width_spec() as u32,
                old(fb).height_spec() as u32,
                samples_per_pixel,
                max_depth as int,
                #[trigger] final(fb).pixel(x, y),
            ),
{
    if samples_per_pixel == 0 {
        return false;
    }
    let width = fb.width();
    let height = fb.height();
    let mut y = tile.y0;
    while y < tile.y1
        invariant
            fb.wf(),
            fb.width_spec() == width == old(fb).width_spec(),
            fb.height_spec() == height == old(fb).height_spec(),
            samples_per_pixel != 0,
            tile.x0 <= tile.x1 <= width,
            tile.y0 <= y <= tile.y1 <= height,
            forall|i: int, j: int| !tile.contains(i, j) ==> #[trigger] fb.pixel(i, j) == old(fb).pixel(i, j),
            forall|i: int, j: int|
                tile.contains(i, j) && j < y ==> is_rendering(
                    *cam,
                    world@,
                    i,
                    j,
                    width,
                    height,
                    samples_per_pixel,
                    max_depth as int,
                    #[trigger] fb.pixel(i, j),
                ),
        decreases tile.y1 - y,
    {
        let mut x = tile.x0;
        while x < tile.x1
            invariant
                fb.wf(),
                fb.width_spec() == width == old(fb).width_spec(),
                fb.height_spec() == height == old(fb).height_spec(),
                samples_per_pixel != 0,
                tile.x0 <= x <= tile.x1 <= width,
                tile.y0 <= y < tile.y1 <= height,
                forall|i: int, j: int|
                    !tile.contains(i, j) ==> #[trigger] fb.pixel(i, j) == old(fb).pixel(i, j),
                forall|i: int, j: int|
                    tile.contains(i, j) && (j < y || (j == y && i < x)) ==> is_rendering(
                        *cam,
                        world@,
                        i,
                        j,
                        width,
                        height,
                        samples_per_pixel,
                        max_depth as int,
                        #[trigger] fb.pixel(i, j),
                    ),
            decreases tile.x1 - x,
        {
            match render_pixel(cam, world, x, y, width, height, samples_per_pixel, max_depth) {
                Some(px) => {
                    fb.put_pixel(x, y, px);
                },
                None => {},
            }
            x += 1;
        }
        y += 1;
    }
    true
}

/// Renders the whole image, tile after tile of a division into `rows` by
/// `cols` tiles. There is no image without samples, without a tile, or
/// of a size that cannot be held.
pub fn render(
    cam: &Camera,
    world: &HittableList,
    width: u32,
    height: u32,
    samples_per_pixel: u32,
    max_depth: i32,
    rows: u32,
    cols: u32,
) -> (res: Option<Framebuffer>)
    ensures
        res.is_some() == (samples_per_pixel != 0 && rows != 0 && cols != 0 && fits(width, height)),
        res matches Some(fb) ==> {
            &&& fb.wf()
            &&& fb.width_spec() == width
            &&& fb.height_spec() == height
            &&& forall|x: int, y: int|
                0 <= x < width && 0 <= y < height ==> is_rendering(
                    *cam,
                    world@,
                    x,
                    y,
                    width,
                    height,
                    samples_per_pixel,
                    max_depth as int,
                    #[trigger] fb.pixel(x, y),
                )
        },
{
    if samples_per_pixel == 0 || rows == 0 || cols == 0 {
        return None;
    }
    let mut fb = match Framebuffer::new(width, height) {
        Some(fb) => fb,
        None => {
            return None;
        },
    };
    proof {
        lemma_cut_ends(rows as int, height as int);
        lemma_cut_ends(cols as int, width as int);
    }
    let mut row: u32 = 0;
    while row < rows
        invariant
            fb.wf(),
            fb.width_spec() == width,
            fb.height_spec() == height,
            samples_per_pixel != 0,
            cols != 0,
            row <= rows,
            cut(0, cols as int, width as int) == 0,
            cut(cols as int, cols as int, width as int) == width,
            cut(rows as int, rows as int, height as int) == height,
            forall|x: int, y: int|
                0 <= x < width && 0 <= y < cut(row as int, rows as int, height as int)
                    ==> is_rendering(
                    *cam,
                    world@,
                    x,
                    y,
                    width,
                    height,
                    samples_per_pixel,
                    max_depth as int,
                    #[trigger] fb.pixel(x, y),
                ),
        decreases rows - row,
    {
        let mut col: u32 = 0;
        while col < cols
            invariant
                fb.wf(),
                fb.width_spec() == width,
                fb.height_spec() == height,
                samples_per_pixel != 0,
                row < rows,
                col <= cols,
                cut(cols as int, cols as int, width as int) == width,
                forall|x: int, y: int|
                    0 <= x < width && 0 <= y < cut(row as int, rows as int, height as int)
                        ==> is_rendering(
                        *cam,
                        world@,
                        x,
                        y,
                        width,
                        height,
                        samples_per_pixel,
                        max_depth as int,
                        #[trigger] fb.pixel(x, y),
                    ),
                forall|x: int, y: int|
                    0 <= x < cut(col as int, cols as int, width as int) && cut(
                        row as int,
                        rows as int,
                        height as int,
                    ) <= y < cut(row + 1, rows as int, height as int) ==> is_rendering(
                        *cam,
                        world@,
                        x,
                        y,
                        width,
                        height,
                        samples_per_pixel,
                        max_depth as int,
                        #[trigger] fb.pixel(x, y),
                    ),
            decreases cols - col,
        {
            let tile = Tile::at(row, col, rows, cols, width, height);
            proof {
                lemma_cut_monotone(0, row as int, rows as int, height as int);
                lemma_cut_monotone(0, col as int, cols as int, width as int);
            }
            let ghost before = fb;
            render_tile(cam, world, tile, samples_per_pixel, max_depth, &mut fb);
            assert forall|x: int, y: int|
                0 <= x < cut(col + 1, cols as int, width as int) && cut(
                    row as int,
                    rows as int,
                    height as int,
                ) <= y < cut(row + 1, rows as int, height as int) implies is_rendering(
                *cam,
                world@,
                x,
                y,
                width,
                height,
                samples_per_pixel,
                max_depth as int,
                #[trigger] fb.pixel(x, y),
            ) by {
                if !tile.contains(x, y) {
                    assert(fb.pixel(x, y) == before.pixel(x, y));
                }
            }
            assert forall|x: int, y: int|
                0 <= x < width && 0 <= y < cut(
                    row as int,
                    rows as int,
                    height as int,
                ) implies is_rendering(
                *cam,
                world@,
                x,
                y,
                width,
                height,
                samples_per_pixel,
                max_depth as int,
                #[trigger] fb.pixel(x, y),
            ) by {
                assert(!tile.contains(x, y));
                assert(fb.pixel(x, y) == before.pixel(x, y));
            }
            col += 1;
        }
        row += 1;
    }
    Some(fb)
}

} // verus!
