use raytracer::fixed::Fixed;
use raytracer::frame::Framebuffer;
use raytracer::model::{Plane, Sphere};
use raytracer::physics::material::{Dielectric, Lambertian, Material, Metal};
use raytracer::physics::{Hittable, HittableList, Ray};
use raytracer::render::{
    background_color, gamma_correction, ray_color, render, render_pixel, render_tile, sample_ray,
    write_color, Tile,
};
use raytracer::rmath::{Camera, Vector3};

fn fx(x: f64) -> Fixed {
    Fixed::from_raw((x * 1e6).round() as i64)
}

fn v(x: f64, y: f64, z: f64) -> Vector3 {
    Vector3(fx(x), fx(y), fx(z))
}

fn pinhole() -> Camera {
    Camera::new(v(0.0, 0.0, 0.0), v(0.0, 0.0, -1.0), v(0.0, 1.0, 0.0), fx(90.0), fx(2.0)).unwrap()
}

fn one_sphere() -> HittableList {
    let mut world = HittableList::new();
    let matte = Material::Lambertian(Lambertian::new(v(0.7, 0.3, 0.3)));
    world.add(Hittable::Sphere(Sphere::new(v(0.0, 0.0, -1.0), fx(0.5), matte)));
    world
}

#[test]
fn ray_color_at_depth_zero_is_black() {
    let world = one_sphere();
    let hits = Ray::new(v(0.0, 0.0, 0.0), v(0.0, 0.0, -1.0));
    let misses = Ray::new(v(0.0, 0.0, 0.0), v(0.0, 1.0, 0.0));
    for depth in [0, -1, i32::MIN] {
        assert_eq!(ray_color(&hits, &world, depth), Vector3::zero());
        assert_eq!(ray_color(&misses, &world, depth), Vector3::zero());
        assert_eq!(ray_color(&misses, &HittableList::new(), depth), Vector3::zero());
    }
}

#[test]
fn background_gradient_straight_up_and_down() {
    let empty = HittableList::new();
    let up = Ray::new(v(0.0, 0.0, 0.0), v(0.0, 1.0, 0.0));
    let down = Ray::new(v(0.0, 0.0, 0.0), v(0.0, -1.0, 0.0));
    assert_eq!(ray_color(&up, &empty, 50), v(0.5, 0.7, 1.0));
    assert_eq!(ray_color(&down, &empty, 50), v(1.0, 1.0, 1.0));
    assert_eq!(background_color(&up), v(0.5, 0.7, 1.0));
    assert_eq!(background_color(&down), v(1.0, 1.0, 1.0));
}

#[test]
fn background_gradient_level_and_degenerate() {
    let level = Ray::new(v(0.0, 0.0, 0.0), v(0.0, 0.0, -3.0));
    assert_eq!(background_color(&level), v(0.75, 0.85, 1.0));
    let still = Ray::new(v(0.0, 0.0, 0.0), Vector3::zero());
    assert_eq!(background_color(&still), Vector3::zero());
    assert_eq!(ray_color(&still, &one_sphere(), 5), Vector3::zero());
}

#[test]
fn ray_color_tints_the_scattered_light() {
    let world = one_sphere();
    let hits = Ray::new(v(0.0, 0.0, 0.0), v(0.0, 0.0, -1.0));
    for _ in 0..50 {
        let c = ray_color(&hits, &world, 1);
        assert_eq!(c, Vector3::zero());
        let d = ray_color(&hits, &world, 2);
        assert!(d.0 <= fx(0.7) && d.1 <= fx(0.3) && d.2 <= fx(0.3));
        assert!(d.0 >= fx(0.0) && d.1 >= fx(0.0) && d.2 >= fx(0.0));
    }
}

#[test]
fn ray_color_through_mirror_and_glass() {
    let mut world = HittableList::new();
    let mirror = Material::Metal(Metal::new(v(0.5, 0.5, 0.5), fx(0.0)));
    world.add(Hittable::Plane(Plane::new(v(0.0, 1.0, 0.0), fx(1.0), mirror)));
    // straight down onto the mirror, straight back up into the sky
    let down = Ray::new(v(0.0, 0.0, 0.0), v(0.0, -1.0, 0.0));
    assert_eq!(ray_color(&down, &world, 5), v(0.25, 0.35, 0.5));
    let mut pane = HittableList::new();
    let glass = Material::Dielectric(Dielectric::new(fx(1.0)));
    pane.add(Hittable::Plane(Plane::new(v(0.0, -1.0, 0.0), fx(1.0), glass)));
    let up = Ray::new(v(0.0, 0.0, 0.0), v(0.0, 1.0, 0.0));
    assert_eq!(ray_color(&up, &pane, 5), v(0.5, 0.7, 1.0));
}

#[test]
fn gamma_and_pixel_bytes() {
    assert_eq!(gamma_correction(fx(0.25)), fx(0.5));
    assert_eq!(gamma_correction(fx(0.0)), fx(0.0));
    assert_eq!(gamma_correction(fx(-1.0)), fx(0.0));
    assert_eq!(write_color(&v(0.25, 1.0, 0.0), 1).unwrap().0, [128, 255, 0]);
    assert_eq!(write_color(&v(1.0, 4.0, 0.0), 4).unwrap().0, [128, 255, 0]);
    assert_eq!(write_color(&v(-1.0, 50.0, 0.04), 4).unwrap().0, [0, 255, 25]);
    assert_eq!(write_color(&v(0.25, 1.0, 0.0), 0), None);
}

#[test]
fn camera_of_the_pinhole_view() {
    let cam = pinhole();
    assert_eq!(cam.origin, v(0.0, 0.0, 0.0));
    assert!((cam.low_left_corner.0.raw + 2_000_000).abs() <= 40);
    assert!((cam.low_left_corner.1.raw + 1_000_000).abs() <= 40);
    assert_eq!(cam.low_left_corner.2, fx(-1.0));
    assert!((cam.horizontal.0.raw - 4_000_000).abs() <= 40);
    assert!((cam.vertical.1.raw - 2_000_000).abs() <= 40);
    let centre = cam.get_ray(fx(0.5), fx(0.5));
    assert_eq!(centre.get_origin(), v(0.0, 0.0, 0.0));
    assert!(centre.get_direction().0.raw.abs() <= 40);
    assert!(centre.get_direction().1.raw.abs() <= 40);
    assert_eq!(centre.get_direction().2, fx(-1.0));
}

#[test]
fn camera_needs_a_line_of_sight() {
    let up = v(0.0, 1.0, 0.0);
    assert_eq!(Camera::new(v(1.0, 1.0, 1.0), v(1.0, 1.0, 1.0), up, fx(90.0), fx(2.0)), None);
    assert_eq!(Camera::new(v(0.0, 0.0, 0.0), v(0.0, 5.0, 0.0), up, fx(90.0), fx(2.0)), None);
    assert!(Camera::new(v(-2.0, 2.0, 1.0), v(0.0, 0.0, -1.0), up, fx(45.0), fx(2.0)).is_some());
}

#[test]
fn sample_ray_at_given_jitter() {
    let cam = pinhole();
    let r = sample_ray(&cam, 0, 4, 8, 4, fx(0.0), fx(0.0)).unwrap();
    assert_eq!(r, cam.get_ray(fx(0.0), fx(0.0)));
    let s = sample_ray(&cam, 4, 2, 8, 4, fx(0.0), fx(0.0)).unwrap();
    assert_eq!(s, cam.get_ray(fx(0.5), fx(0.5)));
    let t = sample_ray(&cam, 3, 1, 8, 4, fx(0.5), fx(0.25)).unwrap();
    assert_eq!(t, cam.get_ray(fx(0.4375), fx(0.8125)));
    assert_eq!(sample_ray(&cam, 0, 0, 0, 4, fx(0.0), fx(0.0)), None);
    assert_eq!(sample_ray(&cam, 0, 0, 8, 0, fx(0.0), fx(0.0)), None);
}

#[test]
fn tiles_divide_the_image() {
    assert_eq!(Tile::at(0, 0, 4, 4, 384, 192), Tile { x0: 0, x1: 96, y0: 0, y1: 48 });
    assert_eq!(Tile::at(3, 3, 4, 4, 384, 192), Tile { x0: 288, x1: 384, y0: 144, y1: 192 });
    assert_eq!(Tile::at(1, 2, 4, 4, 384, 192), Tile { x0: 192, x1: 288, y0: 48, y1: 96 });
    // an extent that the tiling does not divide is still covered
    let mut covered = vec![0u32; 10 * 7];
    for row in 0..3u32 {
        for col in 0..4u32 {
            let t = Tile::at(row, col, 3, 4, 10, 7);
            for y in t.y0..t.y1 {
                for x in t.x0..t.x1 {
                    covered[(y * 10 + x) as usize] += 1;
                }
            }
        }
    }
    assert!(covered.iter().all(|&n| n == 1));
    assert_eq!(Tile::at(0, 0, 1, 1, 0, 0), Tile { x0: 0, x1: 0, y0: 0, y1: 0 });
}

#[test]
fn framebuffer_holds_what_was_put() {
    let mut fb = Framebuffer::new(3, 2).unwrap();
    assert_eq!((fb.width(), fb.height()), (3, 2));
    assert_eq!(fb.get_pixel(2, 1), (0, 0, 0));
    fb.put_pixel(2, 1, v(0.0, 0.5, 0.999).into_rgb());
    fb.put_pixel(0, 0, v(0.999, 0.0, 0.0).into_rgb());
    assert_eq!(fb.get_pixel(2, 1), (0, 128, 255));
    assert_eq!(fb.get_pixel(0, 0), (255, 0, 0));
    assert_eq!(fb.get_pixel(1, 0), (0, 0, 0));
    let raw = fb.into_raw();
    assert_eq!(raw.len(), 18);
    assert_eq!(&raw[0..3], &[255, 0, 0]);
    assert_eq!(&raw[15..18], &[0, 128, 255]);
    assert_eq!(&raw[3..15], &[0u8; 12]);
    assert!(Framebuffer::new(0, 0).is_some());
}

#[test]
fn render_tile_writes_only_its_pixels() {
    let cam = pinhole();
    let world = HittableList::new();
    let mut fb = Framebuffer::new(8, 4).unwrap();
    let tile = Tile { x0: 2, x1: 5, y0: 1, y1: 3 };
    assert!(render_tile(&cam, &world, tile, 1, 1, &mut fb));
    for y in 0..4 {
        for x in 0..8 {
            let inside = 2 <= x && x < 5 && 1 <= y && y < 3;
            assert_eq!(fb.get_pixel(x, y) != (0, 0, 0), inside);
        }
    }
    assert!(!render_tile(&cam, &world, tile, 0, 1, &mut fb));
}

#[test]
fn render_needs_samples_and_tiles() {
    let cam = pinhole();
    let world = one_sphere();
    assert!(render(&cam, &world, 4, 2, 0, 1, 1, 1).is_none());
    assert!(render(&cam, &world, 4, 2, 1, 1, 0, 1).is_none());
    assert!(render(&cam, &world, 4, 2, 1, 1, 1, 0).is_none());
    assert!(render_pixel(&cam, &world, 0, 0, 4, 2, 0, 1).is_none());
    assert!(render_pixel(&cam, &world, 0, 0, 0, 2, 1, 1).is_none());
    assert!(render_pixel(&cam, &world, 0, 0, 4, 2, 1, 1).is_some());
}

#[test]
fn end_to_end_single_sphere() {
    let cam = pinhole();
    let world = one_sphere();
    let (width, height) = (40u32, 20u32);
    let fb = render(&cam, &world, width, height, 1, 1, 2, 2).unwrap();
    assert_eq!((fb.width(), fb.height()), (width, height));
    // the centre pixel sees the sphere: at depth one its light is black
    let centre = fb.get_pixel(width / 2, height / 2);
    assert_eq!(centre, (0, 0, 0));
    for (x, y) in [(0, 0), (width - 1, 0), (0, height - 1), (width - 1, height - 1)] {
        let got = fb.get_pixel(x, y);
        assert_ne!(got, centre);
        // the background at the two opposite corners of the pixel bounds every sample
        let low = sample_ray(&cam, x, y, width, height, fx(0.0), fx(0.0)).unwrap();
        let high = sample_ray(&cam, x, y, width, height, fx(0.999999), fx(0.999999)).unwrap();
        let a = write_color(&ray_color(&low, &world, 1), 1).unwrap().0;
        let b = write_color(&ray_color(&high, &world, 1), 1).unwrap().0;
        let c = [got.0, got.1, got.2];
        for k in 0..3 {
            assert!(a[k].min(b[k]) <= c[k] && c[k] <= a[k].max(b[k]), "{:?} {:?} {:?}", a, b, c);
        }
    }
}

#[test]
fn framebuffer_of_a_size_that_cannot_be_held() {
    assert!(Framebuffer::new(u32::MAX, u32::MAX).is_none());
    assert!(Framebuffer::new(0, u32::MAX).is_some());
    assert!(Framebuffer::new(5, 0).is_some());
    let cam = pinhole();
    assert!(render(&cam, &one_sphere(), u32::MAX, u32::MAX, 1, 1, 1, 1).is_none());
}

#[test]
fn light_is_a_colour_where_the_tints_are() {
    let mut world = one_sphere();
    let mirror = Material::Metal(Metal::new(v(1.0, 1.0, 1.0), fx(0.3)));
    world.add(Hittable::Plane(Plane::new(v(0.0, 1.0, 0.0), fx(0.5), mirror)));
    let glass = Material::Dielectric(Dielectric::new(fx(1.5)));
    world.add(Hittable::Sphere(Sphere::new(v(1.0, 0.0, -1.0), fx(0.5), glass)));
    let cam = pinhole();
    for k in 0..200u32 {
        let ray = sample_ray(&cam, k % 20, k / 20, 20, 10, fx(0.5), fx(0.5)).unwrap();
        let c = ray_color(&ray, &world, 8);
        for channel in [c.0, c.1, c.2] {
            assert!(fx(0.0) <= channel && channel <= fx(1.0), "{:?}", c);
        }
    }
}

#[test]
fn face_normal_opposes_every_ray() {
    for i in -5..5i64 {
        for j in -5..5i64 {
            let dir = Vector3(Fixed::from_raw(i * 300_001), Fixed::from_raw(j * 700_003), fx(-1.0));
            let out = Vector3(Fixed::from_raw(j * 111_111), Fixed::from_raw(i * 222_222), fx(0.5));
            let r = Ray::new(v(0.0, 0.0, 0.0), dir);
            let (front, normal) = raytracer::physics::HitRecord::get_face_normal(&r, out);
            assert!(dir.dot(normal).raw <= 0);
            assert_eq!(front, dir.dot(out).raw < 0);
        }
    }
}
