use ray_tracing_in_one_weekend::frame::Frame;
use ray_tracing_in_one_weekend::hit::{candidate, face, nearest, Roots};
use ray_tracing_in_one_weekend::material::{clamp_cosine, dielectric, lambertian, metal, Bend};
use ray_tracing_in_one_weekend::path::{Event, Path, Shade};
use ray_tracing_in_one_weekend::pixel::Rgb;
use ray_tracing_in_one_weekend::vector::{in_unit_ball, Vector};

type V = [f64; 3];

fn add(a: V, b: V) -> V {
    [a[0] + b[0], a[1] + b[1], a[2] + b[2]]
}

fn sub(a: V, b: V) -> V {
    [a[0] - b[0], a[1] - b[1], a[2] - b[2]]
}

fn scale(t: f64, a: V) -> V {
    [t * a[0], t * a[1], t * a[2]]
}

fn tint(a: V, b: V) -> V {
    [a[0] * b[0], a[1] * b[1], a[2] * b[2]]
}

fn dot(a: V, b: V) -> f64 {
    a[0] * b[0] + a[1] * b[1] + a[2] * b[2]
}

fn bits(a: V) -> Vector {
    Vector {
        x: a[0].to_bits(),
        y: a[1].to_bits(),
        z: a[2].to_bits(),
    }
}

fn doubles(a: Vector) -> V {
    [f64::from_bits(a.x), f64::from_bits(a.y), f64::from_bits(a.z)]
}

fn unit(a: V) -> V {
    scale(1. / dot(a, a).sqrt(), a)
}

struct Source {
    state: u64,
}

impl Source {
    fn draw(&mut self) -> f64 {
        self.state ^= self.state << 13;
        self.state ^= self.state >> 7;
        self.state ^= self.state << 17;
        (self.state >> 11) as f64 / (1u64 << 53) as f64
    }

    fn in_unit_ball(&mut self) -> V {
        loop {
            let v = [
                2. * self.draw() - 1.,
                2. * self.draw() - 1.,
                2. * self.draw() - 1.,
            ];
            if in_unit_ball(dot(v, v).to_bits()) {
                return v;
            }
        }
    }
}

#[derive(Clone, Copy)]
enum Surface {
    Lambertian,
    Metal { fuzz: f64 },
    Dielectric { ir: f64 },
}

struct Ball {
    center: V,
    radius: f64,
    albedo: V,
    surface: Surface,
}

fn matte(center: V, radius: f64, albedo: V) -> Ball {
    Ball {
        center,
        radius,
        albedo,
        surface: Surface::Lambertian,
    }
}

fn reflect(v: V, n: V) -> V {
    sub(v, scale(2.0 * dot(v, n), n))
}

fn refract(v: V, n: V, ratio: f64) -> V {
    let cos_theta = dot(scale(-1.0, v), n);
    let perp = scale(ratio, add(v, scale(cos_theta, n)));
    let parallel = scale(-(1.0 - dot(perp, perp)).sqrt(), n);
    add(perp, parallel)
}

fn schlick(cosine: f64, ref_idx: f64) -> f64 {
    let r0 = ((1. - ref_idx) / (1. + ref_idx)).powi(2);
    r0 + (1. - r0) * (1. - cosine).powi(5)
}

/// The attenuation and the direction of the scattered ray, or `None` for a
/// ray that is absorbed.
fn scatter(
    ball: &Ball,
    direction: V,
    normal: Vector,
    front_face: bool,
    source: &mut Source,
) -> Option<(V, V)> {
    match ball.surface {
        Surface::Lambertian => {
            let sum = add(doubles(normal), unit(source.in_unit_ball()));
            Some((ball.albedo, doubles(lambertian(bits(sum), normal))))
        }
        Surface::Metal { fuzz } => {
            let reflected = reflect(unit(direction), doubles(normal));
            let scattered = add(reflected, scale(fuzz, source.in_unit_ball()));
            if metal(dot(scattered, doubles(normal)).to_bits()) {
                Some((ball.albedo, scattered))
            } else {
                None
            }
        }
        Surface::Dielectric { ir } => {
            let ratio = if front_face { 1.0 / ir } else { ir };
            let incoming = unit(direction);
            let cos_theta = f64::from_bits(clamp_cosine(
                dot(scale(-1.0, incoming), doubles(normal)).to_bits(),
            ));
            let sin_theta = (1. - cos_theta * cos_theta).sqrt();
            let draw = source.draw();
            let outgoing = match dielectric(
                (ratio * sin_theta).to_bits(),
                draw.to_bits(),
                schlick(cos_theta, ratio).to_bits(),
            ) {
                Bend::Reflect => reflect(incoming, doubles(normal)),
                Bend::Refract => refract(incoming, doubles(normal), ratio),
            };
            Some(([1., 1., 1.], outgoing))
        }
    }
}

impl Ball {
    fn roots(&self, origin: V, direction: V) -> Option<Roots> {
        let oc = sub(origin, self.center);
        let a = dot(direction, direction);
        let half_b = dot(oc, direction);
        let c = dot(oc, oc) - self.radius * self.radius;
        let discriminant = half_b * half_b - a * c;
        let sqrtd = discriminant.sqrt();
        candidate(
            discriminant.to_bits(),
            ((-half_b - sqrtd) / a).to_bits(),
            ((-half_b + sqrtd) / a).to_bits(),
        )
    }
}

fn sky(direction: V) -> V {
    let t = 0.5 * (unit(direction)[1] + 1.0);
    add(scale(1.0 - t, [1., 1., 1.]), scale(t, [0.5, 0.7, 1.0]))
}

/// The colour along a ray, and the events of its path.
fn ray_color(
    world: &[Ball],
    origin: V,
    direction: V,
    depth: u64,
    source: &mut Source,
) -> (V, Vec<Event>) {
    trace(world, origin, direction, depth, 0., source)
}

fn trace(
    world: &[Ball],
    mut origin: V,
    mut direction: V,
    depth: u64,
    t_min: f64,
    source: &mut Source,
) -> (V, Vec<Event>) {
    let mut path = Path::new(depth);
    let mut attenuation = [1., 1., 1.];
    let mut events = Vec::new();
    loop {
        match path.shade() {
            Some(Shade::Black) => return ([0., 0., 0.], events),
            Some(Shade::Sky) => return (tint(attenuation, sky(direction)), events),
            None => {}
        }
        let candidates: Vec<Option<Roots>> =
            world.iter().map(|b| b.roots(origin, direction)).collect();
        let event = match nearest(&candidates, t_min.to_bits(), f64::INFINITY.to_bits()) {
            None => Event::Miss,
            Some(found) => {
                let ball = &world[found.shape];
                let t = f64::from_bits(found.t.to_bits());
                let p = add(origin, scale(t, direction));
                let outward = scale(1. / ball.radius, sub(p, ball.center));
                let side = face(dot(direction, outward).to_bits(), bits(outward));
                match scatter(ball, direction, side.normal, side.front_face, source) {
                    None => Event::Absorbed,
                    Some((albedo, scattered)) => {
                        attenuation = tint(attenuation, albedo);
                        origin = p;
                        direction = scattered;
                        Event::Scattered
                    }
                }
            }
        };
        events.push(event);
        path.record(event);
    }
}

/// The ray of the camera at the origin that looks down the negative z axis,
/// through the place (`u`, `v`) of a viewport of height 2 at distance 1.
fn camera_ray(u: f64, v: f64, aspect_ratio: f64) -> (V, V) {
    let horizontal = [2. * aspect_ratio, 0., 0.];
    let vertical = [0., 2., 0.];
    let lower_left = [-aspect_ratio, -1., -1.];
    (
        [0., 0., 0.],
        add(lower_left, add(scale(u, horizontal), scale(v, vertical))),
    )
}

fn quantized(sum: V, samples: u64) -> Rgb {
    let n = samples as f64;
    Rgb::quantize(
        (sum[0] / n).sqrt().to_bits(),
        (sum[1] / n).sqrt().to_bits(),
        (sum[2] / n).sqrt().to_bits(),
    )
}

fn render(world: &[Ball], width: u32, height: u32, samples: u64, depth: u64) -> Frame {
    let aspect_ratio = width as f64 / height as f64;
    let mut source = Source {
        state: 0x0123_4567_89ab_cdef,
    };
    let mut frame = Frame::new(width, height).unwrap();
    while let Some((i, j)) = frame.cursor() {
        let mut sum = [0., 0., 0.];
        for _ in 0..samples {
            let u = (i as f64 + source.draw()) / (width as f64 - 1.0);
            let v = (j as f64 + source.draw()) / (height as f64 - 1.0);
            let (origin, direction) = camera_ray(u, v, aspect_ratio);
            sum = add(sum, ray_color(world, origin, direction, depth, &mut source).0);
        }
        frame.push(quantized(sum, samples)).unwrap();
    }
    frame
}

#[test]
fn a_white_sphere_before_the_sky() {
    let world = [matte([0., 0., -1.], 0.5, [1., 1., 1.])];
    let frame = render(&world, 256, 144, 100, 5);
    assert!(frame.is_complete());
    let bytes = frame.as_bytes();
    assert_eq!(bytes.len(), 256 * 144 * 4);
    assert!(bytes.chunks(4).all(|pixel| pixel[3] == 255));

    let sphere = frame.pixel(128, 72).unwrap();
    let (_, towards_center) = camera_ray(128.5 / 255., 72.5 / 143., 256. / 144.);
    let gradient = quantized(sky(towards_center), 1);
    assert_ne!(sphere, gradient);
    assert!(sphere.r <= gradient.r && sphere.g <= gradient.g && sphere.b < gradient.b);

    let corner = frame.pixel(0, 143).unwrap();
    let (_, towards_corner) = camera_ray(0.5 / 255., 143.5 / 143., 256. / 144.);
    let above = quantized(sky(towards_corner), 1);
    assert!((corner.r as i32 - above.r as i32).abs() <= 1);
    assert!((corner.g as i32 - above.g as i32).abs() <= 1);
    assert!((corner.b as i32 - above.b as i32).abs() <= 1);
}

#[test]
fn an_empty_world_shows_the_gradient() {
    let mut source = Source { state: 0xfeed_f00d };
    let (width, height) = (64u32, 36u32);
    for j in 0..height {
        for i in 0..width {
            let u = (i as f64 + source.draw()) / (width as f64 - 1.0);
            let v = (j as f64 + source.draw()) / (height as f64 - 1.0);
            let (origin, direction) = camera_ray(u, v, 16. / 9.);
            let (color, events) = ray_color(&[], origin, direction, 5, &mut source);
            assert_eq!(events, vec![Event::Miss]);
            let t = 0.5 * (unit(direction)[1] + 1.0);
            let expected = [
                (1.0 - t) * 1.0 + t * 0.5,
                (1.0 - t) * 1.0 + t * 0.7,
                (1.0 - t) * 1.0 + t * 1.0,
            ];
            assert_eq!(color, expected);
        }
    }
    let frame = render(&[], 16, 9, 4, 5);
    for row in 0..9 {
        for column in 0..16 {
            let pixel = frame.pixel(column, row).unwrap();
            assert_eq!(pixel.b, 255);
            assert!(pixel.r >= 181 && pixel.r < pixel.g && pixel.g < pixel.b);
        }
    }
    let top = frame.pixel(8, 8).unwrap();
    let bottom = frame.pixel(8, 0).unwrap();
    assert!(top.r < bottom.r);
}

#[test]
fn without_depth_the_image_is_black() {
    let world = [matte([0., 0., -1.], 0.5, [1., 1., 1.])];
    let mut source = Source { state: 7 };
    for world in [&world[..], &[]] {
        let (color, events) = ray_color(world, [0., 0., 0.], [0., 0., -1.], 0, &mut source);
        assert_eq!(color, [0., 0., 0.]);
        assert!(events.is_empty());
    }
    let frame = render(&world, 8, 4, 3, 0);
    assert_eq!(frame.as_bytes().len(), 8 * 4 * 4);
    assert!(frame.as_bytes().chunks(4).all(|p| p == [0, 0, 0, 255]));
}

#[test]
fn a_path_casts_no_more_rays_than_its_depth() {
    let world = [
        matte([0., 0., -1.], 0.5, [0.5, 0.5, 0.5]),
        matte([0., -100.5, -1.], 100.0, [0.5, 0.5, 0.5]),
    ];
    let mut source = Source { state: 0xabcdef };
    for depth in 1..6u64 {
        for _ in 0..500 {
            let u = source.draw();
            let v = source.draw();
            let (origin, direction) = camera_ray(u, v, 16. / 9.);
            let (color, events) = ray_color(&world, origin, direction, depth, &mut source);
            assert!(events.len() as u64 <= depth);
            assert!(!events.is_empty());
            let last = *events.last().unwrap();
            if last == Event::Scattered {
                assert_eq!(events.len() as u64, depth);
                assert_eq!(color, [0., 0., 0.]);
            } else {
                assert_eq!(last, Event::Miss);
                assert!(color[2] > 0.);
            }
            assert!(events[..events.len() - 1].iter().all(|e| *e == Event::Scattered));
        }
    }
}

#[test]
fn a_mirror_shows_the_sky_behind_the_camera() {
    let world = [Ball {
        center: [0., 0., -2.],
        radius: 1.0,
        albedo: [0.8, 0.6, 0.2],
        surface: Surface::Metal { fuzz: 0. },
    }];
    let mut source = Source { state: 11 };
    let direction = [0., 0.25, -1.];
    let (color, events) = trace(&world, [0., 0., 0.], direction, 5, 0.001, &mut source);
    assert_eq!(events, vec![Event::Scattered, Event::Miss]);
    let candidates = vec![world[0].roots([0., 0., 0.], direction)];
    let found = nearest(&candidates, 0.001f64.to_bits(), f64::INFINITY.to_bits()).unwrap();
    let t = f64::from_bits(found.t.to_bits());
    let p = scale(t, direction);
    let normal = sub(p, world[0].center);
    let reflected = reflect(unit(direction), normal);
    assert!(reflected[2] > 0. && reflected[1] > 0.);
    assert_eq!(color, tint([0.8, 0.6, 0.2], sky(reflected)));
}

#[test]
fn a_metal_absorbs_a_ray_that_is_fuzzed_into_it() {
    let world = [Ball {
        center: [0., 0., -2.],
        radius: 1.0,
        albedo: [0.8, 0.8, 0.8],
        surface: Surface::Metal { fuzz: 1.0 },
    }];
    let mut source = Source { state: 0x5eed };
    let (mut absorbed, mut scattered) = (0, 0);
    for _ in 0..2_000 {
        let direction = [0.7 * (source.draw() - 0.5), 0.7 * (source.draw() - 0.5), -1.];
        let (color, events) = trace(&world, [0., 0., 0.], direction, 1, 0.001, &mut source);
        match events[..] {
            [Event::Absorbed] => {
                absorbed += 1;
                assert_eq!(color, [0., 0., 0.]);
            }
            [Event::Scattered] => scattered += 1,
            _ => panic!("a ray towards the sphere left it aside"),
        }
    }
    assert!(absorbed > 0 && scattered > absorbed);
}

#[test]
fn a_glass_sphere_passes_or_reflects_every_ray() {
    let world = [Ball {
        center: [0., 0., -2.],
        radius: 1.0,
        albedo: [1., 1., 1.],
        surface: Surface::Dielectric { ir: 1.5 },
    }];
    let mut source = Source { state: 0x91a55 };
    let mut through = 0;
    for _ in 0..2_000 {
        let direction = [0.7 * (source.draw() - 0.5), 0.7 * (source.draw() - 0.5), -1.];
        let (color, events) = trace(&world, [0., 0., 0.], direction, 50, 0.001, &mut source);
        assert!(events.iter().all(|e| *e != Event::Absorbed));
        assert_eq!(*events.last().unwrap(), Event::Miss);
        assert!(color[0] >= 0.5 && color[2] == 1.0, "{:?}", color);
        if events.len() == 3 {
            through += 1;
        }
    }
    assert!(through > 1_000);
}

#[test]
fn a_scene_of_three_materials_fills_its_frame() {
    let world = [
        matte([0., -100.5, -1.], 100.0, [0.8, 0.8, 0.0]),
        matte([0., 0., -1.], 0.5, [0.1, 0.2, 0.5]),
        Ball {
            center: [-1., 0., -1.],
            radius: 0.5,
            albedo: [1., 1., 1.],
            surface: Surface::Dielectric { ir: 1.5 },
        },
        Ball {
            center: [1., 0., -1.],
            radius: 0.5,
            albedo: [0.8, 0.6, 0.2],
            surface: Surface::Metal { fuzz: 0.3 },
        },
    ];
    let frame = render(&world, 64, 36, 8, 10);
    assert!(frame.is_complete());
    assert_eq!(frame.as_bytes().len(), 64 * 36 * 4);
    assert!(frame.as_bytes().chunks(4).all(|p| p[3] == 255));
    let sky_pixel = frame.pixel(32, 35).unwrap();
    let ground_pixel = frame.pixel(32, 0).unwrap();
    assert_eq!(sky_pixel.b, 255);
    assert!(ground_pixel.b < 128 && ground_pixel.r > ground_pixel.b);
}
