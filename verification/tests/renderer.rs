//! End-to-end exercises of the hierarchy and the integrator with a concrete
//! floating-point geometry kernel supplied through the closure parameters:
//! spheres, the slab box test, and a small set of materials.

use raybow::geometry::bvh::{split_middle, Branch, Bvh, Tagged};
use raybow::material::MaterialHitResult;
use raybow::philox::Philox4x32_10;
use raybow::raybow::{pixel_coords, ray_color, WorkerState};

#[derive(Clone, Copy, PartialEq, Debug)]
struct Vec3 {
    x: f32,
    y: f32,
    z: f32,
}

impl Vec3 {
    fn new(x: f32, y: f32, z: f32) -> Vec3 {
        Vec3 { x, y, z }
    }

    fn plus(self, o: Vec3) -> Vec3 {
        Vec3::new(self.x + o.x, self.y + o.y, self.z + o.z)
    }

    fn minus(self, o: Vec3) -> Vec3 {
        Vec3::new(self.x - o.x, self.y - o.y, self.z - o.z)
    }

    fn scale(self, s: f32) -> Vec3 {
        Vec3::new(self.x * s, self.y * s, self.z * s)
    }

    fn times(self, o: Vec3) -> Vec3 {
        Vec3::new(self.x * o.x, self.y * o.y, self.z * o.z)
    }

    fn dot(self, o: Vec3) -> f32 {
        self.x * o.x + self.y * o.y + self.z * o.z
    }

    fn length(self) -> f32 {
        self.dot(self).sqrt()
    }

    fn normalize(self) -> Vec3 {
        self.scale(1.0 / self.length())
    }

    fn min3(self, o: Vec3) -> Vec3 {
        Vec3::new(self.x.min(o.x), self.y.min(o.y), self.z.min(o.z))
    }

    fn max3(self, o: Vec3) -> Vec3 {
        Vec3::new(self.x.max(o.x), self.y.max(o.y), self.z.max(o.z))
    }

    fn axis(self, k: usize) -> f32 {
        match k {
            0 => self.x,
            1 => self.y,
            _ => self.z,
        }
    }
}

const BLACK: Vec3 = Vec3 { x: 0.0, y: 0.0, z: 0.0 };
const WHITE: Vec3 = Vec3 { x: 1.0, y: 1.0, z: 1.0 };

#[derive(Clone, Copy, PartialEq, Debug)]
struct Ray {
    origin: Vec3,
    direction: Vec3,
}

impl Ray {
    fn new(origin: Vec3, velocity: Vec3) -> Ray {
        Ray { origin, direction: velocity.normalize() }
    }

    fn at(self, t: f32) -> Vec3 {
        self.origin.plus(self.direction.scale(t))
    }
}

#[derive(Clone, Copy, Debug)]
struct Aabb {
    minimum: Vec3,
    maximum: Vec3,
}

impl Aabb {
    fn merge(self, o: Aabb) -> Aabb {
        Aabb { minimum: self.minimum.min3(o.minimum), maximum: self.maximum.max3(o.maximum) }
    }

    fn surface_area(self) -> f32 {
        let d = self.maximum.minus(self.minimum);
        2.0 * (d.x * d.y + d.x * d.z + d.y * d.z)
    }

    fn slab_hit(self, ray: Ray, t_start: f32, t_end: f32) -> bool {
        let inv = Vec3::new(1.0 / ray.direction.x, 1.0 / ray.direction.y, 1.0 / ray.direction.z);
        let t0 = self.minimum.minus(ray.origin).times(inv);
        let t1 = self.maximum.minus(ray.origin).times(inv);
        let mut tmin = t_start;
        let mut tmax = t_end;
        for k in 0..3 {
            tmin = f32::min(f32::max(t0.axis(k), tmin), f32::max(t1.axis(k), tmin));
            tmax = f32::max(f32::min(t0.axis(k), tmax), f32::min(t1.axis(k), tmax));
        }
        tmin <= tmax * 1.000_001
    }
}

const EMPTY_BOX: Aabb = Aabb { minimum: BLACK, maximum: BLACK };

#[derive(Clone, Copy, Debug, PartialEq)]
enum Material {
    Light(Vec3),
    Absorb,
    Lambertian(Vec3),
}

#[derive(Clone, Copy, Debug)]
struct Sphere {
    center: Vec3,
    radius: f32,
    material: Material,
}

impl Sphere {
    fn bounding_box(self) -> Aabb {
        let r = Vec3::new(self.radius, self.radius, self.radius);
        Aabb { minimum: self.center.minus(r), maximum: self.center.plus(r) }
    }

    fn hit(self, ray: Ray, t_min: f32, t_max: f32) -> Option<(f32, Vec3, Vec3, bool)> {
        let oc = self.center.minus(ray.origin);
        let tca = oc.dot(ray.direction);
        if tca < 0.0 {
            return None;
        }
        let d2 = oc.dot(oc) - tca * tca;
        let r2 = self.radius * self.radius;
        if d2 > r2 {
            return None;
        }
        let thc = (r2 - d2).sqrt();
        let mut t = tca - thc;
        if t < t_min || t > t_max {
            t = tca + thc;
            if t < t_min || t > t_max {
                return None;
            }
        }
        let point = ray.at(t);
        let outward = point.minus(self.center).scale(1.0 / self.radius);
        let front = ray.direction.dot(outward) < 0.0;
        let normal = if front { outward } else { outward.scale(-1.0) };
        Some((t, point, normal, front))
    }
}

#[derive(Clone, Copy)]
struct Info {
    centroid: Vec3,
    bounds: Aabb,
}

#[derive(Clone, Copy)]
struct TraceState {
    ray: Ray,
    t_min: f32,
    t_max: f32,
    nearest: Option<(usize, f32, Vec3, Vec3, bool)>,
}

fn sah_cost(v: &[Tagged<Info>], lo: usize, hi: usize, pos: f32, axis: usize) -> f32 {
    let mut left_count = 0u32;
    let mut right_count = 0u32;
    let mut left: Option<Aabb> = None;
    let mut right: Option<Aabb> = None;
    for rec in &v[lo..hi] {
        if rec.info.centroid.axis(axis) < pos {
            left_count += 1;
            left = Some(left.map_or(rec.info.bounds, |a| a.merge(rec.info.bounds)));
        } else {
            right_count += 1;
            right = Some(right.map_or(rec.info.bounds, |a| a.merge(rec.info.bounds)));
        }
    }
    left.map_or(0.0, Aabb::surface_area) * left_count as f32
        + right.map_or(0.0, Aabb::surface_area) * right_count as f32
}

fn sah_split(mut v: Vec<Tagged<Info>>, lo: usize, hi: usize) -> (Vec<Tagged<Info>>, usize) {
    let mut best_cost = f32::INFINITY;
    let mut best = (0.0f32, 0usize);
    for axis in 0..3 {
        for rec in &v[lo..hi] {
            let pos = rec.info.centroid.axis(axis);
            let cost = sah_cost(&v, lo, hi, pos, axis);
            if cost < best_cost {
                best_cost = cost;
                best = (pos, axis);
            }
        }
    }
    let (pos, axis) = best;
    let m = split_middle(
        &mut v,
        lo,
        hi,
        &move |rec: Tagged<Info>| rec.info.centroid.axis(axis) < pos,
        &move |a: &Tagged<Info>, b: &Tagged<Info>| {
            a.info.centroid.axis(axis).total_cmp(&b.info.centroid.axis(axis))
        },
    );
    (v, m)
}

fn build_bvh(spheres: Vec<Sphere>) -> Bvh<Sphere, Aabb> {
    let (bvh, _records) = Bvh::new(
        spheres,
        &|s: &Sphere| Info {
            centroid: s.bounding_box().minimum.plus(s.bounding_box().maximum).scale(0.5),
            bounds: s.bounding_box(),
        },
        &sah_split,
        &|i: Info| i.bounds,
        &|a: Aabb, b: Aabb| a.merge(b),
        EMPTY_BOX,
    );
    bvh
}

fn box_mask(s: &TraceState, branch: &Branch<Aabb>) -> u8 {
    let mut mask = 0u8;
    for (k, b) in branch.boxes.iter().enumerate() {
        if b.slab_hit(s.ray, s.t_min, s.t_max) {
            mask |= 1 << k;
        }
    }
    mask
}

fn bvh_nearest(bvh: &Bvh<Sphere, Aabb>, ray: Ray) -> Option<(usize, f32, Vec3, Vec3, bool)> {
    let objects = bvh.objects();
    let scan = |mut s: TraceState, i: usize| -> TraceState {
        if let Some((t, p, n, front)) = objects[i].hit(s.ray, s.t_min, s.t_max) {
            s.t_max = t;
            s.nearest = Some((i, t, p, n, front));
        }
        s
    };
    let s0 = TraceState { ray, t_min: 1e-4, t_max: f32::INFINITY, nearest: None };
    bvh.hit(s0, &box_mask, &scan).nearest
}

fn brute_force_nearest(spheres: &[Sphere], ray: Ray) -> Option<(usize, f32, Vec3, Vec3, bool)> {
    let mut t_max = f32::INFINITY;
    let mut nearest = None;
    for (i, s) in spheres.iter().enumerate() {
        if let Some((t, p, n, front)) = s.hit(ray, 1e-4, t_max) {
            t_max = t;
            nearest = Some((i, t, p, n, front));
        }
    }
    nearest
}

fn unit_floats(words: [u32; 4]) -> [f32; 4] {
    words.map(|x| (x >> 8) as f32 * (f32::EPSILON / 2.0))
}

fn random_unit_vector(angle: f32, z: f32) -> Vec3 {
    let theta = angle * std::f32::consts::TAU;
    let z = -1.0 + z * 2.0;
    let tmp = (1.0f32 - z * z).sqrt();
    Vec3::new(theta.cos() * tmp, theta.sin() * tmp, z)
}

/// Traces one camera ray through the scene: the library integrator driving
/// the library hierarchy, with the materials responding here.
fn trace_pixel(bvh: &Bvh<Sphere, Aabb>, mut state: WorkerState, ray: Ray) -> (WorkerState, Vec3) {
    let trace = |mut w: WorkerState, ray: Ray| -> (
        WorkerState,
        Option<MaterialHitResult<Vec3, Ray>>,
    ) {
        w.ray_number += 1;
        match bvh_nearest(bvh, ray) {
            None => (w, None),
            Some((i, _t, point, normal, _front)) => {
                let response = match bvh.objects()[i].material {
                    Material::Light(emit) => MaterialHitResult::emitting(emit),
                    Material::Absorb => MaterialHitResult::emitting(BLACK),
                    Material::Lambertian(albedo) => {
                        let [angle, z, ..] = unit_floats(w.gen_random_words());
                        let mut dir = normal.plus(random_unit_vector(angle, z));
                        if dir.length() < 1e-6 {
                            dir = normal;
                        }
                        MaterialHitResult::reflecting(Ray::new(point, dir), albedo, BLACK)
                    }
                };
                (w, Some(response))
            }
        }
    };
    let (w, color, _chain) = ray_color(
        state,
        ray,
        50,
        &trace,
        &|a: Vec3, b: Vec3| a.plus(b),
        &|a: Vec3, b: Vec3| a.times(b),
        BLACK,
        BLACK,
        WHITE,
    );
    state = w;
    (state, color)
}

fn grid_of_spheres() -> Vec<Sphere> {
    let mut spheres = Vec::new();
    let mats = [
        Material::Lambertian(Vec3::new(0.5, 0.6, 0.7)),
        Material::Absorb,
        Material::Light(Vec3::new(2.0, 2.0, 2.0)),
    ];
    let mut m = 0;
    for a in -2i32..3 {
        for b in -2i32..3 {
            for c in -2i32..3 {
                spheres.push(Sphere {
                    center: Vec3::new(a as f32 * 2.0, b as f32 * 2.0, c as f32 * 2.0),
                    radius: 0.4 + 0.05 * ((a + b + c).rem_euclid(3)) as f32,
                    material: mats[m % 3],
                });
                m += 1;
            }
        }
    }
    spheres
}

#[test]
fn bvh_matches_brute_force_on_random_rays() {
    // The core correctness property: the hierarchy finds the same nearest
    // intersection as a linear scan over all primitives.
    let spheres = grid_of_spheres();
    let bvh = build_bvh(spheres.clone());
    let gen = Philox4x32_10([0xABCD_EF01, 0x2345_6789]);
    for trial in 0..500u32 {
        let [a, b, c, d] = unit_floats(gen.gen([trial, 0, 0, 0]));
        let [e, f, ..] = unit_floats(gen.gen([trial, 1, 0, 0]));
        let origin = Vec3::new(-8.0 + 16.0 * a, -8.0 + 16.0 * b, -8.0 + 16.0 * c);
        let dir = Vec3::new(-1.0 + 2.0 * d, -1.0 + 2.0 * e, -1.0 + 2.0 * f);
        if dir.length() < 1e-3 {
            continue;
        }
        let ray = Ray::new(origin, dir);
        let fast = bvh_nearest(&bvh, ray);
        let slow = brute_force_nearest(bvh.objects(), ray);
        match (fast, slow) {
            (None, None) => {}
            (Some((_, tf, ..)), Some((_, ts, ..))) => {
                assert!(
                    (tf - ts).abs() <= 1e-3 * ts.max(1.0),
                    "trial {trial}: bvh t {tf} vs scan t {ts}"
                );
            }
            (f, s) => panic!("trial {trial}: bvh {f:?} vs scan {s:?}"),
        }
    }
}

#[test]
fn bvh_scans_every_primitive_exactly_once() {
    // With a box test that prunes nothing, the traversal reaches every leaf:
    // each primitive index is scanned exactly once, so construction neither
    // lost nor duplicated a primitive.
    let spheres = grid_of_spheres();
    let n = spheres.len();
    let bvh = build_bvh(spheres);
    let all = |_s: &Vec<usize>, _b: &Branch<Aabb>| -> u8 { 0xFF };
    let scan = |mut seen: Vec<usize>, i: usize| -> Vec<usize> {
        seen.push(i);
        seen
    };
    let mut seen = bvh.hit(Vec::new(), &all, &scan);
    assert_eq!(seen.len(), n);
    seen.sort();
    for (want, got) in seen.iter().enumerate() {
        assert_eq!(want, *got);
    }
}

#[test]
fn bvh_build_keeps_all_objects() {
    let spheres = grid_of_spheres();
    let mut before: Vec<String> = spheres.iter().map(|s| format!("{s:?}")).collect();
    let bvh = build_bvh(spheres);
    let mut after: Vec<String> = bvh.objects().iter().map(|s| format!("{s:?}")).collect();
    before.sort();
    after.sort();
    assert_eq!(before, after);
}

fn light_scene() -> Vec<Sphere> {
    vec![
        Sphere {
            center: Vec3::new(0.0, 0.0, -5.0),
            radius: 2.0,
            material: Material::Light(Vec3::new(4.0, 4.0, 4.0)),
        },
        Sphere {
            center: Vec3::new(0.0, -1001.0, 0.0),
            radius: 1000.0,
            material: Material::Absorb,
        },
    ]
}

fn render(spheres: Vec<Sphere>, width: u32, height: u32, seed: u64) -> Vec<Vec3> {
    let bvh = build_bvh(spheres);
    let mut pixels = vec![BLACK; (width * height) as usize];
    for claim in 0..width * height {
        let (x, y) = pixel_coords(claim, width);
        let mut state = WorkerState::new(seed);
        state.init_trace(claim, 0);
        // One sample per pixel, jittered inside the pixel as the scheduler
        // does, aimed into the scene on a small grid.
        let [x_off, y_off, ..] = unit_floats(state.gen_random_words());
        let u = (x as f32 + x_off) / width as f32 - 0.5;
        let v = (y as f32 + y_off) / height as f32 - 0.5;
        let ray = Ray::new(Vec3::new(0.0, 0.0, 0.0), Vec3::new(u, v, -1.0));
        let (_state, color) = trace_pixel(&bvh, state, ray);
        pixels[claim as usize] = color;
    }
    pixels
}

#[test]
fn emissive_sphere_lights_the_frame() {
    // A light straight ahead and an absorbing ground: the rays that reach
    // the light yield its emission, nothing exceeds it, and nothing is
    // amplified above the source.
    let pixels = render(light_scene(), 2, 2, 0);
    let mut lit = 0;
    for p in &pixels {
        assert!(p.x <= 4.0 && p.y <= 4.0 && p.z <= 4.0);
        assert!(p.x >= 0.0 && p.y >= 0.0 && p.z >= 0.0);
        if p.x > 0.0 {
            lit += 1;
        }
    }
    assert!(lit > 0, "no ray reached the light: {pixels:?}");
}

#[test]
fn renders_are_reproducible_and_seed_dependent() {
    let mut scene = vec![
        Sphere {
            center: Vec3::new(0.0, 2.0, -4.0),
            radius: 1.5,
            material: Material::Light(Vec3::new(4.0, 4.0, 4.0)),
        },
        Sphere {
            center: Vec3::new(0.0, -1001.0, 0.0),
            radius: 1000.0,
            material: Material::Lambertian(Vec3::new(0.7, 0.7, 0.7)),
        },
    ];
    scene.push(Sphere {
        center: Vec3::new(0.0, 0.0, -3.0),
        radius: 0.5,
        material: Material::Lambertian(Vec3::new(0.8, 0.8, 0.8)),
    });
    let a1 = render(scene.clone(), 4, 4, 7);
    let a2 = render(scene.clone(), 4, 4, 7);
    assert_eq!(a1, a2, "same scene and seed must render bit-identically");
    let b = render(scene, 4, 4, 8);
    assert_ne!(a1, b, "different seeds should scatter differently");
    let mean = |img: &[Vec3]| -> f32 {
        img.iter().map(|p| p.x + p.y + p.z).sum::<f32>() / img.len() as f32
    };
    let (ma, mb) = (mean(&a1), mean(&b));
    assert!(ma > 0.0 && mb > 0.0);
    assert!(ma < 4.0 * mb && mb < 4.0 * ma, "mean luminance drifted: {ma} vs {mb}");
}

#[test]
fn tangent_ray_resolves_consistently() {
    // A ray grazing a sphere (discriminant near zero) must not crash and
    // must answer the same on every evaluation.
    let spheres = vec![Sphere {
        center: Vec3::new(0.0, 0.0, -3.0),
        radius: 1.0,
        material: Material::Absorb,
    }];
    let bvh = build_bvh(spheres);
    let ray = Ray { origin: Vec3::new(0.0, 1.0, 0.0), direction: Vec3::new(0.0, 0.0, -1.0) };
    let first = bvh_nearest(&bvh, ray).map(|(i, t, ..)| (i, t));
    for _ in 0..10 {
        let again = bvh_nearest(&bvh, ray).map(|(i, t, ..)| (i, t));
        assert_eq!(first, again);
    }
}
