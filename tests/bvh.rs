use raytracer::bounds::{AABB, OrderedPoint};
use raytracer::bvh::BVH;
use raytracer::order_key::{bits_from_key, order_key};

fn key(x: f32) -> u32 {
    order_key((x + 0.0).to_bits())
}

fn value(k: u32) -> f32 {
    f32::from_bits(bits_from_key(k))
}

#[derive(Clone, Copy)]
struct Cube {
    min: [f32; 3],
    max: [f32; 3],
}

impl Cube {
    fn new(c: [f32; 3], size: f32) -> Cube {
        let h = size / 2.0;
        Cube { min: [c[0] - h, c[1] - h, c[2] - h], max: [c[0] + h, c[1] + h, c[2] + h] }
    }

    fn bounds(&self) -> AABB {
        AABB::new(
            OrderedPoint::new(key(self.min[0]), key(self.min[1]), key(self.min[2])),
            OrderedPoint::new(key(self.max[0]), key(self.max[1]), key(self.max[2])),
        )
    }

    fn center(&self) -> OrderedPoint {
        let c: Vec<f32> = (0..3).map(|a| (self.min[a] + self.max[a]) * 0.5).collect();
        OrderedPoint::new(key(c[0]), key(c[1]), key(c[2]))
    }
}

fn slab(min: [f32; 3], max: [f32; 3], o: [f32; 3], d: [f32; 3]) -> (f32, f32) {
    let mut tmin = f32::NEG_INFINITY;
    let mut tmax = f32::INFINITY;
    for a in 0..3 {
        let inv = 1.0 / d[a];
        let t1 = (min[a] - o[a]) * inv;
        let t2 = (max[a] - o[a]) * inv;
        tmin = tmin.max(t1.min(t2));
        tmax = tmax.min(t1.max(t2));
    }
    (tmin, tmax)
}

fn box_hit(b: AABB, o: [f32; 3], d: [f32; 3]) -> bool {
    let min = [value(b.min.x), value(b.min.y), value(b.min.z)];
    let max = [value(b.max.x), value(b.max.y), value(b.max.z)];
    let (tmin, tmax) = slab(min, max, o, d);
    tmax >= 0.0 && tmin <= tmax
}

fn cube_hit(c: &Cube, o: [f32; 3], d: [f32; 3]) -> Option<f32> {
    let (tmin, tmax) = slab(c.min, c.max, o, d);
    if tmax < 0.0 || tmin > tmax {
        return None;
    }
    let t = if tmin > 0.0 { tmin } else { tmax };
    if t < 0.0 {
        None
    } else {
        Some(t)
    }
}

fn widest_axis(b: AABB) -> usize {
    let ex = value(b.max.x) - value(b.min.x);
    let ey = value(b.max.y) - value(b.min.y);
    let ez = value(b.max.z) - value(b.min.z);
    if ex > ey && ex > ez {
        0
    } else if ey > ez {
        1
    } else {
        2
    }
}

fn build(cubes: &[Cube]) -> BVH {
    let bounds: Vec<AABB> = cubes.iter().map(|c| c.bounds()).collect();
    let centers: Vec<OrderedPoint> = cubes.iter().map(|c| c.center()).collect();
    BVH::build(&bounds, &centers, widest_axis)
}

fn query(bvh: &BVH, cubes: &[Cube], o: [f32; 3], d: [f32; 3]) -> Option<(usize, f32)> {
    bvh.intersect(|b| box_hit(b, o, d), |p| cube_hit(&cubes[p], o, d).map(key))
        .map(|h| (h.object_index, value(h.distance)))
}

fn brute_force(cubes: &[Cube], o: [f32; 3], d: [f32; 3]) -> Option<f32> {
    let mut best: Option<f32> = None;
    for c in cubes {
        if let Some(t) = cube_hit(c, o, d) {
            if best.map_or(true, |b| t < b) {
                best = Some(t);
            }
        }
    }
    best
}

struct Lcg(u64);

impl Lcg {
    fn next(&mut self) -> f32 {
        self.0 = self.0.wrapping_mul(6364136223846793005).wrapping_add(1442695040888963407);
        ((self.0 >> 40) as f32) / ((1u64 << 24) as f32)
    }

    fn range(&mut self, lo: f32, hi: f32) -> f32 {
        lo + (hi - lo) * self.next()
    }
}

#[test]
fn empty_bvh_never_hits() {
    let bvh = build(&[]);
    assert_eq!(bvh.len(), 0);
    assert_eq!(query(&bvh, &[], [0.0, 0.0, 5.0], [0.0, 0.0, -1.0]), None);
    assert_eq!(query(&bvh, &[], [1.0, 2.0, 3.0], [0.3, -0.2, 0.9]), None);
}

#[test]
fn single_cube_hit_at_front_face() {
    let cubes = [Cube::new([0.0, 0.0, 0.0], 1.0)];
    let bvh = build(&cubes);
    assert_eq!(query(&bvh, &cubes, [0.0, 0.0, 5.0], [0.0, 0.0, -1.0]), Some((0, 4.5)));
    assert_eq!(query(&bvh, &cubes, [0.0, 3.0, 5.0], [0.0, 0.0, -1.0]), None);
}

#[test]
fn nearest_of_a_row_of_cubes() {
    let cubes: Vec<Cube> = (0..10).map(|i| Cube::new([0.0, 0.0, -(i as f32) * 2.0], 1.0)).collect();
    let bvh = build(&cubes);
    assert_eq!(query(&bvh, &cubes, [0.0, 0.0, 5.0], [0.0, 0.0, -1.0]), Some((0, 4.5)));
    assert_eq!(query(&bvh, &cubes, [0.0, 0.0, -30.0], [0.0, 0.0, 1.0]), Some((9, 11.5)));
    assert_eq!(query(&bvh, &cubes, [0.0, 5.0, -4.0], [0.0, -1.0, 0.0]), Some((2, 4.5)));
}

#[test]
fn zero_direction_component_still_resolves() {
    let cubes = [Cube::new([3.0, 0.0, 0.0], 1.0), Cube::new([0.0, 0.0, 0.0], 1.0)];
    let bvh = build(&cubes);
    assert_eq!(query(&bvh, &cubes, [-5.0, 0.0, 0.0], [1.0, 0.0, 0.0]), Some((1, 4.5)));
    assert_eq!(query(&bvh, &cubes, [-5.0, 2.0, 0.0], [1.0, 0.0, 0.0]), None);
}

#[test]
fn bvh_matches_brute_force_on_random_rays() {
    let mut rng = Lcg(12345);
    let cubes: Vec<Cube> = (0..300)
        .map(|_| Cube::new([rng.range(-20.0, 20.0), rng.range(-20.0, 20.0), rng.range(-20.0, 20.0)], rng.range(0.3, 2.0)))
        .collect();
    let bvh = build(&cubes);
    assert_eq!(bvh.len(), 300);
    let mut hits = 0;
    for _ in 0..500 {
        let o = [rng.range(-30.0, 30.0), rng.range(-30.0, 30.0), rng.range(-30.0, 30.0)];
        let d = [rng.range(-1.0, 1.0), rng.range(-1.0, 1.0), rng.range(-1.0, 1.0)];
        let got = query(&bvh, &cubes, o, d);
        let expected = brute_force(&cubes, o, d);
        assert_eq!(got.map(|(_, t)| t), expected);
        if let Some((p, t)) = got {
            assert_eq!(cube_hit(&cubes[p], o, d), Some(t));
            hits += 1;
        }
    }
    assert!(hits > 0);
}

#[test]
fn bvh_matches_brute_force_on_voxel_grid() {
    let mut cubes = Vec::new();
    for x in -5..=5 {
        for z in -5..=5 {
            cubes.push(Cube::new([x as f32, 0.0, z as f32], 1.0));
        }
    }
    let bvh = build(&cubes);
    let mut rng = Lcg(99);
    for _ in 0..300 {
        let o = [rng.range(-8.0, 8.0), rng.range(2.0, 10.0), rng.range(-8.0, 8.0)];
        let d = [rng.range(-1.0, 1.0), rng.range(-1.0, -0.1), rng.range(-1.0, 1.0)];
        assert_eq!(query(&bvh, &cubes, o, d).map(|(_, t)| t), brute_force(&cubes, o, d));
    }
}

#[test]
fn large_voxel_scene_builds_quickly() {
    let mut cubes = Vec::new();
    for x in -50..50 {
        for z in -50..50 {
            for y in 0..3 {
                cubes.push(Cube::new([x as f32, y as f32, z as f32], 1.0));
            }
        }
    }
    let bvh = build(&cubes);
    assert_eq!(bvh.len(), 30000);
    assert_eq!(query(&bvh, &cubes, [0.0, 10.0, 0.0], [0.0, -1.0, 0.0]).map(|(_, t)| t), Some(7.5));
}
