use raytracer::{
    surrounding_box, Aabb, BvhNode, Color, Empty, Frac, Hittable, HittableList, Lambertian,
    Material, Point3, Ray, Sphere, Translate, Vec3, XYRect,
};

fn frac(n: i64, d: i64) -> Frac {
    Frac::new(n, d)
}

fn lamb() -> Material {
    Material::Lambertian(Lambertian::new(Color { x: 32768, y: 32768, z: 32768 }))
}

#[test]
fn aabb_hit_through_box() {
    let b = Aabb::new(Vec3 { x: 0, y: 0, z: 0 }, Vec3 { x: 10, y: 10, z: 10 });
    let r = Ray::new(Point3 { x: -5, y: 5, z: 5 }, Vec3 { x: 1, y: 0, z: 0 }, 0);
    assert!(b.hit(&r, frac(0, 1), frac(100, 1)));
    // Pointing away, with only forward parameters allowed: no hit.
    let away = Ray::new(Point3 { x: -5, y: 5, z: 5 }, Vec3 { x: -1, y: 0, z: 0 }, 0);
    assert!(!b.hit(&away, frac(0, 1), frac(100, 1)));
}

#[test]
fn aabb_hit_reversed_ray_inside_span() {
    // A ray starting inside the box finds it, and so does its
    // reversal when the parameter window is mirrored.
    let b = Aabb::new(Vec3 { x: 0, y: 0, z: 0 }, Vec3 { x: 10, y: 10, z: 10 });
    let r = Ray::new(Point3 { x: 5, y: 5, z: 5 }, Vec3 { x: 1, y: 2, z: 3 }, 0);
    let rev = r.reversed();
    assert!(b.hit(&r, frac(-100, 1), frac(100, 1)));
    assert!(b.hit(&rev, frac(-100, 1), frac(100, 1)));
}

#[test]
fn aabb_miss_parallel_outside() {
    let b = Aabb::new(Vec3 { x: 0, y: 0, z: 0 }, Vec3 { x: 10, y: 10, z: 10 });
    // Parallel to the box on z, outside the z slab.
    let r = Ray::new(Point3 { x: 5, y: 5, z: 20 }, Vec3 { x: 1, y: 0, z: 0 }, 0);
    assert!(!b.hit(&r, frac(0, 1), frac(100, 1)));
}

#[test]
fn xyrect_hit_exact_t() {
    let rect = XYRect::new(-10, 10, -10, 10, 5, lamb());
    let r = Ray::new(Point3 { x: 0, y: 0, z: 0 }, Vec3 { x: 0, y: 0, z: 1 }, 0);
    let rec = rect.hit(&r, frac(0, 1), frac(100, 1)).expect("hit");
    // t == 5 exactly: num/den = 5.
    assert_eq!(rec.t.num, 5 * rec.t.den);
    assert!(rec.front_face == false); // struck from behind (+z toward the +z normal)
    let r2 = Ray::new(Point3 { x: 0, y: 0, z: 9 }, Vec3 { x: 0, y: 0, z: -1 }, 0);
    let rec2 = rect.hit(&r2, frac(0, 1), frac(100, 1)).expect("hit");
    assert_eq!(rec2.t.num, 4 * rec2.t.den);
    assert!(rec2.front_face);
}

#[test]
fn sphere_uv_canonical_point() {
    // The canonical front hit: a unit sphere at the origin struck
    // along +z from z = -3 is met at parameter 2, with the classical
    // spherical chart giving u = 3/4 and v = 1/2 exactly.
    let s = Sphere::new(Point3 { x: 0, y: 0, z: 0 }, 1, lamb());
    let r = Ray::new(Point3 { x: 0, y: 0, z: -3 }, Vec3 { x: 0, y: 0, z: 1 }, 0);
    let rec = s.hit(&r, frac(1, 1000), frac(100000, 1)).expect("hit");
    assert_eq!(rec.t.num, 2 * rec.t.den);
    assert!(rec.front_face);
    assert_eq!(rec.u.num * 4, 3 * rec.u.den);
    assert_eq!(rec.v.num * 2, rec.v.den);
}

#[test]
fn sphere_hit_near_root() {
    let s = Sphere::new(Point3 { x: 0, y: 0, z: 0 }, 2, lamb());
    let r = Ray::new(Point3 { x: 0, y: 0, z: 10 }, Vec3 { x: 0, y: 0, z: -1 }, 0);
    let rec = s.hit(&r, frac(0, 1), frac(100, 1)).expect("hit");
    // Near root at t = 8 exactly (discriminant is a perfect square).
    assert_eq!(rec.t.num, 8 * rec.t.den);
    assert!(rec.front_face);
    // A ray that misses entirely.
    let miss = Ray::new(Point3 { x: 0, y: 10, z: 10 }, Vec3 { x: 0, y: 0, z: -1 }, 0);
    assert!(s.hit(&miss, frac(0, 1), frac(100, 1)).is_none());
}

#[test]
fn nearest_hit_regardless_of_order() {
    // Three parallel rectangles at distances 5, 10, 15; every
    // insertion order reports the one at t == 5.
    let orders: [[i64; 3]; 3] = [[5, 10, 15], [15, 10, 5], [10, 5, 15]];
    for ks in orders {
        let mut list = HittableList::new();
        for k in ks {
            list.add(Hittable::XY(XYRect::new(-10, 10, -10, 10, k, lamb())));
        }
        let r = Ray::new(Point3 { x: 0, y: 0, z: 0 }, Vec3 { x: 0, y: 0, z: 1 }, 0);
        let rec = list.hit(&r, frac(0, 1), frac(1000, 1)).expect("hit");
        assert_eq!(rec.t.num, 5 * rec.t.den);
    }
}

#[test]
fn bvh_matches_flat_list() {
    let centers: [(i64, i64, i64); 5] = [(0, 0, -20), (3, 1, -35), (-4, 2, -50), (6, -3, -80), (0, 5, -10)];
    let mut list = HittableList::new();
    for (x, y, z) in centers {
        list.add(Hittable::Sphere(Sphere::new(Point3 { x, y, z }, 2, lamb())));
    }
    let bvh = BvhNode::new(&list, 0, 1);
    let r = Ray::new(Point3 { x: 0, y: 0, z: 5 }, Vec3 { x: 0, y: 0, z: -1 }, 0);
    let flat = list.hit(&r, frac(0, 1), frac(10000, 1)).expect("hit");
    let tree = bvh.hit(&r, frac(0, 1), frac(10000, 1)).expect("hit");
    // Nearest on-axis sphere is at z = -20 with radius 2: t = 23.
    assert_eq!(flat.t.num, 23 * flat.t.den);
    assert_eq!(tree.t.num * flat.t.den, flat.t.num * tree.t.den);
}

#[test]
fn bvh_root_box_encloses_all_spheres() {
    let centers: [(i64, i64, i64); 4] = [(0, 0, -20), (30, 10, -35), (-40, 20, -50), (60, -30, -80)];
    let mut list = HittableList::new();
    for (x, y, z) in centers {
        list.add(Hittable::Sphere(Sphere::new(Point3 { x, y, z }, 3, lamb())));
    }
    let bvh = BvhNode::new(&list, 0, 1);
    let root = bvh.bounding_box(0, 1);
    for (x, y, z) in centers {
        assert!(root.min().x() <= x - 3 && x + 3 <= root.max().x());
        assert!(root.min().y() <= y - 3 && y + 3 <= root.max().y());
        assert!(root.min().z() <= z - 3 && z + 3 <= root.max().z());
    }
}

#[test]
fn surrounding_box_is_componentwise() {
    let a = Aabb::new(Vec3 { x: 0, y: 0, z: 0 }, Vec3 { x: 5, y: 5, z: 5 });
    let b = Aabb::new(Vec3 { x: -3, y: 2, z: 1 }, Vec3 { x: 4, y: 9, z: 6 });
    let s = surrounding_box(&a, &b);
    assert_eq!(s.min().x(), -3);
    assert_eq!(s.min().y(), 0);
    assert_eq!(s.min().z(), 0);
    assert_eq!(s.max().x(), 5);
    assert_eq!(s.max().y(), 9);
    assert_eq!(s.max().z(), 6);
}

#[test]
fn translate_shifts_hit_parameter() {
    let rect = XYRect::new(-10, 10, -10, 10, 5, lamb());
    let moved = Hittable::Translate(Translate::new(
        Hittable::XY(rect),
        Vec3 { x: 0, y: 0, z: 7 },
    ));
    let r = Ray::new(Point3 { x: 0, y: 0, z: 0 }, Vec3 { x: 0, y: 0, z: 1 }, 0);
    let rec = moved.hit(&r, frac(0, 1), frac(100, 1)).expect("hit");
    // The plane moved from z = 5 to z = 12.
    assert_eq!(rec.t.num, 12 * rec.t.den);
}

#[test]
fn empty_material_placeholder_for_lights() {
    let rect = XYRect::new(-1, 1, -1, 1, 0, Material::Empty(Empty::new()));
    let r = Ray::new(Point3 { x: 0, y: 0, z: 3 }, Vec3 { x: 0, y: 0, z: -1 }, 0);
    assert!(rect.hit(&r, frac(0, 1), frac(100, 1)).is_some());
}
