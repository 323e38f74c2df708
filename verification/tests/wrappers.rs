use raytracer::{
    BvhNode, Color, ConstantMedium, CosinePdf, Frac, Hittable, HittableList, HittablePdf,
    Lambertian, Material, MixturePdf, Point3, Ray, RotateY, Sphere, Vec3, XYRect, XZRect,
};

fn frac(n: i64, d: i64) -> Frac {
    Frac::new(n, d)
}

fn lamb() -> Material {
    Material::Lambertian(Lambertian::new(Color { x: 32768, y: 32768, z: 32768 }))
}

#[test]
fn open_window_excludes_endpoints() {
    // The plane crossing at exactly the window's edge is rejected:
    // the parametric window is open on both sides.
    let rect = XYRect::new(-10, 10, -10, 10, 5, lamb());
    let r = Ray::new(Point3 { x: 0, y: 0, z: 0 }, Vec3 { x: 0, y: 0, z: 1 }, 0);
    assert!(rect.hit(&r, frac(5, 1), frac(10, 1)).is_none());
    assert!(rect.hit(&r, frac(0, 1), frac(5, 1)).is_none());
    assert!(rect.hit(&r, frac(4, 1), frac(6, 1)).is_some());
    // The sphere's roots at 8 and 12 behave the same way: a window
    // ending exactly at the near root holds no hit.
    let s = Sphere::new(Point3 { x: 0, y: 0, z: 0 }, 2, lamb());
    let sr = Ray::new(Point3 { x: 0, y: 0, z: 10 }, Vec3 { x: 0, y: 0, z: -1 }, 0);
    assert!(s.hit(&sr, frac(0, 1), frac(8, 1)).is_none());
    assert!(s.hit(&sr, frac(8, 1), frac(10, 1)).is_none());
    assert!(s.hit(&sr, frac(0, 1), frac(9, 1)).is_some());
}

#[test]
fn rotate_quarter_turn_hits() {
    // A quarter turn (sine one, cosine zero) carries the ray into the
    // object's frame: a plane at object z = 5 is met by a world ray
    // along -x from x = 9 at parameter 4.
    let rect = Hittable::XY(XYRect::new(-10, 10, -10, 10, 5, lamb()));
    let rot = RotateY::new(rect, 65536, 0);
    let r = Ray::new(Point3 { x: 9, y: 0, z: 0 }, Vec3 { x: -1, y: 0, z: 0 }, 0);
    let rec = rot.hit(&r, frac(0, 1), frac(100, 1)).expect("hit");
    assert_eq!(rec.t.num, 4 * rec.t.den);
    // The identity rotation changes nothing.
    let rect2 = Hittable::XY(XYRect::new(-10, 10, -10, 10, 5, lamb()));
    let ident = RotateY::new(rect2, 0, 65536);
    let r2 = Ray::new(Point3 { x: 0, y: 0, z: 0 }, Vec3 { x: 0, y: 0, z: 1 }, 0);
    let rec2 = ident.hit(&r2, frac(0, 1), frac(100, 1)).expect("hit");
    assert_eq!(rec2.t.num, 5 * rec2.t.den);
}

#[test]
fn rotate_box_carries_corners() {
    // A quarter turn about y maps the rectangle's plane z = 5 onto
    // x = 5: the wrapper's box has that slab on x and the former x
    // extent on z.
    let rect = Hittable::XY(XYRect::new(-10, 10, -20, 20, 5, lamb()));
    let rot = RotateY::new(rect, 65536, 0);
    let b = rot.bounding_box(0, 1);
    assert_eq!((b.min().x(), b.max().x()), (5, 5));
    assert_eq!((b.min().z(), b.max().z()), (-10, 10));
    assert_eq!((b.min().y(), b.max().y()), (-20, 20));
}

#[test]
fn medium_scatters_inside_the_span() {
    // The ray crosses the boundary sphere at parameters 20 and 40; a
    // free path of 5 parameter units scatters at 25, one of 30 leaves
    // the medium unscattered.
    let boundary = Hittable::Sphere(Sphere::new(Point3 { x: 0, y: 0, z: 0 }, 10, lamb()));
    let medium = ConstantMedium::new(
        boundary,
        Material::Isotropic(raytracer::Isotropic::new(Color { x: 65536, y: 65536, z: 65536 })),
    );
    let r = Ray::new(Point3 { x: 0, y: 0, z: -30 }, Vec3 { x: 0, y: 0, z: 1 }, 0);
    let rec = medium.hit(&r, frac(1, 1000), frac(100000, 1), 5 * 65536).expect("hit");
    assert_eq!(rec.t.num, 25 * 65536);
    assert_eq!(rec.t.den, 65536);
    assert!(medium.hit(&r, frac(1, 1000), frac(100000, 1), 30 * 65536).is_none());
}

#[test]
fn rect_density_inverse_square() {
    // Straight down onto a 20x20 rectangle 10 below: the density is
    // dist^2 / (cos * area) = 100 / 400 = 0.25 exactly.
    let rect = XZRect::new(-10, 10, -10, 10, 10, lamb());
    let pdf = HittablePdf::new(Hittable::XZ(rect), Point3 { x: 0, y: 0, z: 0 });
    assert_eq!(pdf.value_q16(Vec3 { x: 0, y: 1, z: 0 }), 16384);
    // A direction that misses the rectangle has density zero.
    assert_eq!(pdf.value_q16(Vec3 { x: 0, y: -1, z: 0 }), 0);
}

#[test]
fn sphere_density_solid_angle() {
    // A radius-10 sphere seen from 20 away subtends a cone with
    // cos(theta_max) = sqrt(3)/2; the Q16 value matches the integer
    // chain exactly.
    let sp = Sphere::new(Point3 { x: 0, y: 0, z: -20 }, 10, lamb());
    let pdf = HittablePdf::new(Hittable::Sphere(sp), Point3 { x: 0, y: 0, z: 0 });
    assert_eq!(pdf.value_q16(Vec3 { x: 0, y: 0, z: -1 }), 77846);
    // Pointing away from the sphere: the ray misses, density zero.
    assert_eq!(pdf.value_q16(Vec3 { x: 0, y: 0, z: 1 }), 0);
    // The sphere light is aimed at through its center.
    let d = pdf.generate();
    assert_eq!((d.x, d.y, d.z), (0, 0, -20));
}

#[test]
fn mixture_averages_and_picks() {
    let rect = XZRect::new(-10, 10, -10, 10, 10, lamb());
    let light = HittablePdf::new(Hittable::XZ(rect), Point3 { x: 0, y: 0, z: 0 });
    let cosine = CosinePdf::new(Vec3 { x: 0, y: 1, z: 0 });
    let mix = MixturePdf::mv(light, cosine);
    // Light density straight up is 0.25; the cosine density is
    // 1/pi (Q16 20860); the mixture halves their sum.
    let v = mix.value_q16(Vec3 { x: 0, y: 1, z: 0 });
    let cos_plain = (65536i64 * 65536) / 205887;
    assert_eq!(v, (16384 + cos_plain) / 2);
    assert!(mix.pick_light(0));
    assert!(mix.pick_light(32767));
    assert!(!mix.pick_light(32768));
    assert!(!mix.pick_light(65535));
}

#[test]
fn build_leaves_the_scene_intact() {
    let centers: [(i64, i64, i64); 3] = [(0, 0, -20), (3, 1, -35), (-4, 2, -50)];
    let mut list = HittableList::new();
    for (x, y, z) in centers {
        list.add(Hittable::Sphere(Sphere::new(Point3 { x, y, z }, 2, lamb())));
    }
    let bvh = BvhNode::new(&list, 0, 1);
    // The source list is untouched and still answers queries.
    assert_eq!(list.objects.len(), 3);
    let r = Ray::new(Point3 { x: 0, y: 0, z: 5 }, Vec3 { x: 0, y: 0, z: -1 }, 0);
    let flat = list.hit(&r, frac(0, 1), frac(10000, 1)).expect("hit");
    let tree = bvh.hit(&r, frac(0, 1), frac(10000, 1)).expect("hit");
    assert_eq!(flat.t.num * tree.t.den, tree.t.num * flat.t.den);
}

#[test]
fn light_sample_at_given_draws() {
    // The deterministic sampler maps the Q16 draws affinely into the
    // rectangle: a zero draw lands on the low corner, a half draw on
    // the middle.
    let rect = XZRect::new(-20, 20, -20, 20, 50, lamb());
    let pdf = HittablePdf::new(Hittable::XZ(rect), Point3 { x: 0, y: 0, z: 0 });
    let d0 = pdf.generate_at(0, 0);
    assert_eq!((d0.x, d0.y, d0.z), (-20, 50, -20));
    let dh = pdf.generate_at(32768, 32768);
    assert_eq!((dh.x, dh.y, dh.z), (0, 50, 0));
}

#[test]
fn cube_found_in_both_directions_from_inside() {
    // From a point strictly inside, the boundary is met along the ray
    // and along its reversal: the entry/exit parameters swap sign but
    // both crossings are found.
    let cube = raytracer::Cube::new(
        Point3 { x: -10, y: -10, z: -10 },
        Point3 { x: 10, y: 10, z: 10 },
        lamb(),
    );
    let h = Hittable::Cube(cube);
    let r = Ray::new(Point3 { x: 1, y: 2, z: 3 }, Vec3 { x: 1, y: 2, z: 5 }, 0);
    let rev = r.reversed();
    // Over a window spanning both sides, each direction finds the
    // boundary (the nearest crossing in the window, which from
    // inside lies behind the origin).
    assert!(h.hit(&r, frac(-1000, 1), frac(1000, 1)).is_some());
    assert!(h.hit(&rev, frac(-1000, 1), frac(1000, 1)).is_some());
    // Restricted to the forward side, each direction still leaves
    // through a wall ahead.
    let fwd = h.hit(&r, frac(0, 1), frac(1000, 1)).expect("forward hit");
    let bwd = h.hit(&rev, frac(0, 1), frac(1000, 1)).expect("reverse hit");
    assert!(fwd.t.num > 0 && bwd.t.num > 0);
}

#[test]
fn angle_map_exact_on_axes_and_diagonal() {
    // The fixed-point planar angle, in Q16 turns: exact on the four
    // axes and the first diagonal.
    assert_eq!(raytracer::atan2_turns(0, 1), 0);
    assert_eq!(raytracer::atan2_turns(1, 1), 8192);
    assert_eq!(raytracer::atan2_turns(1, 0), 16384);
    assert_eq!(raytracer::atan2_turns(0, -1), 32768);
    assert_eq!(raytracer::atan2_turns(-1, 0), 49152);
}
