use raytracer::geometry::{front_face, Crossing, Hit, HittableList, Root};
use raytracer::scalar::Scalar;

fn s(x: f64) -> Scalar {
    Scalar::from_bits(x.to_bits())
}

/// The crossing of a ray from `origin` along `direction` with a sphere.
fn crossing(origin: [f64; 3], direction: [f64; 3], center: [f64; 3], radius: f64) -> Crossing {
    let oc = [origin[0] - center[0], origin[1] - center[1], origin[2] - center[2]];
    let a = direction[0] * direction[0] + direction[1] * direction[1] + direction[2] * direction[2];
    let half_b = oc[0] * direction[0] + oc[1] * direction[1] + oc[2] * direction[2];
    let c = oc[0] * oc[0] + oc[1] * oc[1] + oc[2] * oc[2] - radius * radius;
    let discriminant = half_b * half_b - a * c;
    let root = discriminant.sqrt();
    Crossing {
        discriminant: s(discriminant),
        first: s((-half_b - root) / a),
        second: s((-half_b + root) / a),
    }
}

fn roots(first: f64, second: f64) -> Crossing {
    Crossing { discriminant: s(1.0), first: s(first), second: s(second) }
}

fn scene(spheres: Vec<Crossing>) -> HittableList {
    HittableList { spheres }
}

#[test]
fn a_ray_through_the_center_hits_at_distance_minus_radius() {
    let c = crossing([0.0, 0.0, 0.0], [0.0, 0.0, -1.0], [0.0, 0.0, -5.0], 2.0);
    assert_eq!(c.first, s(3.0));
    assert_eq!(c.second, s(7.0));
    assert_eq!(c.hit(s(0.001), s(f64::INFINITY)), Some(Root::First));
    assert_eq!(c.value(Root::First), s(3.0));
}

#[test]
fn the_far_root_counts_when_the_near_one_is_behind_t_min() {
    let c = crossing([0.0, 0.0, 0.0], [0.0, 0.0, -1.0], [0.0, 0.0, -5.0], 2.0);
    assert_eq!(c.hit(s(3.0), s(f64::INFINITY)), Some(Root::Second));
    assert_eq!(c.hit(s(4.0), s(f64::INFINITY)), Some(Root::Second));
    assert_eq!(c.value(Root::Second), s(7.0));
}

#[test]
fn a_ray_from_inside_a_sphere_hits_the_far_root() {
    let c = crossing([0.0, 0.0, 0.0], [1.0, 0.0, 0.0], [0.0, 0.0, 0.0], 1.0);
    assert_eq!(c.first, s(-1.0));
    assert_eq!(c.second, s(1.0));
    assert_eq!(c.hit(s(0.001), s(f64::INFINITY)), Some(Root::Second));
}

#[test]
fn the_interval_is_open_at_both_ends() {
    let c = roots(3.0, 7.0);
    assert_eq!(c.hit(s(3.0), s(7.0)), None);
    assert_eq!(c.hit(s(3.0), s(7.0 + 1e-9)), Some(Root::Second));
    assert_eq!(c.hit(s(3.0 - 1e-9), s(7.0)), Some(Root::First));
    assert_eq!(c.hit(s(0.0), s(3.0)), None);
    assert_eq!(c.hit(s(7.0), s(f64::INFINITY)), None);
}

#[test]
fn no_hit_unless_the_discriminant_is_positive() {
    let grazing = Crossing { discriminant: s(0.0), first: s(3.0), second: s(3.0) };
    assert_eq!(grazing.hit(s(0.0), s(f64::INFINITY)), None);
    let missing = Crossing { discriminant: s(-4.0), first: s(3.0), second: s(7.0) };
    assert_eq!(missing.hit(s(0.0), s(f64::INFINITY)), None);
    let undefined = Crossing { discriminant: s(f64::NAN), first: s(3.0), second: s(7.0) };
    assert_eq!(undefined.hit(s(0.0), s(f64::INFINITY)), None);
}

#[test]
fn a_ray_that_passes_beside_a_sphere_misses_it() {
    let c = crossing([0.0, 0.0, 0.0], [0.0, 0.0, -1.0], [3.0, 0.0, -5.0], 2.0);
    assert_eq!(c.hit(s(0.001), s(f64::INFINITY)), None);
}

#[test]
fn a_root_that_is_not_a_number_is_never_the_hit() {
    let c = Crossing { discriminant: s(1.0), first: s(f64::NAN), second: s(5.0) };
    assert_eq!(c.hit(s(0.0), s(f64::INFINITY)), Some(Root::Second));
    let d = Crossing { discriminant: s(1.0), first: s(f64::NAN), second: s(f64::NAN) };
    assert_eq!(d.hit(s(0.0), s(f64::INFINITY)), None);
    let e = Crossing { discriminant: s(1.0), first: s(2.0), second: s(f64::INFINITY) };
    assert_eq!(e.hit(s(2.0), s(f64::INFINITY)), None);
}

#[test]
fn the_front_is_struck_when_ray_and_outward_normal_oppose() {
    assert!(front_face(s(-1.0)));
    assert!(front_face(s(-1e-300)));
    assert!(!front_face(s(0.0)));
    assert!(!front_face(s(-0.0)));
    assert!(!front_face(s(0.4)));
    assert!(!front_face(s(f64::NAN)));
}

#[test]
fn front_face_is_dot_below_zero() {
    let mut k = -40;
    while k <= 40 {
        let facing = (k as f64) / 40.0;
        assert_eq!(front_face(s(facing)), facing < 0.0, "{:?}", facing);
        k += 1;
    }
}

#[test]
fn an_empty_scene_is_never_hit() {
    assert_eq!(scene(vec![]).hit(s(0.001), s(f64::INFINITY)), None);
}

#[test]
fn of_two_overlapping_spheres_the_nearer_is_hit() {
    // centers at distance 5 and 6 on the ray, both of radius 2
    let origin = [0.0, 0.0, 0.0];
    let direction = [0.0, 0.0, -1.0];
    let near = crossing(origin, direction, [0.0, 0.0, -5.0], 2.0);
    let far = crossing(origin, direction, [0.0, 0.0, -6.0], 2.0);
    let nearest = Some(Hit { index: 0, root: Root::First, t: s(3.0) });
    assert_eq!(scene(vec![near, far]).hit(s(0.001), s(f64::INFINITY)), nearest);
    let nearest = Some(Hit { index: 1, root: Root::First, t: s(3.0) });
    assert_eq!(scene(vec![far, near]).hit(s(0.001), s(f64::INFINITY)), nearest);
}

#[test]
fn the_order_of_the_scene_does_not_change_the_nearest_parameter() {
    let spheres = [roots(9.0, 11.0), roots(4.0, 6.0), roots(-1.0, 2.5), roots(2.75, 3.0)];
    let orders: [[usize; 4]; 6] =
        [[0, 1, 2, 3], [3, 2, 1, 0], [1, 3, 0, 2], [2, 0, 3, 1], [2, 3, 1, 0], [0, 2, 1, 3]];
    for order in orders {
        let list = scene(order.iter().map(|&i| spheres[i]).collect());
        let hit = list.hit(s(0.001), s(f64::INFINITY)).unwrap();
        assert_eq!(hit.t, s(2.5));
        assert_eq!(hit.root, Root::Second);
        assert_eq!(order[hit.index], 2);
    }
}

#[test]
fn of_two_spheres_hit_at_the_same_parameter_the_earlier_is_reported() {
    let list = scene(vec![roots(5.0, 6.0), roots(3.0, 4.0), roots(3.0, 9.0), roots(1.0, 3.0)]);
    let hit = list.hit(s(1.0), s(f64::INFINITY));
    assert_eq!(hit, Some(Hit { index: 1, root: Root::First, t: s(3.0) }));
}

#[test]
fn spheres_outside_the_interval_are_passed_over() {
    let list = scene(vec![roots(-4.0, -2.0), roots(20.0, 30.0), roots(0.0005, 0.0009)]);
    assert_eq!(list.hit(s(0.001), s(10.0)), None);
    assert_eq!(
        list.hit(s(0.001), s(25.0)),
        Some(Hit { index: 1, root: Root::First, t: s(20.0) })
    );
}

#[test]
fn spheres_that_the_line_misses_are_passed_over() {
    let miss = Crossing { discriminant: s(-1.0), first: s(f64::NAN), second: s(f64::NAN) };
    let list = scene(vec![miss, roots(4.0, 6.0), miss]);
    assert_eq!(
        list.hit(s(0.001), s(f64::INFINITY)),
        Some(Hit { index: 1, root: Root::First, t: s(4.0) })
    );
    assert_eq!(scene(vec![miss, miss]).hit(s(0.001), s(f64::INFINITY)), None);
}

#[test]
fn the_scan_agrees_with_a_search_for_the_minimum() {
    // a scene of many spheres along one ray, in a scrambled order
    let origin = [0.0, 0.0, 0.0];
    let direction = [0.0, 0.0, -1.0];
    let mut spheres = Vec::new();
    let mut distances = Vec::new();
    let mut k: u64 = 0;
    while k < 40 {
        let distance = 3.0 + ((k * 17) % 41) as f64 * 0.75;
        let radius = 0.25 + ((k * 5) % 7) as f64 * 0.125;
        let offset = ((k * 3) % 5) as f64 * 0.25;
        spheres.push(crossing(origin, direction, [offset, 0.0, -distance], radius));
        distances.push((distance, radius, offset));
        k += 1;
    }
    let t_min = 0.001;
    let t_max = f64::INFINITY;
    let mut best: Option<(usize, f64)> = None;
    for (i, c) in spheres.iter().enumerate() {
        let discriminant = f64::from_bits(c.discriminant.to_bits());
        let first = f64::from_bits(c.first.to_bits());
        let second = f64::from_bits(c.second.to_bits());
        let t = if !(discriminant > 0.0) {
            None
        } else if first < t_max && first > t_min {
            Some(first)
        } else if second < t_max && second > t_min {
            Some(second)
        } else {
            None
        };
        if let Some(t) = t {
            if best.map_or(true, |(_, b)| t < b) {
                best = Some((i, t));
            }
        }
    }
    let hit = scene(spheres).hit(s(t_min), s(t_max)).unwrap();
    let (index, t) = best.unwrap();
    assert_eq!(hit.index, index);
    assert_eq!(hit.t, s(t));
}
