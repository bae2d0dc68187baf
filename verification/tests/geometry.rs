use collisions::geometry::{ring, Point, Sphere};
use collisions::operations::isqrt;
use collisions::settings::{COLORS, LENGTH, ONE};

#[test]
fn ring_starts_on_the_positive_x_axis_and_turns_counterclockwise() {
    assert_eq!(ring(0), [ONE, 0]);
    assert_eq!(ring(8), [0, ONE]);
    assert_eq!(ring(16), [-ONE, 0]);
    assert_eq!(ring(24), [0, -ONE]);
}

#[test]
fn ring_holds_the_cosines_of_the_first_quarter_turn() {
    assert_eq!(ring(1), [98_078_528, 19_509_032]);
    assert_eq!(ring(2), [92_387_953, 38_268_343]);
    assert_eq!(ring(3), [83_146_961, 55_557_023]);
    assert_eq!(ring(4), [70_710_678, 70_710_678]);
    assert_eq!(ring(5), [55_557_023, 83_146_961]);
    assert_eq!(ring(6), [38_268_343, 92_387_953]);
    assert_eq!(ring(7), [19_509_032, 98_078_528]);
}

#[test]
fn ring_repeats_each_quarter_turn_rotated() {
    assert_eq!(ring(9), [-19_509_032, 98_078_528]);
    assert_eq!(ring(17), [-98_078_528, -19_509_032]);
    assert_eq!(ring(25), [19_509_032, -98_078_528]);
    assert_eq!(ring(31), [98_078_528, -19_509_032]);
}

#[test]
fn ring_wraps_after_a_full_turn() {
    assert_eq!(ring(32), ring(0));
    assert_eq!(ring(45), ring(13));
}

#[test]
fn ring_directions_have_unit_length() {
    let unit: i64 = ONE as i64 * ONE as i64;
    for index in 0..LENGTH {
        let direction = ring(index);
        let x: i64 = direction[0] as i64;
        let y: i64 = direction[1] as i64;
        let length2: i64 = x * x + y * y;
        assert!(unit - ONE as i64 <= length2 && length2 <= unit + ONE as i64);
    }
}

#[test]
fn ring_directions_are_evenly_spread() {
    // The outer product of each direction with the next is the sine of a thirty-second part
    // of a full turn, which is the cosine of seven of them.
    let sine: i64 = ring(7)[0] as i64 * ONE as i64;
    for index in 0..LENGTH {
        let here = ring(index);
        let next = ring(index + 1);
        let outer: i64 = here[0] as i64 * next[1] as i64 - here[1] as i64 * next[0] as i64;
        assert!(sine <= outer && outer <= sine + ONE as i64);
    }
}

#[test]
fn ring_points_half_a_turn_apart_lie_opposite() {
    for index in 0..LENGTH {
        let here = ring(index);
        let there = ring(index + 16);
        assert_eq!(there, [-here[0], -here[1]]);
    }
}

#[test]
fn tinted_point_takes_its_colour_from_the_palette() {
    let point = Point::tinted([5, -6], 0);
    assert_eq!(point.position, [5, -6]);
    assert_eq!(point.color, [70, 8, 14]);
    assert_eq!(Point::tinted([0, 0], 3).color, [6, 72, 44]);
    assert_eq!(Point::tinted([0, 0], 6).color, [69, 5, 14]);
    assert_eq!(Point::tinted([0, 0], 7).color, [70, 8, 14]);
    assert_eq!(Point::tinted([0, 0], 7 * 1000 + 4).color, [38, 4, 52]);
}

#[test]
fn new_point_has_a_colour_of_the_palette() {
    for _ in 0..50 {
        let point = Point::new([12, 34]);
        assert_eq!(point.position, [12, 34]);
        assert!(COLORS.contains(&point.color));
    }
}

#[test]
fn default_point_is_black_at_the_origin() {
    let point = Point::default();
    assert_eq!(point.position, [0, 0]);
    assert_eq!(point.color, [0, 0, 0]);
}

#[test]
fn assembled_sphere_keeps_centre_and_radius() {
    let sphere = Sphere::assemble([10_000_000, -20_000_000], 5_000_000, [ONE, 0], 0, &[0; 32]);
    assert_eq!(sphere.center, [10_000_000, -20_000_000]);
    assert_eq!(sphere.radius, 5_000_000);
}

#[test]
fn assembled_sphere_moves_at_the_drawn_share_of_its_radius() {
    // The draw 0 stands for one hundredth of the radius.
    let sphere = Sphere::assemble([0, 0], 5_000_000, [ONE, 0], 0, &[0; 32]);
    assert_eq!(sphere.velocity, [50_000, 0]);
    // The draw 99 stands for the whole radius, and so does 199.
    let sphere = Sphere::assemble([0, 0], 5_000_000, [0, -ONE], 99, &[0; 32]);
    assert_eq!(sphere.velocity, [0, -5_000_000]);
    let sphere = Sphere::assemble([0, 0], 5_000_000, [0, -ONE], 199, &[0; 32]);
    assert_eq!(sphere.velocity, [0, -5_000_000]);
    // Half the radius along the diagonal.
    let sphere = Sphere::assemble([0, 0], 3_000_000, [70_710_678, 70_710_678], 49, &[0; 32]);
    assert_eq!(sphere.velocity, [1_060_660, 1_060_660]);
    // Rounded toward zero in both directions.
    let sphere = Sphere::assemble([0, 0], 333, [ONE, -ONE], 6, &[0; 32]);
    assert_eq!(sphere.velocity, [23, -23]);
}

#[test]
fn assembled_sphere_is_as_fast_as_its_share_of_the_radius_along_a_unit_heading() {
    // Headings of unit length, up to rounding: those of the boundary points.
    let radius: i64 = 7_375_000;
    for index in 0..LENGTH {
        for draw in 0..100 {
            let sphere = Sphere::assemble([0, 0], radius as i32, ring(index), draw, &[0; 32]);
            let x: i64 = sphere.velocity[0] as i64;
            let y: i64 = sphere.velocity[1] as i64;
            let speed: i64 = isqrt((x * x + y * y) as u128) as i64;
            let share: i64 = draw as i64 + 1;
            assert!(100 * ONE as i64 * speed <= share * radius * (ONE as i64 + 1));
            assert!(share * radius * (ONE as i64 - 2) <= 100 * ONE as i64 * (speed + 3));
            assert!(radius / 100 - 3 <= speed && speed <= radius);
        }
    }
}

#[test]
fn assembled_sphere_has_its_points_on_its_boundary() {
    let sphere = Sphere::assemble([10_000_000, -20_000_000], 5_000_000, [ONE, 0], 0, &[0; 32]);
    assert_eq!(sphere.points[0].position, [15_000_000, -20_000_000]);
    assert_eq!(sphere.points[8].position, [10_000_000, -15_000_000]);
    assert_eq!(sphere.points[16].position, [5_000_000, -20_000_000]);
    assert_eq!(sphere.points[24].position, [10_000_000, -25_000_000]);
    assert_eq!(sphere.points[4].position, [13_535_533, -16_464_467]);
    assert_eq!(sphere.points[1].position, [14_903_926, -19_024_549]);
    for index in 0..LENGTH {
        let x: i64 = (sphere.points[index].position[0] - 10_000_000) as i64;
        let y: i64 = (sphere.points[index].position[1] + 20_000_000) as i64;
        let length2: i64 = x * x + y * y;
        assert!(4_999_998 * 4_999_998 <= length2 && length2 <= 5_000_001 * 5_000_001);
    }
}

#[test]
fn assembled_sphere_takes_the_drawn_colours() {
    let mut tints: [usize; 32] = [0; 32];
    for index in 0..LENGTH {
        tints[index] = index;
    }
    let sphere = Sphere::assemble([0, 0], 1_000, [ONE, 0], 0, &tints);
    for index in 0..LENGTH {
        assert_eq!(sphere.points[index].color, COLORS[index % 7]);
    }
}

#[test]
fn assembled_sphere_saturates_at_the_end_of_the_range() {
    let corner: [i32; 2] = [i32::MAX, i32::MIN];
    let sphere = Sphere::assemble(corner, i32::MAX, corner, 99, &[0; 32]);
    assert_eq!(sphere.points[0].position, [i32::MAX, i32::MIN]);
    assert_eq!(sphere.points[16].position[0], 0);
    assert_eq!(sphere.velocity, [i32::MAX, i32::MIN]);
}

#[test]
fn new_sphere_moves_along_its_heading_at_a_share_of_its_radius() {
    for _ in 0..50 {
        let sphere = Sphere::new([1_000_000, 2_000_000], 4_000_000, [ONE, 0]);
        assert_eq!(sphere.center, [1_000_000, 2_000_000]);
        assert_eq!(sphere.radius, 4_000_000);
        assert_eq!(sphere.velocity[1], 0);
        assert!(40_000 <= sphere.velocity[0] && sphere.velocity[0] <= 4_000_000);
        assert_eq!(sphere.velocity[0] % 40_000, 0);
    }
}

#[test]
fn new_sphere_is_one_that_can_be_assembled() {
    let center: [i32; 2] = [-3_000_000, 5];
    let heading: [i32; 2] = [60_000_000, -80_000_000];
    for _ in 0..20 {
        let sphere = Sphere::new(center, 7_000_000, heading);
        let draw: usize = (0..100)
            .find(|draw| {
                let twin = Sphere::assemble(center, 7_000_000, heading, *draw, &[0; 32]);
                twin.velocity == sphere.velocity
            })
            .expect("a share between 1 and 100 hundredths");
        let twin = Sphere::assemble(center, 7_000_000, heading, draw, &[0; 32]);
        assert_eq!(sphere.center, twin.center);
        assert_eq!(sphere.radius, twin.radius);
        for index in 0..LENGTH {
            assert_eq!(sphere.points[index].position, twin.points[index].position);
            assert!(COLORS.contains(&sphere.points[index].color));
        }
    }
}

#[test]
fn new_spheres_differ_in_what_is_drawn() {
    let mut speeds: Vec<i32> = Vec::new();
    let mut colors: Vec<[u8; 3]> = Vec::new();
    for _ in 0..200 {
        let sphere = Sphere::new([0, 0], 4_000_000, [ONE, 0]);
        if !speeds.contains(&sphere.velocity[0]) {
            speeds.push(sphere.velocity[0]);
        }
        if !colors.contains(&sphere.points[0].color) {
            colors.push(sphere.points[0].color);
        }
    }
    assert!(speeds.len() > 1);
    assert!(colors.len() > 1);
}
