use collisions::engine::{
    adjust, collisions, generate, inner, layout, rebound, reshape, respond, seed, tick, touches,
    update, wall, Action, Event, Layout, Rect,
};
use collisions::geometry::Sphere;
use collisions::object::{indices_data, Object};
use collisions::operations::dist;
use collisions::settings::ONE;

/// The radius of the spheres of most scenes below: a twentieth of the unit.
const RADIUS: i32 = 5_000_000;

/// An object whose sphere is at `center`, moves at `velocity` and has `radius`.
fn body(center: [i32; 2], velocity: [i32; 2], radius: i32) -> Object {
    let mut object = Object::new(center, radius, [ONE, 0]);
    object.update(center, velocity);
    object
}

/// The centres of the spheres of a scene.
fn centers(objects: &Vec<Object>) -> Vec<[i32; 2]> {
    objects.iter().map(|object| object.sphere.center).collect()
}

/// The velocities of the spheres of a scene.
fn velocities(objects: &Vec<Object>) -> Vec<[i32; 2]> {
    objects.iter().map(|object| object.sphere.velocity).collect()
}

/// The sum of the squares of the speeds of a scene.
fn energy(objects: &Vec<Object>) -> i64 {
    objects
        .iter()
        .map(|object| {
            let x: i64 = object.sphere.velocity[0] as i64;
            let y: i64 = object.sphere.velocity[1] as i64;
            x * x + y * y
        })
        .sum()
}

/// A heading for each sphere of the grid of `seed`.
fn headings(seed: usize) -> Vec<[i32; 2]> {
    let amount: usize = layout(seed).amount;
    vec![[60_000_000, 80_000_000]; amount * amount]
}

#[test]
fn layout_follows_the_seed() {
    assert_eq!(layout(0), Layout { amount: 8, radius: 2_500_000, padding: 17_777_777 });
    assert_eq!(layout(1), Layout { amount: 9, radius: 2_333_333, padding: 15_800_000 });
    assert_eq!(layout(2), Layout { amount: 10, radius: 2_200_000, padding: 14_181_818 });
    assert_eq!(layout(23), Layout { amount: 31, radius: 1_387_096, padding: 3_562_501 });
    assert_eq!(layout(24), Layout { amount: 8, radius: 5_500_000, padding: 12_444_444 });
    assert_eq!(layout(39), Layout { amount: 23, radius: 2_565_217, padding: 3_416_667 });
    assert_eq!(layout(40), Layout { amount: 24, radius: 833_333, padding: 6_400_000 });
    assert_eq!(layout(119), Layout { amount: 31, radius: 1_903_225, padding: 2_562_501 });
    assert_eq!(layout(123_456_789), Layout { amount: 29, radius: 1_689_655, padding: 3_400_000 });
}

#[test]
fn layout_repeats_every_hundred_and_twenty_seeds() {
    for seed in 0..120 {
        assert_eq!(layout(seed), layout(seed + 120));
        assert_eq!(layout(seed), layout(seed + 120 * 1_000));
    }
}

#[test]
fn layout_stays_in_its_ranges() {
    for seed in 0..240 {
        let grid = layout(seed);
        assert!(8 <= grid.amount && grid.amount < 32);
        // Between 20 and 59 hundredths of a cell.
        let cells: i64 = 100 * grid.amount as i64;
        let radius: i64 = grid.radius as i64;
        assert!(20 * ONE as i64 / cells <= radius && radius <= 59 * ONE as i64 / cells);
        assert_eq!(radius, (20 + seed as i64 % 40) * ONE as i64 / cells);
        // What the spheres leave of the width, in equal parts.
        let parts: i64 = grid.amount as i64 + 1;
        assert_eq!(grid.padding as i64, (2 * ONE as i64 - 2 * radius * grid.amount as i64) / parts);
        assert!(grid.padding >= 0);
    }
}

#[test]
fn layout_takes_the_largest_seed() {
    let grid = layout(usize::MAX);
    assert_eq!(grid.amount, 8 + usize::MAX % 24);
    assert!(grid.radius > 0 && grid.padding >= 0);
}

#[test]
fn seed_comes_with_its_layout() {
    let mut seeds: Vec<usize> = Vec::new();
    for _ in 0..50 {
        let (drawn, grid) = seed();
        assert_eq!(grid, layout(drawn));
        if !seeds.contains(&drawn) {
            seeds.push(drawn);
        }
    }
    assert!(seeds.len() > 1);
}

#[test]
fn generate_makes_a_square_grid() {
    let objects = generate(2, &headings(2)).expect("one heading for each sphere");
    assert_eq!(objects.len(), 100);
    for object in objects.iter() {
        assert_eq!(object.sphere.radius, 2_200_000);
    }
    // The first row, from the left wall.
    assert_eq!(objects[0].sphere.center, [-83_618_182, -83_618_182]);
    assert_eq!(objects[1].sphere.center, [-65_036_364, -83_618_182]);
    assert_eq!(objects[9].sphere.center, [83_618_180, -83_618_182]);
    // The second row starts over.
    assert_eq!(objects[10].sphere.center, [-83_618_182, -65_036_364]);
    assert_eq!(objects[99].sphere.center, [83_618_180, 83_618_180]);
}

#[test]
fn generate_spaces_the_grid_evenly() {
    for seed in [0, 7, 23, 24, 59, 119] {
        let grid = layout(seed);
        let objects = generate(seed, &headings(seed)).expect("one heading for each sphere");
        assert_eq!(objects.len(), grid.amount * grid.amount);
        let pitch: i32 = grid.padding + 2 * grid.radius;
        for (index, object) in objects.iter().enumerate() {
            let column: i32 = (index % grid.amount) as i32;
            let line: i32 = (index / grid.amount) as i32;
            assert_eq!(
                object.sphere.center,
                [pitch * (column + 1) - ONE - grid.radius, pitch * (line + 1) - ONE - grid.radius]
            );
        }
    }
}

#[test]
fn generate_wants_one_heading_for_each_sphere() {
    assert!(generate(2, &vec![[ONE, 0]; 99]).is_none());
    assert!(generate(2, &vec![[ONE, 0]; 101]).is_none());
    assert!(generate(2, &Vec::new()).is_none());
    assert!(generate(2, &vec![[ONE, 0]; 100]).is_some());
    assert!(generate(0, &vec![[ONE, 0]; 64]).is_some());
    assert!(generate(23, &vec![[ONE, 0]; 961]).is_some());
}

#[test]
fn generate_is_a_function_of_the_seed() {
    for seed in [2, 50, 119, 1_000_003] {
        let first = generate(seed, &headings(seed)).expect("one heading for each sphere");
        let second = generate(seed, &vec![[0, -ONE]; first.len()]).expect("as many headings");
        assert_eq!(centers(&first), centers(&second));
        for (one, other) in first.iter().zip(second.iter()) {
            assert_eq!(one.sphere.radius, other.sphere.radius);
            for index in 0..32 {
                assert_eq!(one.sphere.points[index].position, other.sphere.points[index].position);
            }
        }
    }
}

#[test]
fn generate_keeps_the_grid_within_the_walls_and_free_of_overlap() {
    for seed in 0..120 {
        let grid = layout(seed);
        let objects = generate(seed, &headings(seed)).expect("one heading for each sphere");
        for object in objects.iter() {
            assert!(object.sphere.center[0].abs() + grid.radius <= ONE);
            assert!(object.sphere.center[1].abs() + grid.radius <= ONE);
        }
        for first in 0..objects.len() {
            for second in first + 1..objects.len() {
                let apart: i32 = dist(objects[first].sphere.center, objects[second].sphere.center);
                assert!(apart >= 2 * grid.radius);
            }
        }
    }
}

#[test]
fn generate_launches_each_sphere_along_its_heading() {
    let mut directions = headings(2);
    directions[0] = [ONE, 0];
    directions[1] = [0, -ONE];
    let objects = generate(2, &directions).expect("one heading for each sphere");
    let velocity = objects[0].sphere.velocity;
    assert_eq!(velocity[1], 0);
    assert!(22_000 <= velocity[0] && velocity[0] <= 2_200_000 && velocity[0] % 22_000 == 0);
    let velocity = objects[1].sphere.velocity;
    assert_eq!(velocity[0], 0);
    assert!(-2_200_000 <= velocity[1] && velocity[1] <= -22_000 && velocity[1] % 22_000 == 0);
    for object in objects[2..].iter() {
        // Three fifths and four fifths of the same speed.
        let velocity = object.sphere.velocity;
        assert!(13_200 <= velocity[0] && velocity[0] <= 1_320_000 && velocity[0] % 13_200 == 0);
        assert_eq!(velocity[1], velocity[0] / 3 * 4);
    }
}

#[test]
fn generate_gives_each_sphere_its_fan() {
    let objects = generate(0, &headings(0)).expect("one heading for each sphere");
    for object in objects.iter() {
        assert_eq!(object.indices, indices_data());
        assert_eq!(object.vertices[0].position, [0, 0]);
        assert_eq!(object.vertices[0].color, object.sphere.points[0].color);
        for index in 0..32 {
            assert_eq!(object.vertices[index + 1].position, object.sphere.points[index].position);
            assert_eq!(object.vertices[index + 1].color, object.sphere.points[index].color);
        }
        assert_eq!(
            object.sphere.points[0].position,
            [object.sphere.center[0] + 2_500_000, object.sphere.center[1]]
        );
    }
}

#[test]
fn update_moves_each_sphere_by_its_velocity() {
    let mut objects = vec![body([100, 200], [3, -4], 10), body([-5, 5], [0, 0], 10)];
    update(&mut objects);
    assert_eq!(centers(&objects), vec![[103, 196], [-5, 5]]);
    assert_eq!(velocities(&objects), vec![[3, -4], [0, 0]]);
    update(&mut objects);
    assert_eq!(centers(&objects), vec![[106, 192], [-5, 5]]);
}

#[test]
fn update_stops_at_the_end_of_the_range() {
    let mut objects = vec![body([i32::MAX - 1, i32::MIN + 1], [5, -5], 10)];
    update(&mut objects);
    assert_eq!(centers(&objects), vec![[i32::MAX, i32::MIN]]);
}

#[test]
fn update_takes_an_empty_scene() {
    let mut objects: Vec<Object> = Vec::new();
    update(&mut objects);
    assert!(objects.is_empty());
}

#[test]
fn wall_turns_round_a_sphere_that_sticks_out() {
    let mut object = body([96_000_000, 0], [10_000, 0], RADIUS);
    wall(&mut object);
    assert_eq!(object.sphere.velocity, [-10_000, 0]);
    assert_eq!(object.sphere.center, [96_000_000, 0]);
    let mut object = body([-96_000_000, 0], [-10_000, 5_000], RADIUS);
    wall(&mut object);
    assert_eq!(object.sphere.velocity, [10_000, 5_000]);
    let mut object = body([0, 97_000_000], [1_000, 2_000], RADIUS);
    wall(&mut object);
    assert_eq!(object.sphere.velocity, [1_000, -2_000]);
    let mut object = body([0, -97_000_000], [1_000, -2_000], RADIUS);
    wall(&mut object);
    assert_eq!(object.sphere.velocity, [1_000, 2_000]);
}

#[test]
fn wall_leaves_alone_a_sphere_that_heads_back() {
    let mut object = body([96_000_000, 0], [-10_000, 0], RADIUS);
    wall(&mut object);
    assert_eq!(object.sphere.velocity, [-10_000, 0]);
    let mut object = body([-96_000_000, 0], [10_000, 0], RADIUS);
    wall(&mut object);
    assert_eq!(object.sphere.velocity, [10_000, 0]);
    // Twice in a row turns it round once.
    let mut object = body([96_000_000, -96_000_000], [10_000, -10_000], RADIUS);
    wall(&mut object);
    wall(&mut object);
    assert_eq!(object.sphere.velocity, [-10_000, 10_000]);
}

#[test]
fn wall_leaves_alone_a_sphere_within_the_walls() {
    let mut object = body([95_000_000, -95_000_000], [1, -1], RADIUS);
    wall(&mut object);
    assert_eq!(object.sphere.velocity, [1, -1]);
    // One unit further it sticks out.
    let mut object = body([95_000_001, 0], [7, 0], RADIUS);
    wall(&mut object);
    assert_eq!(object.sphere.velocity, [-7, 0]);
}

#[test]
fn wall_looks_at_each_axis_alone() {
    let mut object = body([96_000_000, 0], [10_000, 10_000], RADIUS);
    wall(&mut object);
    assert_eq!(object.sphere.velocity, [-10_000, 10_000]);
    let mut object = body([96_000_000, -96_000_000], [10_000, 10_000], RADIUS);
    wall(&mut object);
    assert_eq!(object.sphere.velocity, [-10_000, 10_000]);
}

#[test]
fn wall_saturates_the_largest_speed() {
    let mut object = body([-96_000_000, 0], [i32::MIN, 5], RADIUS);
    wall(&mut object);
    assert_eq!(object.sphere.velocity, [i32::MAX, 5]);
}

#[test]
fn wall_counts_the_centre_line_as_the_positive_side() {
    let mut object = body([0, 0], [5, -5], ONE + 1);
    wall(&mut object);
    assert_eq!(object.sphere.velocity, [-5, -5]);
}

#[test]
fn sphere_about_to_leave_is_turned_round() {
    // A sphere a hundredth short of the right wall, moving two hundredths a tick.
    let mut objects = vec![body([ONE - RADIUS - 1_000_000, 0], [2_000_000, 0], RADIUS)];
    update(&mut objects);
    wall(&mut objects[0]);
    assert!(objects[0].sphere.velocity[0] < 0);
    assert_eq!(objects[0].sphere.velocity, [-2_000_000, 0]);
    assert_eq!(objects[0].sphere.center, [96_000_000, 0]);
    assert!(objects[0].sphere.center[0] <= ONE + RADIUS);
    // One tick later it is back inside.
    update(&mut objects);
    wall(&mut objects[0]);
    assert_eq!(objects[0].sphere.center, [94_000_000, 0]);
    assert_eq!(objects[0].sphere.velocity, [-2_000_000, 0]);
}

#[test]
fn sphere_about_to_leave_is_turned_round_by_a_tick() {
    let mut objects = vec![body([ONE - RADIUS - 1_000_000, 0], [2_000_000, 0], RADIUS)];
    tick(&mut objects);
    assert_eq!(objects[0].sphere.velocity, [-2_000_000, 0]);
    assert_eq!(objects[0].sphere.center, [96_000_000, 0]);
}

#[test]
fn sphere_within_the_walls_sticks_out_by_no_more_than_its_speed() {
    let mut objects = vec![
        body([94_000_000, -94_500_000], [900_000, -400_000], RADIUS),
        body([-95_000_000, 95_000_000], [-1_000_000, 1_000_000], RADIUS),
        body([0, 0], [1_000_000, 1_000_000], RADIUS),
    ];
    update(&mut objects);
    for object in objects.iter_mut() {
        wall(object);
    }
    assert_eq!(
        centers(&objects),
        vec![[94_900_000, -94_900_000], [-96_000_000, 96_000_000], [1_000_000, 1_000_000]]
    );
    assert_eq!(
        velocities(&objects),
        vec![[900_000, -400_000], [1_000_000, -1_000_000], [1_000_000, 1_000_000]]
    );
    for object in objects.iter() {
        assert!(object.sphere.center[0].abs() + object.sphere.radius <= ONE + 1_000_000);
        assert!(object.sphere.center[1].abs() + object.sphere.radius <= ONE + 1_000_000);
    }
}

#[test]
fn lone_sphere_never_sticks_out_by_more_than_its_speed() {
    let mut objects = vec![body([90_000_000, -94_000_000], [1_700_000, -900_000], RADIUS)];
    for _ in 0..1_000 {
        tick(&mut objects);
        let sphere = objects[0].sphere;
        assert!(sphere.center[0].abs() + RADIUS <= ONE + 1_700_000);
        assert!(sphere.center[1].abs() + RADIUS <= ONE + 1_700_000);
        assert_eq!(sphere.velocity[0].abs(), 1_700_000);
        assert_eq!(sphere.velocity[1].abs(), 900_000);
        // Where it sticks out it heads back.
        if sphere.center[0] + RADIUS > ONE {
            assert!(sphere.velocity[0] < 0);
        }
        if sphere.center[1] - RADIUS < -ONE {
            assert!(sphere.velocity[1] > 0);
        }
    }
    assert_eq!(objects[0].sphere.center, [-76_600_000, 35_600_000]);
    assert_eq!(objects[0].sphere.velocity, [-1_700_000, 900_000]);
}

#[test]
fn touches_when_both_come_within_two_radii() {
    let first = body([0, 0], [3_000_000, 1_000_000], RADIUS);
    let second = body([8_000_000, 6_000_000], [-2_000_000, -500_000], RADIUS);
    assert!(touches(&first.sphere, &second.sphere));
    assert!(touches(&second.sphere, &first.sphere));
    let first = body([0, 0], [100_000, 0], RADIUS);
    let second = body([20_000_000, 0], [-100_000, 0], RADIUS);
    assert!(!touches(&first.sphere, &second.sphere));
}

#[test]
fn touches_goes_by_where_both_would_be_a_tick_from_now() {
    // One tick from now the two are exactly two radii apart.
    let first = body([0, 0], [100_000, 0], RADIUS);
    let second = body([10_100_000, 0], [0, 0], RADIUS);
    assert!(touches(&first.sphere, &second.sphere));
    let second = body([10_100_001, 0], [0, 0], RADIUS);
    assert!(!touches(&first.sphere, &second.sphere));
    let second = body([10_200_000, 0], [-100_000, 0], RADIUS);
    assert!(touches(&first.sphere, &second.sphere));
    let second = body([10_200_001, 0], [-100_000, 0], RADIUS);
    assert!(!touches(&first.sphere, &second.sphere));
}

#[test]
fn touches_although_neither_comes_near_where_the_other_is_now() {
    // Three radii apart, each moving six tenths of a radius toward the other: one tick from
    // now they are within two radii, though neither is within two radii of where the other is.
    let radius: i32 = 10_000_000;
    let first = body([0, 0], [6_000_000, 0], radius);
    let second = body([30_000_000, 0], [-6_000_000, 0], radius);
    assert!(touches(&first.sphere, &second.sphere));
    assert!(touches(&second.sphere, &first.sphere));
    let mut objects = vec![first, second];
    inner(&mut objects, 0, 1);
    assert_eq!(velocities(&objects), vec![[-6_000_000, 0], [6_000_000, 0]]);
}

#[test]
fn touches_not_what_overlaps_and_moves_apart() {
    // The two overlap, but one tick from now they are more than two radii apart.
    let radius: i32 = 10_000_000;
    let first = body([0, 0], [-1_000_000, 10_000_000], radius);
    let second = body([15_000_000, 0], [1_000_000, -10_000_000], radius);
    assert!(!touches(&first.sphere, &second.sphere));
    assert!(!touches(&second.sphere, &first.sphere));
    let mut objects = vec![first, second];
    inner(&mut objects, 0, 1);
    assert_eq!(velocities(&objects), vec![[-1_000_000, 10_000_000], [1_000_000, -10_000_000]]);
    collisions(&mut objects);
    assert_eq!(velocities(&objects), vec![[-1_000_000, 10_000_000], [1_000_000, -10_000_000]]);
}

#[test]
fn touches_never_at_one_place_or_with_a_negative_radius() {
    let first = body([10, 10], [1, 0], RADIUS);
    let second = body([10, 10], [-1, 0], RADIUS);
    assert!(!touches(&first.sphere, &second.sphere));
    assert!(!touches(&first.sphere, &first.sphere));
    let first = body([0, 0], [0, 0], -1);
    let second = body([1, 0], [0, 0], -1);
    assert!(!touches(&first.sphere, &second.sphere));
}

#[test]
fn rebound_takes_the_part_along_the_line_of_centres() {
    let first = body([0, 0], [3_000_000, 1_000_000], RADIUS);
    let second = body([8_000_000, 6_000_000], [-2_000_000, -500_000], RADIUS);
    assert_eq!(rebound(&first.sphere, &second.sphere), [-920_000, -1_940_000]);
    assert_eq!(rebound(&second.sphere, &first.sphere), [1_920_000, 2_440_000]);
}

#[test]
fn rebound_rounds_toward_zero() {
    let first = body([1_234_567, -678_901], [3_133_700, -2_718_281], RADIUS);
    let second = body([7_000_001, 5_000_003], [-1_414_213, 1_732_050], RADIUS);
    assert_eq!(rebound(&first.sphere, &second.sphere), [3_050_271, -2_800_458]);
    assert_eq!(rebound(&second.sphere, &first.sphere), [-1_330_784, 1_814_227]);
}

#[test]
fn rebound_takes_the_largest_speeds() {
    // Head on along the diagonal, from corner to corner of the range.
    let first = body([i32::MIN, i32::MIN], [i32::MAX, i32::MAX], i32::MAX);
    let second = body([i32::MAX, i32::MAX], [i32::MIN, i32::MIN], i32::MAX);
    assert!(touches(&first.sphere, &second.sphere));
    assert_eq!(rebound(&first.sphere, &second.sphere), [i32::MIN, i32::MIN]);
    assert_eq!(rebound(&second.sphere, &first.sphere), [i32::MAX, i32::MAX]);
    // Past each other, across the line of centres.
    let first = body([0, 0], [i32::MAX, i32::MIN], RADIUS);
    let second = body([1, 1], [i32::MIN, i32::MAX], RADIUS);
    assert_eq!(rebound(&first.sphere, &second.sphere), [i32::MAX, i32::MIN]);
    assert_eq!(rebound(&second.sphere, &first.sphere), [i32::MIN, i32::MAX]);
}

#[test]
fn rebound_at_one_place_keeps_the_velocity() {
    let first = body([10, 10], [1, 2], RADIUS);
    let second = body([10, 10], [-3, 4], RADIUS);
    assert_eq!(rebound(&first.sphere, &second.sphere), [1, 2]);
    assert_eq!(rebound(&second.sphere, &first.sphere), [-3, 4]);
}

#[test]
fn inner_lets_a_head_on_pair_exchange_velocities() {
    let mut objects = vec![
        body([-1_250_000, 0], [1_000_000, 0], 2_200_000),
        body([1_250_000, 0], [-1_000_000, 0], 2_200_000),
    ];
    inner(&mut objects, 0, 1);
    assert_eq!(velocities(&objects), vec![[-1_000_000, 0], [1_000_000, 0]]);
    assert_eq!(centers(&objects), vec![[-1_250_000, 0], [1_250_000, 0]]);
}

#[test]
fn inner_gives_the_same_whichever_comes_first() {
    let mut objects = vec![
        body([0, 0], [3_000_000, 1_000_000], RADIUS),
        body([8_000_000, 6_000_000], [-2_000_000, -500_000], RADIUS),
    ];
    inner(&mut objects, 1, 0);
    assert_eq!(velocities(&objects), vec![[-920_000, -1_940_000], [1_920_000, 2_440_000]]);
}

#[test]
fn inner_leaves_alone_a_pair_that_is_far_apart() {
    let mut objects = vec![
        body([0, 0], [100_000, 0], RADIUS),
        body([20_000_000, 0], [-100_000, 0], RADIUS),
    ];
    inner(&mut objects, 0, 1);
    assert_eq!(velocities(&objects), vec![[100_000, 0], [-100_000, 0]]);
}

#[test]
fn inner_leaves_alone_a_pair_at_one_place() {
    let mut objects = vec![
        body([10, 10], [100_000, 0], RADIUS),
        body([10, 10], [-100_000, 0], RADIUS),
    ];
    inner(&mut objects, 0, 1);
    assert_eq!(velocities(&objects), vec![[100_000, 0], [-100_000, 0]]);
    inner(&mut objects, 1, 1);
    assert_eq!(velocities(&objects), vec![[100_000, 0], [-100_000, 0]]);
}

#[test]
fn inner_touches_no_third_sphere() {
    let mut objects = vec![
        body([0, 0], [3_000_000, 1_000_000], RADIUS),
        body([4_000_000, 0], [5, 5], RADIUS),
        body([8_000_000, 6_000_000], [-2_000_000, -500_000], RADIUS),
    ];
    inner(&mut objects, 0, 2);
    assert_eq!(velocities(&objects), vec![[-920_000, -1_940_000], [5, 5], [1_920_000, 2_440_000]]);
    assert_eq!(centers(&objects), vec![[0, 0], [4_000_000, 0], [8_000_000, 6_000_000]]);
}

#[test]
fn collision_conserves_momentum_and_energy() {
    let mut objects = vec![
        body([0, 0], [3_000_000, 1_000_000], RADIUS),
        body([8_000_000, 6_000_000], [-2_000_000, -500_000], RADIUS),
    ];
    let before: i64 = energy(&objects);
    collisions(&mut objects);
    assert_eq!(velocities(&objects), vec![[-920_000, -1_940_000], [1_920_000, 2_440_000]]);
    assert_eq!(energy(&objects), before);
    assert_eq!(before, 14_250_000_000_000);

    let mut objects = vec![
        body([1_234_567, -678_901], [3_133_700, -2_718_281], RADIUS),
        body([7_000_001, -5_000_003], [-1_414_213, 1_732_050], RADIUS),
    ];
    let before: i64 = energy(&objects);
    collisions(&mut objects);
    let speeds = velocities(&objects);
    assert_eq!(speeds, vec![[-1_914_152, 1_065_005], [3_633_639, -2_051_236]]);
    assert_eq!([speeds[0][0] + speeds[1][0], speeds[0][1] + speeds[1][1]], [1_719_487, -986_231]);
    assert_eq!(before, 22_209_122_896_830);
    assert_eq!(energy(&objects) - before, -7_857_684);
    // No more than eight times the closing speed, and two.
    assert!((energy(&objects) - before).abs() <= 8 * (3_133_700 + 1_414_213) + 2);
}

#[test]
fn rebounds_conserve_momentum_and_energy_whatever_the_pair() {
    // Pairs of spheres from a generator of numbers that always gives the same.
    let mut state: u64 = 0x2545_f491_4f6c_dd1d;
    let mut next = |range: i64| -> i32 {
        state = state
            .wrapping_mul(6_364_136_223_846_793_005)
            .wrapping_add(1_442_695_040_888_963_407);
        ((state >> 33) as i64 % (2 * range + 1) - range) as i32
    };
    let mut pair = || -> [[i32; 2]; 2] {
        [[next(9_000_000), next(9_000_000)], [next(3_000_000), next(3_000_000)]]
    };
    for _ in 0..10_000 {
        let [center, velocity] = pair();
        let first = body(center, velocity, RADIUS);
        let [center, velocity] = pair();
        let second = body(center, velocity, RADIUS);
        let mine = rebound(&first.sphere, &second.sphere);
        let yours = rebound(&second.sphere, &first.sphere);
        let before = [first.sphere.velocity, second.sphere.velocity];
        assert_eq!(mine[0] + yours[0], before[0][0] + before[1][0]);
        assert_eq!(mine[1] + yours[1], before[0][1] + before[1][1]);
        let square = |speed: i32| -> i64 { speed as i64 * speed as i64 };
        let gained: i64 = square(mine[0]) + square(mine[1]) + square(yours[0]) + square(yours[1])
            - square(before[0][0])
            - square(before[0][1])
            - square(before[1][0])
            - square(before[1][1]);
        let closing: i64 = (before[0][0] as i64 - before[1][0] as i64)
            .abs()
            .max((before[0][1] as i64 - before[1][1] as i64).abs());
        assert!(gained.abs() <= 8 * closing + 2);
    }
}

#[test]
fn collisions_turn_round_at_the_walls_first() {
    // The right wall turns the second sphere round before any pair is looked at, so the
    // first is hit by a sphere that comes back from the wall.
    let mut objects = vec![
        body([87_000_000, 0], [0, 0], RADIUS),
        body([96_000_000, 0], [100_000, 0], RADIUS),
    ];
    collisions(&mut objects);
    assert_eq!(velocities(&objects), vec![[-100_000, 0], [0, 0]]);
    assert_eq!(centers(&objects), vec![[87_000_000, 0], [96_000_000, 0]]);
}

#[test]
fn collisions_judge_every_pair_by_the_scene_as_the_walls_left_it() {
    // The first sphere is in touch with both others. It rebounds from the third, whose pair
    // comes last; the second rebounds from the first as the first was before any pair.
    let mut objects = vec![
        body([0, 0], [1_000_000, 0], RADIUS),
        body([9_000_000, 0], [0, 0], RADIUS),
        body([0, 9_000_000], [0, 0], RADIUS),
    ];
    collisions(&mut objects);
    assert_eq!(velocities(&objects), vec![[1_000_000, 0], [1_000_000, 0], [0, 0]]);
    let mut objects = vec![
        body([0, 0], [1_000_000, 1_000_000], RADIUS),
        body([9_000_000, 0], [0, 0], RADIUS),
        body([0, 9_000_000], [0, 0], RADIUS),
    ];
    collisions(&mut objects);
    assert_eq!(velocities(&objects), vec![[1_000_000, 0], [1_000_000, 0], [0, 1_000_000]]);
}

#[test]
fn collisions_do_the_same_in_whatever_order_the_spheres_stand() {
    // Two pairs collide, and a fifth sphere meets none.
    let spheres: [[[i32; 2]; 2]; 5] = [
        [[0, 0], [3_000_000, 1_000_000]],
        [[50_000_000, 0], [1_000_000, 0]],
        [[8_000_000, 6_000_000], [-2_000_000, -500_000]],
        [[-60_000_000, 10_000_000], [7, 7]],
        [[57_000_000, 3_000_000], [-2_000_000, 300_000]],
    ];
    let scene = |order: [usize; 5]| -> Vec<Object> {
        order.iter().map(|place| body(spheres[*place][0], spheres[*place][1], RADIUS)).collect()
    };
    let mut objects = scene([0, 1, 2, 3, 4]);
    collisions(&mut objects);
    let speeds = velocities(&objects);
    assert_eq!(
        speeds,
        vec![
            [-920_000, -1_940_000],
            [-1_425_862, -1_039_655],
            [1_920_000, 2_440_000],
            [7, 7],
            [425_862, 1_339_655],
        ]
    );
    let orders: [[usize; 5]; 4] =
        [[3, 4, 2, 0, 1], [4, 3, 2, 1, 0], [1, 0, 4, 2, 3], [2, 0, 3, 4, 1]];
    for order in orders {
        let mut objects = scene(order);
        collisions(&mut objects);
        for (place, from) in order.iter().enumerate() {
            assert_eq!(objects[place].sphere.velocity, speeds[*from]);
        }
    }
}

#[test]
fn collisions_take_an_empty_scene_and_a_single_sphere() {
    let mut objects: Vec<Object> = Vec::new();
    collisions(&mut objects);
    assert!(objects.is_empty());
    let mut objects = vec![body([5, 5], [1_000_000, 1_000_000], RADIUS)];
    collisions(&mut objects);
    assert_eq!(velocities(&objects), vec![[1_000_000, 1_000_000]]);
}

#[test]
fn adjust_pushes_an_overlapping_pair_to_two_radii() {
    let mut objects = vec![
        body([0, 0], [1, 2], RADIUS),
        body([3_000_000, 4_000_000], [3, 4], RADIUS),
    ];
    adjust(&mut objects);
    assert_eq!(centers(&objects), vec![[-1_500_000, -2_000_000], [4_500_000, 6_000_000]]);
    assert_eq!(velocities(&objects), vec![[1, 2], [3, 4]]);
    assert_eq!(dist(objects[0].sphere.center, objects[1].sphere.center), 2 * RADIUS);
}

#[test]
fn adjust_leaves_alone_what_does_not_overlap() {
    let mut objects = vec![
        body([0, 0], [1, 2], RADIUS),
        body([6_000_000, 8_000_000], [3, 4], RADIUS),
    ];
    adjust(&mut objects);
    assert_eq!(centers(&objects), vec![[0, 0], [6_000_000, 8_000_000]]);
    assert_eq!(velocities(&objects), vec![[1, 2], [3, 4]]);
}

#[test]
fn adjust_rounds_toward_zero() {
    let mut objects = vec![
        body([0, 0], [0, 0], RADIUS),
        body([3_333_333, -4_444_444], [0, 0], RADIUS),
    ];
    adjust(&mut objects);
    assert_eq!(centers(&objects), vec![[-1_333_333, 1_777_778], [4_666_666, -6_222_222]]);
    assert_eq!(dist(objects[0].sphere.center, objects[1].sphere.center), 2 * RADIUS - 1);
    let mut objects = vec![body([0, 0], [0, 0], RADIUS), body([1, 0], [0, 0], RADIUS)];
    adjust(&mut objects);
    assert_eq!(centers(&objects), vec![[-4_999_999, 0], [5_000_000, 0]]);
}

#[test]
fn adjust_leaves_alone_spheres_at_one_place() {
    let mut objects = vec![body([10, 10], [1, 2], RADIUS), body([10, 10], [3, 4], RADIUS)];
    adjust(&mut objects);
    assert_eq!(centers(&objects), vec![[10, 10], [10, 10]]);
}

#[test]
fn adjust_goes_by_the_radius_of_the_first_sphere() {
    let mut objects = vec![body([0, 0], [0, 0], RADIUS), body([3_000_000, 4_000_000], [0, 0], 10)];
    adjust(&mut objects);
    assert_eq!(centers(&objects), vec![[-1_500_000, -2_000_000], [4_500_000, 6_000_000]]);
    let mut objects = vec![body([0, 0], [0, 0], 10), body([3_000_000, 4_000_000], [0, 0], RADIUS)];
    adjust(&mut objects);
    assert_eq!(centers(&objects), vec![[0, 0], [3_000_000, 4_000_000]]);
}

#[test]
fn adjust_stops_at_the_end_of_the_range() {
    let radius: i32 = 1_000_000_000;
    let mut objects = vec![
        body([2_000_000_000, 0], [0, 0], radius),
        body([2_000_000_001, -5], [0, 0], radius),
    ];
    adjust(&mut objects);
    assert_eq!(centers(&objects), vec![[1_803_110_181, 984_996_627], [i32::MAX, -984_996_632]]);
    // The widest spheres that there are, as close as can be.
    let mut objects = vec![body([0, 0], [0, 0], i32::MAX), body([1, 0], [0, 0], i32::MAX)];
    adjust(&mut objects);
    assert_eq!(centers(&objects), vec![[-2_147_483_646, 0], [i32::MAX, 0]]);
    // And as far apart as can be.
    let mut objects = vec![
        body([i32::MIN, i32::MIN], [0, 0], i32::MAX),
        body([i32::MAX, i32::MAX], [0, 0], i32::MAX),
    ];
    adjust(&mut objects);
    assert_eq!(centers(&objects), vec![[i32::MIN, i32::MIN], [i32::MAX, i32::MAX]]);
}

#[test]
fn adjust_takes_an_empty_scene_and_a_single_sphere() {
    let mut objects: Vec<Object> = Vec::new();
    adjust(&mut objects);
    assert!(objects.is_empty());
    let mut objects = vec![body([5, 5], [1, 1], RADIUS)];
    adjust(&mut objects);
    assert_eq!(centers(&objects), vec![[5, 5]]);
}

#[test]
fn adjust_ends_the_only_overlap_of_a_scene() {
    // The second and the fourth sphere overlap, and no other is within six radii of them.
    let mut objects = vec![
        body([-40_000_000, 0], [0, 0], RADIUS),
        body([1_000_000, 2_000_000], [7, 7], RADIUS),
        body([0, 40_000_000], [0, 0], RADIUS),
        body([4_000_000, -2_000_000], [0, 0], RADIUS),
        body([60_000_000, -60_000_000], [1, 1], RADIUS),
    ];
    adjust(&mut objects);
    assert_eq!(
        centers(&objects),
        vec![
            [-40_000_000, 0],
            [-500_000, 4_000_000],
            [0, 40_000_000],
            [5_500_000, -4_000_000],
            [60_000_000, -60_000_000],
        ]
    );
    for first in 0..objects.len() {
        for second in 0..objects.len() {
            if first != second {
                let apart: i32 = dist(objects[first].sphere.center, objects[second].sphere.center);
                assert!(apart >= 2 * RADIUS - 3);
            }
        }
    }
    assert_eq!(dist(objects[1].sphere.center, objects[3].sphere.center), 2 * RADIUS);
}

#[test]
fn adjust_looks_at_the_pairs_in_turn() {
    // Three in a row: pushing the second off the third pushes it back into the first.
    let radius: i32 = 10_000_000;
    let mut objects = vec![
        body([0, 0], [0, 0], radius),
        body([radius, 0], [0, 0], radius),
        body([2 * radius, 0], [0, 0], radius),
    ];
    adjust(&mut objects);
    assert_eq!(centers(&objects), vec![[-5_000_000, 0], [7_500_000, 0], [27_500_000, 0]]);
}

#[test]
fn adjust_changes_nothing_where_nothing_overlaps() {
    let mut objects = generate(40, &headings(40)).expect("one heading for each sphere");
    let places = centers(&objects);
    let speeds = velocities(&objects);
    adjust(&mut objects);
    assert_eq!(centers(&objects), places);
    assert_eq!(velocities(&objects), speeds);
}

#[test]
fn adjust_takes_the_distance_finer_than_a_unit() {
    // The centres are nearly one and a half units apart, which is more than one.
    let mut objects = vec![body([0, 0], [0, 0], RADIUS), body([1, 1], [0, 0], RADIUS)];
    adjust(&mut objects);
    assert_eq!(centers(&objects), vec![[-3_535_533, -3_535_533], [3_535_534, 3_535_534]]);
    assert_eq!(dist(objects[0].sphere.center, objects[1].sphere.center), 2 * RADIUS - 2);
}

#[test]
fn adjust_leaves_two_spheres_two_radii_apart_up_to_rounding() {
    let places: [(i32, i32); 9] = [
        (1, 0),
        (0, -1),
        (1, 1),
        (-2, 3),
        (3, 4),
        (3_333_333, -4_444_444),
        (-7_000_000, 7_000_000),
        (9_999_999, 0),
        (-1_234_567, -6_789_012),
    ];
    for (x, y) in places {
        let mut objects = vec![
            body([100_000, -200_000], [0, 0], RADIUS),
            body([100_000 + x, -200_000 + y], [0, 0], RADIUS),
        ];
        adjust(&mut objects);
        assert!(dist(objects[0].sphere.center, objects[1].sphere.center) >= 2 * RADIUS - 3);
        assert!(dist(objects[0].sphere.center, objects[1].sphere.center) <= 2 * RADIUS + 1);
    }
}

#[test]
fn head_on_pair_exchanges_velocities_in_a_tick() {
    // The grid of ten a side; two spheres a thousandth more than two radii apart, each moving
    // a hundredth a tick toward the other.
    let grid = layout(2);
    assert_eq!(grid.amount, 10);
    let radius: i32 = grid.radius;
    let mut objects = vec![
        body([-(radius + 50_000), 0], [1_000_000, 0], radius),
        body([radius + 50_000, 0], [-1_000_000, 0], radius),
    ];
    assert_eq!(dist(objects[0].sphere.center, objects[1].sphere.center), 2 * radius + 100_000);
    tick(&mut objects);
    assert_eq!(velocities(&objects), vec![[-1_000_000, 0], [1_000_000, 0]]);
    assert_eq!(centers(&objects), vec![[-radius, 0], [radius, 0]]);
    assert!(dist(objects[0].sphere.center, objects[1].sphere.center) >= 2 * radius);
}

#[test]
fn tick_moves_collides_and_adjusts() {
    let scene = || {
        vec![
            body([0, 0], [3_000_000, 1_000_000], RADIUS),
            body([8_000_000, 6_000_000], [-2_000_000, -500_000], RADIUS),
            body([94_000_000, -94_500_000], [1_900_000, -1_400_000], RADIUS),
        ]
    };
    let mut whole = scene();
    tick(&mut whole);
    let mut parts = scene();
    update(&mut parts);
    collisions(&mut parts);
    adjust(&mut parts);
    assert_eq!(centers(&whole), centers(&parts));
    assert_eq!(velocities(&whole), velocities(&parts));
    assert_eq!(
        centers(&whole),
        vec![[1_726_500, -910_251], [7_273_500, 7_410_251], [95_900_000, -95_900_000]]
    );
    assert_eq!(
        velocities(&whole),
        vec![[769_231, -2_346_153], [230_769, 2_846_153], [-1_900_000, 1_400_000]]
    );
}

#[test]
fn tick_leaves_a_sphere_at_rest_with_no_neighbour_as_it_is() {
    let mut objects = vec![
        body([0, 0], [0, 0], RADIUS),
        body([30_000_000, 0], [100_000, 0], RADIUS),
        body([-30_000_000, 30_000_000], [0, -200_000], RADIUS),
    ];
    let points = objects[0].sphere.points;
    for _ in 0..10 {
        tick(&mut objects);
        assert_eq!(objects[0].sphere.center, [0, 0]);
        assert_eq!(objects[0].sphere.velocity, [0, 0]);
        assert_eq!(objects[0].sphere.radius, RADIUS);
    }
    assert_eq!(centers(&objects), vec![[0, 0], [31_000_000, 0], [-30_000_000, 28_000_000]]);
    for index in 0..32 {
        assert_eq!(objects[0].sphere.points[index].position, points[index].position);
    }
}

#[test]
fn tick_leaves_a_sphere_at_rest_as_it_is_beside_an_overlap_far_away() {
    let mut objects = vec![
        body([0, 0], [0, 0], RADIUS),
        body([50_000_000, 0], [100_000, 0], RADIUS),
        body([53_000_000, 4_000_000], [0, -100_000], RADIUS),
        body([-40_000_000, 40_000_000], [500_000, 0], RADIUS),
    ];
    tick(&mut objects);
    assert_eq!(
        centers(&objects),
        vec![[0, 0], [48_566_487, -2_062_311], [54_533_513, 5_962_311], [-39_500_000, 40_000_000]]
    );
    assert_eq!(
        velocities(&objects),
        vec![[0, 0], [16_512, -112_277], [83_488, 12_277], [500_000, 0]]
    );
}

#[test]
fn tick_moves_a_sphere_at_rest_that_another_is_pushed_into() {
    // The third sphere is at rest, more than two radii from both others; but the first two
    // overlap, and the first is pushed into the third.
    let mut objects = vec![
        body([250, 0], [0, 0], 100),
        body([300, 0], [0, 0], 100),
        body([0, 0], [0, 0], 100),
    ];
    tick(&mut objects);
    assert_eq!(centers(&objects), vec![[184, 0], [381, 0], [-15, 0]]);
}

#[test]
fn tick_stops_at_the_end_of_the_range() {
    let mut objects = vec![
        body([i32::MAX - 5, 0], [100, 0], 5),
        body([i32::MAX - 1, 1], [-100, 7], 5),
    ];
    tick(&mut objects);
    assert_eq!(centers(&objects), vec![[i32::MAX, 0], [2_147_483_546, 8]]);
    assert_eq!(velocities(&objects), vec![[-100, 0], [-100, 7]]);
}

#[test]
fn tick_keeps_the_looks_of_the_scene() {
    let mut objects = generate(5, &headings(5)).expect("one heading for each sphere");
    let radius: i32 = objects[0].sphere.radius;
    let ring: Vec<[i32; 2]> =
        objects.iter().map(|object| object.sphere.points[7].position).collect();
    for _ in 0..5 {
        tick(&mut objects);
    }
    assert_eq!(objects.len(), 13 * 13);
    for (index, object) in objects.iter().enumerate() {
        assert_eq!(object.sphere.radius, radius);
        assert_eq!(object.sphere.points[7].position, ring[index]);
        assert_eq!(object.vertices[8].position, ring[index]);
        assert_eq!(object.indices, indices_data());
    }
}

#[test]
fn ticks_of_a_generated_scene_go_as_reckoned_by_hand() {
    // The grid of eight a side, sphere `index` launched at `1 + 37 * index % 100` hundredths
    // of its radius a tick.
    let mut objects = generate(24, &headings(24)).expect("one heading for each sphere");
    for (index, object) in objects.iter_mut().enumerate() {
        let sphere = object.sphere;
        let heading: [i32; 2] = [60_000_000, 80_000_000];
        let launched =
            Sphere::assemble(sphere.center, sphere.radius, heading, 37 * index, &[0; 32]);
        object.update(sphere.center, launched.velocity);
    }
    let mut closest: i32 = i32::MAX;
    for _ in 0..20 {
        tick(&mut objects);
        for first in 0..objects.len() {
            for second in first + 1..objects.len() {
                let apart: i32 = dist(objects[first].sphere.center, objects[second].sphere.center);
                closest = closest.min(apart);
            }
        }
    }
    assert_eq!(objects[0].sphere.center, [-81_395_556, -81_175_556]);
    assert_eq!(objects[0].sphere.velocity, [33_000, 44_000]);
    assert_eq!(objects[27].sphere.center, [20_450_968, 31_974_003]);
    assert_eq!(objects[27].sphere.velocity, [5_339_457, -1_096_759]);
    assert_eq!(objects[63].sphere.center, [89_422_445, 85_458_504]);
    assert_eq!(objects[63].sphere.velocity, [4_031_606, 407_511]);
    let places: i64 = objects.iter().map(|object| object.sphere.center[0] as i64).sum();
    let speeds: i64 = objects.iter().map(|object| object.sphere.velocity[1] as i64).sum();
    assert_eq!(places, 1_396_179_877);
    assert_eq!(speeds, -12_790_304);
    // Where several spheres meet at once, a pair can be left overlapping a little.
    assert_eq!(closest, 9_272_357);
}

#[test]
fn reshape_takes_the_largest_square_in_the_middle() {
    assert_eq!(reshape(800, 600), Some(Rect { left: 100, bottom: 0, width: 600, height: 600 }));
    assert_eq!(reshape(600, 800), Some(Rect { left: 0, bottom: 100, width: 600, height: 600 }));
    assert_eq!(reshape(625, 625), Some(Rect { left: 0, bottom: 0, width: 625, height: 625 }));
}

#[test]
fn reshape_rounds_the_margin_down() {
    assert_eq!(reshape(11, 4), Some(Rect { left: 3, bottom: 0, width: 4, height: 4 }));
    assert_eq!(reshape(4, 11), Some(Rect { left: 0, bottom: 3, width: 4, height: 4 }));
}

#[test]
fn reshape_takes_an_empty_and_the_largest_window() {
    assert_eq!(reshape(0, 0), Some(Rect { left: 0, bottom: 0, width: 0, height: 0 }));
    assert_eq!(
        reshape(u32::MAX, 0),
        Some(Rect { left: u32::MAX / 2, bottom: 0, width: 0, height: 0 })
    );
    assert_eq!(
        reshape(u32::MAX, u32::MAX),
        Some(Rect { left: 0, bottom: 0, width: u32::MAX, height: u32::MAX })
    );
}

#[test]
fn respond_stops_when_the_window_is_closed() {
    assert_eq!(respond(Event::Close), Action::Exit);
}

#[test]
fn respond_advances_at_the_start_and_when_the_time_has_come() {
    assert_eq!(respond(Event::Init), Action::Advance);
    assert_eq!(respond(Event::Resumed), Action::Advance);
}

#[test]
fn respond_waits_otherwise() {
    assert_eq!(respond(Event::Window), Action::Wait);
    assert_eq!(respond(Event::Woken), Action::Wait);
    assert_eq!(respond(Event::Other), Action::Wait);
}
