use collisions::geometry::Sphere;
use collisions::object::{indices_data, vertices_data, Object};
use collisions::settings::{COLORS, LENGTH, ONE};

#[test]
fn indices_make_a_fan_round_the_first_vertex() {
    let indices = indices_data();
    assert_eq!(indices.len(), 3 * LENGTH);
    assert_eq!(&indices[0..3], &[0, 1, 2]);
    assert_eq!(&indices[3..6], &[0, 2, 3]);
    assert_eq!(&indices[90..93], &[0, 31, 32]);
    for triangle in 0..LENGTH - 1 {
        assert_eq!(indices[3 * triangle], 0);
        assert_eq!(indices[3 * triangle + 1] as usize, triangle + 1);
        assert_eq!(indices[3 * triangle + 2] as usize, triangle + 2);
    }
}

#[test]
fn indices_close_the_fan_on_the_first_boundary_vertex() {
    let indices = indices_data();
    assert_eq!(&indices[93..96], &[0, 32, 1]);
}

#[test]
fn vertices_start_with_a_hub_at_the_origin() {
    let mut tints: [usize; 32] = [0; 32];
    tints[0] = 2;
    let sphere = Sphere::assemble([30_000_000, 40_000_000], 1_000_000, [ONE, 0], 0, &tints);
    let vertices = vertices_data(sphere);
    assert_eq!(vertices.len(), LENGTH + 1);
    assert_eq!(vertices[0].position, [0, 0]);
    assert_eq!(vertices[0].color, COLORS[2]);
}

#[test]
fn vertices_go_on_with_the_boundary_points() {
    let mut tints: [usize; 32] = [0; 32];
    for index in 0..LENGTH {
        tints[index] = 3 * index + 1;
    }
    let sphere = Sphere::assemble([30_000_000, 40_000_000], 1_000_000, [ONE, 0], 0, &tints);
    let vertices = vertices_data(sphere);
    for index in 0..LENGTH {
        assert_eq!(vertices[index + 1].position, sphere.points[index].position);
        assert_eq!(vertices[index + 1].color, sphere.points[index].color);
    }
    assert_eq!(vertices[1].position, [31_000_000, 40_000_000]);
    assert_eq!(vertices[9].position, [30_000_000, 41_000_000]);
}

#[test]
fn new_object_holds_the_fan_of_its_sphere() {
    let object = Object::new([-10_000_000, 25_000_000], 2_000_000, [0, ONE]);
    assert_eq!(object.sphere.center, [-10_000_000, 25_000_000]);
    assert_eq!(object.sphere.radius, 2_000_000);
    assert_eq!(object.sphere.velocity[0], 0);
    assert!(20_000 <= object.sphere.velocity[1] && object.sphere.velocity[1] <= 2_000_000);
    assert_eq!(object.indices, indices_data());
    let vertices = vertices_data(object.sphere);
    for index in 0..LENGTH + 1 {
        assert_eq!(object.vertices[index].position, vertices[index].position);
        assert_eq!(object.vertices[index].color, vertices[index].color);
    }
}

#[test]
fn update_moves_the_sphere_and_sets_its_velocity() {
    let mut object = Object::new([-10_000_000, 25_000_000], 2_000_000, [0, ONE]);
    let points = object.sphere.points;
    object.update([5, 6], [-7, 8]);
    assert_eq!(object.sphere.center, [5, 6]);
    assert_eq!(object.sphere.velocity, [-7, 8]);
    assert_eq!(object.sphere.radius, 2_000_000);
    assert_eq!(object.indices, indices_data());
    for index in 0..LENGTH {
        assert_eq!(object.sphere.points[index].position, points[index].position);
        assert_eq!(object.sphere.points[index].color, points[index].color);
        assert_eq!(object.vertices[index + 1].position, points[index].position);
    }
}
