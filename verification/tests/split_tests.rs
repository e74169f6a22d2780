use geosplit::split_geometry::split_disjoint_geometry;
use std::collections::HashSet;

fn bits_of(pos: &[f32]) -> Vec<u32> {
    pos.iter().map(|x| x.to_bits()).collect()
}

// Canonical string set of the triangles of a flat buffer, up to rotation of
// each triangle's three vertices.
fn get_tris_set(pos: &[u32]) -> HashSet<String> {
    if pos.len() % 9 != 0 {
        panic!("Position array length must be multiple of 9");
    }
    let mut result = HashSet::new();
    for i in 0..pos.len() / 9 {
        let off = i * 9;
        let v00 = f32::from_bits(pos[off]);
        let v01 = f32::from_bits(pos[off + 1]);
        let v02 = f32::from_bits(pos[off + 2]);
        let v10 = f32::from_bits(pos[off + 3]);
        let v11 = f32::from_bits(pos[off + 4]);
        let v12 = f32::from_bits(pos[off + 5]);
        let v20 = f32::from_bits(pos[off + 6]);
        let v21 = f32::from_bits(pos[off + 7]);
        let v22 = f32::from_bits(pos[off + 8]);

        // Canonical representation: minimum of the three rotations
        let key1 = format!("{};{};{}:{};{};{}:{};{};{}", v00, v01, v02, v10, v11, v12, v20, v21, v22);
        let key2 = format!("{};{};{}:{};{};{}:{};{};{}", v10, v11, v12, v20, v21, v22, v00, v01, v02);
        let key3 = format!("{};{};{}:{};{};{}:{};{};{}", v20, v21, v22, v00, v01, v02, v10, v11, v12);
        let canonical = key1.min(key2).min(key3);
        result.insert(canonical);
    }
    result
}

#[test]
fn test_empty() {
    let result = split_disjoint_geometry(&Vec::new());
    assert_eq!(result.len(), 0);
}

#[test]
fn test_not_multiple_of_nine() {
    // Malformed shape: silently mapped to an empty result. Whether this
    // should instead be a signaled failure is an open question; the current
    // behavior is the compatible one.
    let pos = [0.0, 0.0, 0.0, 1.0, 0.0, 0.0, 0.0, 1.0];
    let result = split_disjoint_geometry(&bits_of(&pos));
    assert_eq!(result.len(), 0);
}

#[test]
fn test_single_triangle() {
    // A single triangle
    let pos = [0.0, 0.0, 0.0, 1.0, 0.0, 0.0, 0.0, 1.0, 0.0];
    let input = bits_of(&pos);
    let result = split_disjoint_geometry(&input);
    assert_eq!(result.len(), 1);
    assert_eq!(result[0], input);
}

#[test]
fn test_two_disjoint_triangles() {
    // Two triangles far apart
    let pos = [
        // triangle 1
        0.0, 0.0, 0.0, 1.0, 0.0, 0.0, 0.0, 1.0, 0.0, // triangle 2
        10.0, 0.0, 0.0, 11.0, 0.0, 0.0, 10.0, 1.0, 0.0,
    ];
    let input = bits_of(&pos);
    let result = split_disjoint_geometry(&input);
    assert_eq!(result.len(), 2);
    // Each part should have 9 floats
    assert_eq!(result[0].len(), 9);
    assert_eq!(result[1].len(), 9);

    // Verify triangle sets match
    let original_tris = get_tris_set(&input);
    let mut reassembled_tris = HashSet::new();
    for part in &result {
        reassembled_tris.extend(get_tris_set(part));
    }
    assert_eq!(&reassembled_tris, &original_tris);
}

// A simple cube geometry (12 triangles, 8 vertices) as a flat array of
// 12*9 = 108 floats. All faces have counter-clockwise winding when viewed
// from outside (outward-facing normals).
fn create_cube_geometry() -> Vec<f32> {
    let vertices = [
        [-0.5, -0.5, -0.5], // 0: left-bottom-back
        [0.5, -0.5, -0.5],  // 1: right-bottom-back
        [0.5, 0.5, -0.5],   // 2: right-top-back
        [-0.5, 0.5, -0.5],  // 3: left-top-back
        [-0.5, -0.5, 0.5],  // 4: left-bottom-front
        [0.5, -0.5, 0.5],   // 5: right-bottom-front
        [0.5, 0.5, 0.5],    // 6: right-top-front
        [-0.5, 0.5, 0.5],   // 7: left-top-front
    ];

    let faces = [
        [0, 2, 1], [0, 3, 2], // back face (normal -Z)
        [4, 5, 6], [4, 6, 7], // front face (normal +Z)
        [1, 2, 6], [1, 6, 5], // right face (normal +X)
        [0, 7, 3], [0, 4, 7], // left face (normal -X)
        [3, 6, 2], [3, 7, 6], // top face (normal +Y)
        [0, 1, 5], [0, 5, 4], // bottom face (normal -Y)
    ];

    let mut result = Vec::with_capacity(12 * 9);
    for face in faces {
        for &vi in &face {
            let v: [f32; 3] = vertices[vi];
            result.extend_from_slice(&v);
        }
    }
    result
}

#[test]
fn test_two_separate_cubes() {
    // Two cubes far apart (not touching)
    let cube1 = create_cube_geometry();
    let mut cube2 = create_cube_geometry();

    // Translate cube2 far away
    for i in 0..cube2.len() / 3 {
        cube2[i * 3] += 10.0; // Move 10 units in x
    }

    // Merge
    let mut merged = cube1.clone();
    merged.extend_from_slice(&cube2);

    let parts = split_disjoint_geometry(&bits_of(&merged));
    assert_eq!(parts.len(), 2, "Two separate cubes should be 2 parts");

    // Each part should have 12 triangles (108 floats)
    assert_eq!(parts[0].len(), 108);
    assert_eq!(parts[1].len(), 108);
}

#[test]
fn test_cube() {
    // Single cube should remain as one part
    let cube_pos = bits_of(&create_cube_geometry());
    let cube_tris = get_tris_set(&cube_pos);

    let parts = split_disjoint_geometry(&cube_pos);
    assert_eq!(parts.len(), 1, "Single cube should be one part");

    let part_tris = get_tris_set(&parts[0]);
    assert_eq!(&part_tris, &cube_tris);
}

#[test]
fn test_contacting_cubes() {
    // Two cubes touching at one side
    let cube1 = create_cube_geometry();
    let cube2 = create_cube_geometry();

    // Translate cube2 by 1.0 in x direction
    let mut cube2_translated = Vec::with_capacity(cube2.len());
    for i in 0..cube2.len() / 3 {
        let x = cube2[i * 3] + 1.0;
        let y = cube2[i * 3 + 1];
        let z = cube2[i * 3 + 2];
        cube2_translated.push(x);
        cube2_translated.push(y);
        cube2_translated.push(z);
    }

    // Merge the two cubes
    let mut merged = cube1.clone();
    merged.extend_from_slice(&cube2_translated);

    let cube1_tris = get_tris_set(&bits_of(&cube1));
    let cube2_tris = get_tris_set(&bits_of(&cube2_translated));

    let parts = split_disjoint_geometry(&bits_of(&merged));
    assert_eq!(parts.len(), 2, "Expected 2 parts for contacting cubes, got {}", parts.len());

    // Check that each part matches one of the original cubes
    let part0_tris = get_tris_set(&parts[0]);
    let part1_tris = get_tris_set(&parts[1]);

    // One part should match cube1, the other cube2
    if part0_tris == cube1_tris {
        assert_eq!(part1_tris, cube2_tris);
    } else if part0_tris == cube2_tris {
        assert_eq!(part1_tris, cube1_tris);
    } else {
        panic!("Neither part matches original cubes");
    }
}

#[test]
fn test_angles() {
    // Two pairs of triangles, each pair forming an angle, all four sharing
    // one line: traversal must keep each pair together.

    // First angle: two triangles sharing edge (0,0,0)-(1,0,0)
    let angle0 = vec![
        // triangle 1
        0.0, 0.0, 0.0, 1.0, 0.0, 0.0, 0.0, 0.0, 1.0, // triangle 2
        0.0, 0.0, 0.0, 0.0, 0.0, 1.0, 1.0, 0.1, 0.0,
    ];

    // Second angle: slightly offset
    let angle1 = vec![
        // triangle 1
        0.0, 0.0, 0.0, 2.0, 0.1999, 0.0, 0.0, 0.0, 1.0, // triangle 2
        0.0, 0.0, 0.0, 0.0, 0.0, 1.0, 2.0, -0.2, 0.0,
    ];

    // Merge angles
    let mut merged = angle0.clone();
    merged.extend_from_slice(&angle1);

    let angle0_tris = get_tris_set(&bits_of(&angle0));
    let angle1_tris = get_tris_set(&bits_of(&angle1));

    let parts = split_disjoint_geometry(&bits_of(&merged));
    assert_eq!(parts.len(), 2);

    let part0_tris = get_tris_set(&parts[0]);
    let part1_tris = get_tris_set(&parts[1]);

    // One part should match angle0, the other angle1
    if part0_tris == angle0_tris {
        assert_eq!(&part1_tris, &angle1_tris);
    } else if part0_tris == angle1_tris {
        assert_eq!(&part1_tris, &angle0_tris);
    } else {
        panic!("Neither part matches original angles");
    }
}

#[test]
fn test_stress() {
    // Create many triangles from points on a cylinder-like shape.

    // Generate some points on a circle
    let mut points: Vec<[f32; 3]> = Vec::new();
    let num_points = 8;
    for i in 0..num_points {
        let angle = 2.0 * std::f32::consts::PI * i as f32 / num_points as f32;
        points.push([angle.cos(), angle.sin(), 0.0]);
        points.push([angle.cos(), angle.sin(), 1.0]);
    }

    // Create all possible triangles from these points
    let mut geo_points: Vec<[f32; 3]> = Vec::new();
    for i in 0..points.len() {
        for j in 0..points.len() {
            if i == j {
                continue;
            }
            for k in 0..points.len() {
                if i == k || j == k {
                    continue;
                }
                geo_points.push(points[i]);
                geo_points.push(points[j]);
                geo_points.push(points[k]);
            }
        }
    }

    // Convert to a flat array
    let mut pos: Vec<f32> = Vec::with_capacity(geo_points.len() * 3);
    for v in geo_points {
        pos.push(v[0]);
        pos.push(v[1]);
        pos.push(v[2]);
    }

    let num_geo_tris = pos.len() / 9;

    // Check that we don't hang and have some basic sanity checks
    let input = bits_of(&pos);
    let parts = split_disjoint_geometry(&input);
    assert!(parts.len() > 1);
    assert!(parts.len() < num_geo_tris);

    // Verify all triangles are accounted for
    let original_tris = get_tris_set(&input);
    let mut reassembled_tris = HashSet::new();
    for part in &parts {
        reassembled_tris.extend(get_tris_set(part));
    }
    assert_eq!(&reassembled_tris, &original_tris);
}
