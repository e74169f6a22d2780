use geosplit::vector3::Vector3;

fn b(x: f32) -> u32 {
    x.to_bits()
}

fn vec3(x: f32, y: f32, z: f32) -> Vector3 {
    Vector3::new(b(x), b(y), b(z))
}

fn len_f32(v: Vector3) -> f32 {
    f32::from_bits(v.length())
}

#[test]
fn test_vector3_add() {
    let v1 = vec3(1.0, 2.0, 3.0);
    let v2 = vec3(4.0, 5.0, 6.0);
    let result = v1.add(v2);
    assert_eq!(result, vec3(5.0, 7.0, 9.0));
}

#[test]
fn test_vector3_sub() {
    let v1 = vec3(5.0, 7.0, 9.0);
    let v2 = vec3(1.0, 2.0, 3.0);
    let result = v1.sub(v2);
    assert_eq!(result, vec3(4.0, 5.0, 6.0));
}

#[test]
fn test_vector3_add_sub_chain() {
    let v1 = vec3(1.0, 2.0, 3.0);
    let v2 = vec3(4.0, 5.0, 6.0);
    let v3 = vec3(7.0, 8.0, 9.0);

    let result = v1.add(v2).sub(v3);
    assert_eq!(result, vec3(-2.0, -1.0, 0.0));
}

#[test]
fn test_vector3_dot() {
    let v1 = vec3(1.0, 2.0, 3.0);
    let v2 = vec3(4.0, 5.0, 6.0);
    let result = v1.dot(v2);
    assert_eq!(f32::from_bits(result), 32.0);

    // Orthogonal vectors
    let v3 = vec3(1.0, 0.0, 0.0);
    let v4 = vec3(0.0, 1.0, 0.0);
    assert_eq!(f32::from_bits(v3.dot(v4)), 0.0);

    // Same vector
    assert_eq!(f32::from_bits(v3.dot(v3)), 1.0);
}

#[test]
fn test_vector3_cross() {
    // Standard basis vectors
    let i = vec3(1.0, 0.0, 0.0);
    let j = vec3(0.0, 1.0, 0.0);
    let k = vec3(0.0, 0.0, 1.0);

    assert_eq!(i.cross(j), k);
    assert_eq!(j.cross(k), i);
    assert_eq!(k.cross(i), j);

    // Arbitrary vectors
    let v1 = vec3(1.0, 2.0, 3.0);
    let v2 = vec3(4.0, 5.0, 6.0);
    assert_eq!(v1.cross(v2), vec3(-3.0, 6.0, -3.0));

    // Cross product with itself should be the zero vector
    assert_eq!(v1.cross(v1), vec3(0.0, 0.0, 0.0));
}

#[test]
fn test_vector3_length() {
    assert_eq!(len_f32(vec3(0.0, 0.0, 0.0)), 0.0);
    assert_eq!(len_f32(vec3(3.0, 4.0, 0.0)), 5.0);
    assert_eq!(len_f32(vec3(1.0, 2.0, 2.0)), 3.0);
    assert_eq!(len_f32(vec3(-3.0, -4.0, 0.0)), 5.0);
}
