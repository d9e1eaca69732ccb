use poot_server::cave::cave_chunk_sample_points;

#[test]
fn test_cave_sample_points_order() {
    let points = cave_chunk_sample_points(1, 2, 3);
    assert_eq!(points.len(), 4096);
    // z varies fastest, x slowest
    assert_eq!(points[0], [16, 32, 48]);
    assert_eq!(points[1], [16, 32, 49]);
    assert_eq!(points[15], [16, 32, 63]);
    assert_eq!(points[16], [16, 33, 48]);
    assert_eq!(points[256], [17, 32, 48]);
    assert_eq!(points[4095], [31, 47, 63]);
}

#[test]
fn test_cave_sample_points_negative_chunk() {
    let points = cave_chunk_sample_points(-1, -1, -1);
    assert_eq!(points.len(), 4096);
    assert_eq!(points[0], [-16, -16, -16]);
    assert_eq!(points[4095], [-1, -1, -1]);
}

#[test]
fn test_cave_sample_points_cover_cube() {
    let points = cave_chunk_sample_points(0, 0, 0);
    let mut seen = vec![false; 4096];
    for p in points.iter() {
        assert!(0 <= p[0] && p[0] < 16);
        assert!(0 <= p[1] && p[1] < 16);
        assert!(0 <= p[2] && p[2] < 16);
        let flat = (p[0] * 256 + p[1] * 16 + p[2]) as usize;
        assert!(!seen[flat], "sample point repeated");
        seen[flat] = true;
    }
}
