use poot_server::chunk::{
    chunk_space_to_world_space_2d, world_space_to_chunk_space_2d, world_space_to_heightmap_space_2d,
};

#[test]
fn test_world_space_to_chunk_space_2d() {
    let (x, y) = world_space_to_chunk_space_2d(0, 0);
    assert_eq!(x, 0);
    assert_eq!(y, 0);
    let (x, y) = world_space_to_chunk_space_2d(15, 15);
    assert_eq!(x, 0);
    assert_eq!(y, 0);
    let (x, y) = world_space_to_chunk_space_2d(16, 16);
    assert_eq!(x, 1);
    assert_eq!(y, 1);
    let (x, y) = world_space_to_chunk_space_2d(-1, -1);
    assert_eq!(x, -1);
    assert_eq!(y, -1);
    let (x, y) = world_space_to_chunk_space_2d(-16, -16);
    assert_eq!(x, -1);
    assert_eq!(y, -1);
    let (x, y) = world_space_to_chunk_space_2d(-17, -17);
    assert_eq!(x, -2);
    assert_eq!(y, -2);
}

#[test]
fn test_world_space_to_heightmap_space_2d() {
    let (x, y) = world_space_to_heightmap_space_2d(0, 0);
    assert_eq!(x, 0);
    assert_eq!(y, 0);
    let (x, y) = world_space_to_heightmap_space_2d(1023, 1023);
    assert_eq!(x, 0);
    assert_eq!(y, 0);
    let (x, y) = world_space_to_heightmap_space_2d(1024, 1024);
    assert_eq!(x, 1);
    assert_eq!(y, 1);
    let (x, y) = world_space_to_heightmap_space_2d(-1, -1);
    assert_eq!(x, -1);
    assert_eq!(y, -1);
    let (x, y) = world_space_to_heightmap_space_2d(-1024, -1024);
    assert_eq!(x, -1);
    assert_eq!(y, -1);
    let (x, y) = world_space_to_heightmap_space_2d(-1025, -1025);
    assert_eq!(x, -2);
    assert_eq!(y, -2);
}

#[test]
fn test_chunk_space_to_world_space_2d() {
    assert_eq!(chunk_space_to_world_space_2d(0, 0), (0, 0));
    assert_eq!(chunk_space_to_world_space_2d(1, 1), (16, 16));
    assert_eq!(chunk_space_to_world_space_2d(-1, -1), (-16, -16));
    assert_eq!(chunk_space_to_world_space_2d(-2, -2), (-32, -32));
}

#[test]
fn test_round_trip_on_aligned_coordinates() {
    for c in [-3i32, -2, -1, 0, 1, 2, 5] {
        let (wx, wy) = chunk_space_to_world_space_2d(c, c);
        assert_eq!(world_space_to_chunk_space_2d(wx, wy), (c, c));
    }
}
