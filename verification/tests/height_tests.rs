use poot_server::chunk::{CHUNK_SIZE, HEIGHTMAP_CHUNK_SIZE};
use poot_server::height::HeightStore;

fn generate_test_data(size: usize) -> Vec<f32> {
    (0..size).map(|i| i as f32).collect()
}

// generate chunks with 0-15 reapeating
fn generate_test_data_identical_chunks() -> Vec<f32> {
    let mut data = Vec::new();
    let mut c = 0;
    for _ in 0..(HEIGHTMAP_CHUNK_SIZE * HEIGHTMAP_CHUNK_SIZE) {
        data.push(c as f32);
        c += 1;
        if c >= CHUNK_SIZE {
            c = 0;
        }
    }
    data
}

#[test]
fn test_insert_chunks() {
    let mut store = HeightStore::new();
    let data = generate_test_data((HEIGHTMAP_CHUNK_SIZE * HEIGHTMAP_CHUNK_SIZE) as usize);

    store.insert_chunks(0, 0, 0, data.clone());

    assert_eq!(store.chunk_count(), 4096);
    assert!(
        store.get_chunk(0, 0, 0).is_some(),
        "expected a chunk to exist"
    );
    assert!(
        store.get_chunk(0, 63, 0).is_some(),
        "expected a chunk to exist"
    );
    assert!(
        store.get_chunk(63, 0, 0).is_some(),
        "expected a chunk to exist"
    );
    assert!(
        store.get_chunk(63, 63, 0).is_some(),
        "expected a chunk to exist"
    );
    assert!(
        store.get_chunk(0, 64, 0).is_none(),
        "expected a chunk to exist"
    );
    assert!(
        store.get_chunk(64, 0, 0).is_none(),
        "expected a chunk to exist"
    );
    assert!(
        store.get_chunk(64, 64, 0).is_none(),
        "expected a chunk to exist"
    );
}

#[test]
fn test_get_chunk_non_existent() {
    let store = HeightStore::<f32>::new();

    // Attempt to get a chunk that doesn't exist
    assert_eq!(store.get_chunk(0, 0, 0), None);
}

#[test]
fn test_chunks_to_generate() {
    let mut store = HeightStore::new();
    let data = generate_test_data((HEIGHTMAP_CHUNK_SIZE * HEIGHTMAP_CHUNK_SIZE) as usize);

    let chunks_to_generate = store.chunks_to_generate(0, 0, 0);
    assert_eq!(chunks_to_generate.len(), 9, "expected 5 chunks to generate");
    store.insert_chunks(0, 0, 0, data);

    // After inserting, these chunks should be generated
    let chunks_to_generate = store.chunks_to_generate(0, 0, 0);
    assert_eq!(chunks_to_generate.len(), 8, "expected 5 chunks to generate");

    // If we check a position outside the generated chunks, it should indicate that chunks need to be generated
    let chunks_to_generate = store.chunks_to_generate(
        HEIGHTMAP_CHUNK_SIZE as i32 * 4,
        HEIGHTMAP_CHUNK_SIZE as i32,
        0,
    );
    assert_eq!(chunks_to_generate.len(), 9); // Expecting 9 sections around the point (one ahead, one behind)
}

#[test]
fn test_chunks_to_generate_with_negative_coords() {
    let mut store = HeightStore::new();
    let data = generate_test_data((HEIGHTMAP_CHUNK_SIZE * HEIGHTMAP_CHUNK_SIZE) as usize);

    // Test with negative coordinates
    let chunks_to_generate = store.chunks_to_generate(
        -HEIGHTMAP_CHUNK_SIZE as i32,
        -HEIGHTMAP_CHUNK_SIZE as i32,
        0,
    );
    assert_eq!(chunks_to_generate.len(), 9);

    store.insert_chunks(-HEIGHTMAP_CHUNK_SIZE, -HEIGHTMAP_CHUNK_SIZE, 0, data);

    let chunks_to_generate_2 = store.chunks_to_generate(
        -(HEIGHTMAP_CHUNK_SIZE * 2) as i32,
        -HEIGHTMAP_CHUNK_SIZE as i32,
        0,
    );
    assert_eq!(chunks_to_generate_2.len(), 8);

    for [x, y, _seed] in chunks_to_generate_2 {
        assert_ne!(
            x == -64 && y == -64,
            true,
            "we should not have the -64,-64 coord"
        );
    }
}

#[test]
fn test_insert_chunks_with_negative_coords() {
    let mut store = HeightStore::new();
    let data = generate_test_data((HEIGHTMAP_CHUNK_SIZE * HEIGHTMAP_CHUNK_SIZE) as usize);

    // Insert chunks with negative coordinates
    store.insert_chunks(
        -HEIGHTMAP_CHUNK_SIZE as i32,
        -HEIGHTMAP_CHUNK_SIZE as i32,
        0,
        data.clone(),
    );

    assert_eq!(store.chunk_count(), 4096);
    assert!(
        store.get_chunk(-64, -64, 0).is_some(),
        "expected a chunk to exist"
    );
    assert!(
        store.get_chunk(-64, -1, 0).is_some(),
        "expected a chunk to exist"
    );
    assert!(
        store.get_chunk(-1, -64, 0).is_some(),
        "expected a chunk to exist"
    );
    assert!(
        store.get_chunk(-1, -1, 0).is_some(),
        "expected a chunk to exist"
    );
    assert!(
        store.get_chunk(-64, 0, 0).is_none(),
        "expected a chunk to exist"
    );
    assert!(
        store.get_chunk(0, -64, 0).is_none(),
        "expected a chunk to exist"
    );
    assert!(
        store.get_chunk(0, 0, 0).is_none(),
        "expected a chunk to exist"
    );
}

#[test]
fn test_chunks_to_generate_after_full_insert() {
    let mut store = HeightStore::new();
    let data = generate_test_data((HEIGHTMAP_CHUNK_SIZE * HEIGHTMAP_CHUNK_SIZE) as usize);

    // Test with negative coordinates
    let chunks_to_generate = store.chunks_to_generate(0 as i32, 0 as i32, 0);
    assert_eq!(chunks_to_generate.len(), 9);

    for [x, y, seed] in chunks_to_generate {
        store.insert_chunks(x * CHUNK_SIZE, y * CHUNK_SIZE, seed, data.clone())
    }

    let chunks_to_generate = store.chunks_to_generate(0 as i32, 0 as i32, 0);
    assert_eq!(chunks_to_generate.len(), 0);
}

#[test]
fn test_inserted_chunks_specific_values() {
    let mut store = HeightStore::new();
    let data = generate_test_data_identical_chunks();

    store.insert_chunks(0, 0, 0, data.clone());

    assert_eq!(store.chunk_count(), 4096);
    for x in 0..64 {
        for y in 0..64 {
            let chunk = store.get_chunk(x, y, 0).unwrap_or_default();
            for b in 0..16 {
                assert_eq!(chunk[b], b as f32, "expected block height was wrong");
            }
        }
    }

    store.insert_chunks(
        -HEIGHTMAP_CHUNK_SIZE,
        -HEIGHTMAP_CHUNK_SIZE,
        0,
        data.clone(),
    );

    for x in -64..0 {
        for y in -64..0 {
            let chunk = store.get_chunk(x, y, 0).unwrap_or_default();
            for b in 0..16 {
                assert_eq!(chunk[b], b as f32, "expected block height was wrong");
            }
        }
    }
}

#[test]
fn test_reingest_overwrites() {
    let mut store = HeightStore::new();
    let data = generate_test_data((HEIGHTMAP_CHUNK_SIZE * HEIGHTMAP_CHUNK_SIZE) as usize);

    store.insert_chunks(0, 0, 7, data.clone());
    let first = store.get_chunk(5, 9, 7).expect("chunk should exist");
    assert_eq!(first.len(), 256);

    // Ingesting the same section again must leave contents equal, not doubled
    store.insert_chunks(0, 0, 7, data.clone());
    let second = store.get_chunk(5, 9, 7).expect("chunk should exist");
    assert_eq!(second.len(), 256);
    assert_eq!(first, second);
    assert_eq!(store.chunk_count(), 4096);
}

#[test]
fn test_chunk_split_exact_values() {
    let mut store = HeightStore::new();
    let data = generate_test_data((HEIGHTMAP_CHUNK_SIZE * HEIGHTMAP_CHUNK_SIZE) as usize);

    store.insert_chunks(0, 0, 0, data);

    // Sample (lx, ly) of the grid holds ly*1024 + lx; chunk (j, i) reads the
    // window at (j*16, i*16). Its sample b is (i*16 + b/16)*1024 + j*16 + b%16.
    let chunk = store.get_chunk(3, 5, 0).expect("chunk should exist");
    assert_eq!(chunk.len(), 256);
    assert_eq!(chunk[0], (5.0 * 16.0) * 1024.0 + 3.0 * 16.0);
    assert_eq!(chunk[15], (5.0 * 16.0) * 1024.0 + 3.0 * 16.0 + 15.0);
    assert_eq!(chunk[16], (5.0 * 16.0 + 1.0) * 1024.0 + 3.0 * 16.0);
    assert_eq!(chunk[255], (5.0 * 16.0 + 15.0) * 1024.0 + 3.0 * 16.0 + 15.0);
}

#[test]
fn test_chunks_to_generate_fresh_seed() {
    let mut store = HeightStore::new();
    let data = generate_test_data((HEIGHTMAP_CHUNK_SIZE * HEIGHTMAP_CHUNK_SIZE) as usize);

    store.insert_chunks(0, 0, 0, data);
    // A seed never ingested sees all 9 sections missing, whatever is cached
    // for other seeds
    assert_eq!(store.chunks_to_generate(0, 0, 1).len(), 9);
    assert_eq!(store.chunks_to_generate(500, -500, 1).len(), 9);
}

#[test]
fn test_chunk_count_empty() {
    let store = HeightStore::<f32>::new();
    assert_eq!(store.chunk_count(), 0);
}

#[test]
fn test_chunks_to_generate_reported_origins() {
    let store = HeightStore::<f32>::new();
    let reported = store.chunks_to_generate(0, 0, 3);
    assert_eq!(reported.len(), 9);
    // Scan order: x offset outermost, -1..=1 on both axes, origins in
    // chunk space (64 chunks per section side)
    let expected = [
        [-64, -64, 3],
        [-64, 0, 3],
        [-64, 64, 3],
        [0, -64, 3],
        [0, 0, 3],
        [0, 64, 3],
        [64, -64, 3],
        [64, 0, 3],
        [64, 64, 3],
    ];
    for (got, want) in reported.iter().zip(expected.iter()) {
        assert_eq!(got, want);
    }
}
