use poot_server::flat_vec_3d::{get_3d_index, get_3d_value, insert_3d_value};

#[test]
fn test_get_3d_index() {
    assert_eq!(get_3d_index(0, 0, 0, 10, 10), 0);
    assert_eq!(get_3d_index(1, 0, 0, 10, 10), 1);
    assert_eq!(get_3d_index(0, 1, 0, 10, 10), 10);
    assert_eq!(get_3d_index(0, 0, 1, 10, 10), 100);
    assert_eq!(get_3d_index(5, 3, 2, 10, 10), 235);
}

#[test]
fn test_get_3d_value() {
    let width = 10;
    let height = 10;
    let depth = 10;
    let mut data = vec![0.0; width * height * depth];
    data[235] = 7.7;

    assert_eq!(get_3d_value(&data, 5, 3, 2, width, height), Some(7.7));
    assert_eq!(get_3d_value(&data, 0, 0, 0, width, height), Some(0.0));
    assert_eq!(get_3d_value(&data, 9, 9, 9, width, height), Some(0.0));
    assert_eq!(get_3d_value(&data, 10, 10, 10, width, height), None); // Out of bounds
}

#[test]
fn test_insert_3d_value() {
    let width = 10;
    let height = 10;
    let depth = 10;
    let mut data = vec![0.0; width * height * depth];

    assert!(insert_3d_value(&mut data, 5, 3, 2, width, height, 7.7).is_ok());
    assert_eq!(data[235], 7.7);

    assert!(insert_3d_value(&mut data, 10, 10, 10, width, height, 3.3).is_err());
    // Out of bounds
}

#[test]
fn test_generic_get_3d_value() {
    let width = 10;
    let height = 10;
    let depth = 10;

    let mut data_f64 = vec![0.0f64; width * height * depth];
    let mut data_f32 = vec![0.0f32; width * height * depth];
    let mut data_i32 = vec![0i32; width * height * depth];

    insert_3d_value(&mut data_f64, 2, 3, 4, width, height, 7.7f64).unwrap();
    insert_3d_value(&mut data_f32, 2, 3, 4, width, height, 7.7f32).unwrap();
    insert_3d_value(&mut data_i32, 2, 3, 4, width, height, 77i32).unwrap();

    assert_eq!(
        get_3d_value(&data_f64, 2, 3, 4, width, height),
        Some(7.7f64)
    );
    assert_eq!(
        get_3d_value(&data_f32, 2, 3, 4, width, height),
        Some(7.7f32)
    );
    assert_eq!(get_3d_value(&data_i32, 2, 3, 4, width, height), Some(77i32));
}

#[test]
fn test_insert_then_get_out_of_range_z() {
    let mut data = vec![0u32; 8];
    // width 2, height 2: index of (1, 1, 1) is 1 + 2 + 4 = 7, the last cell
    assert!(insert_3d_value(&mut data, 1, 1, 1, 2, 2, 9).is_ok());
    assert_eq!(get_3d_value(&data, 1, 1, 1, 2, 2), Some(9));
    // (0, 0, 2) has index 8, one past the end
    assert_eq!(get_3d_value(&data, 0, 0, 2, 2, 2), None);
    assert!(insert_3d_value(&mut data, 0, 0, 2, 2, 2, 9).is_err());
    assert_eq!(data, vec![0, 0, 0, 0, 0, 0, 0, 9]);
}
