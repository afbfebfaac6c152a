use process_stereo_image_csvs::stereo::{convert_records_to_array, Record, StereoPixel, HEIGHT, WIDTH};

#[test]
fn default_pixel_is_zero() {
    let p = StereoPixel::default();
    assert_eq!(p, StereoPixel { pixel_x: 0, pixel_y: 0, x: 0, y: 0, z: 0, r: 0, g: 0, b: 0 });
    assert_eq!(f32::from_bits(p.z), 0.0);
}

#[test]
fn records_land_at_row_major_index() {
    let z = 1500.0f32.to_bits();
    let records: Vec<Record> = vec![(3, 2, 1, 2, z, 10, 20, 30), (2207, 1241, 0, 0, 0, 1, 1, 1)];
    let arr = convert_records_to_array(&records);
    assert_eq!(arr.len(), WIDTH * HEIGHT + 1);
    let p = arr[WIDTH * 2 + 3];
    assert_eq!((p.pixel_x, p.pixel_y, p.r, p.g, p.b), (3, 2, 10, 20, 30));
    assert_eq!(f32::from_bits(p.z), 1500.0);
    assert_eq!(arr[WIDTH * HEIGHT - 1].r, 1);
    assert_eq!(arr[0], StereoPixel::default());
    assert_eq!(arr[WIDTH * HEIGHT], StereoPixel::default());
}

#[test]
fn last_record_for_a_pixel_wins() {
    let records: Vec<Record> = vec![(5, 0, 0, 0, 0, 1, 1, 1), (5, 0, 0, 0, 0, 2, 2, 2), (6, 0, 0, 0, 0, 3, 3, 3)];
    let arr = convert_records_to_array(&records);
    assert_eq!(arr[5].r, 2);
    assert_eq!(arr[6].r, 3);
    assert_eq!(arr[7], StereoPixel::default());
}

#[test]
fn column_past_the_row_spills_into_the_next_row() {
    // column WIDTH of row 0 is the same cell as column 0 of row 1
    let records: Vec<Record> = vec![(WIDTH as u32, 0, 0, 0, 0, 9, 9, 9)];
    let arr = convert_records_to_array(&records);
    assert_eq!(arr[WIDTH].r, 9);
    // the spare cell after the last row is reachable too
    let records: Vec<Record> = vec![(0, HEIGHT as u32, 0, 0, 0, 4, 4, 4)];
    let arr = convert_records_to_array(&records);
    assert_eq!(arr[WIDTH * HEIGHT].r, 4);
}
