use process_stereo_image_csvs::clustering::{
    build_kmeans_pixel_list_from_stero_record, build_random_clusters, channel_total_fits,
    check_cluster_sum_diff,
    cluster_position, color_distance_squared, CPixel, Cluster,
};
use process_stereo_image_csvs::stereo::{StereoPixel, HEIGHT, WIDTH};

fn cl(x: u32, y: u32, r: u8, g: u8, b: u8) -> Cluster {
    Cluster { x, y, r, g, b }
}

fn px(rgb: (u8, u8, u8)) -> CPixel {
    CPixel::new(0, 0, rgb, (0, 0, 0), 0)
}

#[test]
fn sum_diff_is_absolute_channel_difference() {
    let a = vec![cl(0, 0, 10, 20, 30), cl(5, 5, 1, 1, 1)];
    let b = vec![cl(9, 9, 100, 0, 0), cl(0, 0, 0, 0, 0)];
    // a sums to 63, b to 100
    assert_eq!(check_cluster_sum_diff(a.clone(), b.clone()), 37);
    assert_eq!(check_cluster_sum_diff(b, a.clone()), 37);
    assert_eq!(check_cluster_sum_diff(a.clone(), a), 0);
    assert_eq!(check_cluster_sum_diff(vec![], vec![]), 0);
}

#[test]
fn sum_diff_ignores_positions() {
    let a = vec![cl(0, 0, 255, 255, 255)];
    let b = vec![cl(2000, 1000, 255, 255, 255)];
    assert_eq!(check_cluster_sum_diff(a, b), 0);
}

#[test]
fn random_clusters_stay_in_their_ranges() {
    let clusters = build_random_clusters(50, 2208, 1242);
    assert_eq!(clusters.len(), 50);
    for c in &clusters {
        assert!(c.x < 2208 && c.y < 1242);
        assert!((50..200).contains(&c.r));
        assert!((50..200).contains(&c.g));
        assert!((50..200).contains(&c.b));
    }
    // the draws are not stuck at the low end of their ranges
    assert!(clusters.iter().any(|c| c.x != 0 && c.y != 0 && c.r != 50));
    assert!(build_random_clusters(0, 0, 0).is_empty());
    let tiny = build_random_clusters(3, 1, 1);
    assert!(tiny.iter().all(|c| c.x == 0 && c.y == 0));
}

#[test]
fn color_distance_weights_depend_on_mean_red() {
    // mean red below 128: weights 2, 4, 3
    assert_eq!(color_distance_squared(px((0, 0, 0)), px((1, 2, 3))), 2 + 16 + 27);
    // mean red 128 or more: weights 3, 4, 2
    assert_eq!(color_distance_squared(px((200, 0, 0)), px((201, 2, 3))), 3 + 16 + 18);
    // (0 + 255) / 2 is below 128
    assert_eq!(color_distance_squared(px((0, 0, 0)), px((255, 255, 255))), 9 * 65025);
    assert_eq!(color_distance_squared(px((7, 8, 9)), px((7, 8, 9))), 0);
    // (127 + 129) / 2 = 128: weight 3 on red, in both directions
    assert_eq!(color_distance_squared(px((127, 0, 0)), px((129, 0, 0))), 12);
    assert_eq!(color_distance_squared(px((129, 0, 0)), px((127, 0, 0))), 12);
    // (127 + 128) / 2 is below 128: weight 2
    assert_eq!(color_distance_squared(px((127, 0, 0)), px((128, 0, 0))), 2);
    assert_eq!(color_distance_squared(px((128, 0, 0)), px((127, 0, 0))), 2);
}

#[test]
fn cluster_position_finds_first_equal() {
    let clusters = vec![cl(1, 1, 1, 1, 1), cl(2, 2, 2, 2, 2), cl(1, 1, 1, 1, 1)];
    assert_eq!(cluster_position(&clusters, cl(1, 1, 1, 1, 1)), Some(0));
    assert_eq!(cluster_position(&clusters, cl(2, 2, 2, 2, 2)), Some(1));
    assert_eq!(cluster_position(&clusters, cl(2, 2, 2, 2, 3)), None);
    assert_eq!(cluster_position(&vec![], cl(0, 0, 0, 0, 0)), None);
}

fn stereo(r: u8, g: u8, b: u8, k: usize) -> StereoPixel {
    StereoPixel {
        pixel_x: (k % WIDTH) as u32,
        pixel_y: (k / WIDTH) as u32,
        x: 1,
        y: 2,
        z: 3,
        r,
        g,
        b,
    }
}

#[test]
fn pixel_list_assigns_nearest_colour() {
    let n = WIDTH * HEIGHT;
    let mut pixels: Vec<StereoPixel> = (0..n).map(|k| stereo(0, 0, 0, k)).collect();
    pixels[1] = stereo(200, 200, 200, 1);
    pixels[5] = stereo(10, 250, 10, 5);
    let clusters = vec![cl(0, 0, 100, 100, 100), cl(0, 0, 0, 0, 0), cl(0, 0, 210, 210, 210)];
    let (list, w, h) = build_kmeans_pixel_list_from_stero_record(&pixels, clusters);
    assert_eq!((w, h), (2208, 1242));
    assert_eq!(list.len(), n);
    assert_eq!(list[0].assigned_cluster, 1);
    assert_eq!(list[1].assigned_cluster, 2);
    assert_eq!(list[1].rgb, (200, 200, 200));
    assert_eq!((list[1].x, list[1].y), (1, 0));
    assert_eq!(list[1].xyz, (1, 2, 3));
    assert_eq!(list[n - 1].assigned_cluster, 1);
}

#[test]
fn pixel_list_compares_true_cluster_colours() {
    let n = WIDTH * HEIGHT;
    let mut pixels: Vec<StereoPixel> = (0..n).map(|k| stereo(0, 0, 0, k)).collect();
    // Pixel (0, 0, 200) is nearer to (0, 0, 0) (120000) than to (0, 200, 0)
    // (280000).
    pixels[0] = stereo(0, 0, 200, 0);
    let clusters = vec![cl(0, 0, 0, 0, 0), cl(0, 0, 0, 200, 0)];
    let (list, _, _) = build_kmeans_pixel_list_from_stero_record(&pixels, clusters);
    assert_eq!(list[0].rgb, (0, 0, 200));
    assert_eq!(list[0].assigned_cluster, 0);
    assert!(list.iter().all(|p| p.assigned_cluster == 0));
    // and a pixel (0, 180, 0) goes to (0, 200, 0)
    let mut pixels: Vec<StereoPixel> = (0..n).map(|k| stereo(0, 0, 0, k)).collect();
    pixels[3] = stereo(0, 180, 0, 3);
    let clusters = vec![cl(0, 0, 0, 0, 0), cl(0, 0, 0, 200, 0)];
    let (list, _, _) = build_kmeans_pixel_list_from_stero_record(&pixels, clusters);
    assert_eq!(list[3].assigned_cluster, 1);
    assert_eq!(list[0].assigned_cluster, 0);
}

#[test]
fn pixel_list_takes_first_of_equal_clusters() {
    let n = WIDTH * HEIGHT;
    let pixels: Vec<StereoPixel> = (0..n).map(|k| stereo(0, 0, 0, k)).collect();
    let clusters = vec![cl(0, 0, 90, 90, 90), cl(0, 0, 5, 5, 5), cl(0, 0, 5, 5, 5)];
    let (list, _, _) = build_kmeans_pixel_list_from_stero_record(&pixels, clusters);
    assert!(list.iter().all(|p| p.assigned_cluster == 1));
}

#[test]
fn channel_totals_of_small_lists_fit() {
    assert!(channel_total_fits(&vec![cl(0, 0, 255, 255, 255), cl(0, 0, 1, 2, 3)]));
    assert!(channel_total_fits(&vec![]));
}
