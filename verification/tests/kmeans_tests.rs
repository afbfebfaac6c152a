use process_stereo_image_csvs::clustering::{CPixel, Cluster};
use process_stereo_image_csvs::kmeans::{
    assign_pixels_by_colour, count_assigned_to, count_cluster_members, reset_empty_clusters, select_target_cluster,
    update_clusters, KmeansState, INITIAL_CVAL, MAX_ITERATIONS,
};

fn cl(x: u32, y: u32, r: u8, g: u8, b: u8) -> Cluster {
    Cluster { x, y, r, g, b }
}

fn pt(x: u32, y: u32, rgb: (u8, u8, u8), k: usize) -> CPixel {
    CPixel::new(x, y, rgb, (0, 0, 0), k)
}

#[test]
fn update_moves_clusters_to_member_means() {
    let clusters = vec![cl(0, 0, 0, 0, 0), cl(9, 9, 9, 9, 9)];
    let pixels = vec![
        pt(10, 100, (10, 20, 30), 0),
        pt(20, 200, (30, 40, 50), 0),
        pt(7, 70, (255, 255, 255), 1),
    ];
    let moved = update_clusters(&clusters, &pixels).unwrap();
    assert_eq!(moved[0], cl(15, 150, 20, 30, 40));
    assert_eq!(moved[1], cl(7, 70, 255, 255, 255));
}

#[test]
fn update_of_empty_cluster_goes_to_origin() {
    let clusters = vec![cl(5, 5, 5, 5, 5), cl(6, 6, 6, 6, 6)];
    let pixels = vec![pt(3, 3, (3, 3, 3), 0)];
    let moved = update_clusters(&clusters, &pixels).unwrap();
    assert_eq!(moved[0], cl(3, 3, 3, 3, 3));
    assert_eq!(moved[1], cl(0, 0, 0, 0, 0));
}

#[test]
fn update_counts_members_of_equal_clusters_together() {
    // clusters 0 and 1 are equal, so cluster 0's centroid takes the pixels of
    // both; afterwards cluster 1 no longer equals cluster 0 and takes its own.
    let clusters = vec![cl(1, 1, 1, 1, 1), cl(1, 1, 1, 1, 1)];
    let pixels = vec![pt(10, 0, (10, 10, 10), 0), pt(30, 0, (30, 30, 30), 1)];
    let moved = update_clusters(&clusters, &pixels).unwrap();
    assert_eq!(moved[0], cl(20, 0, 20, 20, 20));
    assert_eq!(moved[1], cl(30, 0, 30, 30, 30));
}

#[test]
fn update_reports_overflow() {
    let clusters = vec![cl(0, 0, 0, 0, 0)];
    let pixels = vec![pt(u32::MAX, 0, (1, 1, 1), 0), pt(1, 0, (1, 1, 1), 0)];
    assert!(update_clusters(&clusters, &pixels).is_none());
    let fine = vec![pt(u32::MAX - 1, 0, (1, 1, 1), 0), pt(1, 0, (1, 1, 1), 0)];
    assert_eq!(update_clusters(&clusters, &fine).unwrap()[0].x, u32::MAX / 2);
}

#[test]
fn counts_per_cluster_index() {
    let pixels = vec![pt(0, 0, (0, 0, 0), 0), pt(0, 0, (0, 0, 0), 2), pt(0, 0, (0, 0, 0), 2)];
    assert_eq!(count_cluster_members(&pixels, 3).unwrap(), vec![1, 0, 2]);
    assert_eq!(count_cluster_members(&pixels, 1).unwrap(), vec![1]);
    assert_eq!(count_cluster_members(&pixels, 0).unwrap(), Vec::<u32>::new());
}

#[test]
fn reset_only_when_a_cluster_is_empty() {
    let mut clusters = vec![cl(1, 2, 3, 4, 5), cl(6, 7, 8, 9, 10)];
    let mut iteration = 4;
    reset_empty_clusters(&mut clusters, &vec![3, 1], &mut iteration, 2, 100, 50);
    assert_eq!(iteration, 4);
    assert_eq!(clusters, vec![cl(1, 2, 3, 4, 5), cl(6, 7, 8, 9, 10)]);

    reset_empty_clusters(&mut clusters, &vec![3, 0], &mut iteration, 2, 100, 50);
    assert_eq!(iteration, 0);
    assert_eq!(clusters.len(), 2);
    for c in &clusters {
        assert!(c.x < 100 && c.y < 50);
        assert!((50..200).contains(&c.r) && (50..200).contains(&c.g) && (50..200).contains(&c.b));
    }
}

#[test]
fn target_is_first_least_red() {
    let clusters = vec![cl(0, 0, 90, 0, 0), cl(0, 0, 30, 0, 0), cl(0, 0, 30, 0, 0), cl(0, 0, 40, 0, 0)];
    assert_eq!(select_target_cluster(&clusters), 1);
    assert_eq!(select_target_cluster(&vec![]), 0);
    assert_eq!(select_target_cluster(&vec![cl(0, 0, 0, 255, 255)]), 0);
}

#[test]
fn state_starts_random_and_continues() {
    let st = KmeansState::new(3, 2208, 1242);
    assert_eq!(st.clusters.len(), 3);
    assert_eq!(st.iteration, 0);
    assert_eq!(st.cval, INITIAL_CVAL);
    assert!(st.should_continue());
    assert_eq!(MAX_ITERATIONS, 10);
}

#[test]
fn state_iteration_converges_on_a_fixed_point() {
    let mut st = KmeansState::new(2, 10, 10);
    st.clusters = vec![cl(0, 0, 10, 10, 10), cl(3, 3, 200, 200, 200)];
    let pixels = vec![
        pt(0, 0, (10, 10, 10), 0),
        pt(0, 0, (10, 10, 10), 0),
        pt(3, 3, (200, 200, 200), 1),
    ];
    assert!(st.end_iteration(&pixels));
    assert_eq!(st.clusters, vec![cl(0, 0, 10, 10, 10), cl(3, 3, 200, 200, 200)]);
    assert_eq!(st.cval, 0);
    assert_eq!(st.iteration, 1);
    assert_eq!(st.final_counts, vec![2, 1]);
    assert!(!st.should_continue());
}

#[test]
fn state_iteration_measures_colour_movement() {
    let mut st = KmeansState::new(1, 10, 10);
    st.clusters = vec![cl(0, 0, 0, 0, 0)];
    let pixels = vec![pt(4, 4, (10, 20, 30), 0)];
    assert!(st.end_iteration(&pixels));
    assert_eq!(st.clusters, vec![cl(4, 4, 10, 20, 30)]);
    assert_eq!(st.cval, 60);
    assert!(st.should_continue());
}

#[test]
fn state_restarts_when_a_cluster_empties() {
    let mut st = KmeansState::new(2, 10, 10);
    st.iteration = 5;
    let pixels = vec![pt(4, 4, (10, 20, 30), 0)];
    assert!(st.end_iteration(&pixels));
    assert_eq!(st.iteration, 0);
    assert_eq!(st.final_counts, vec![1, 0]);
    assert!(st.clusters.iter().all(|c| c.x < 10 && c.y < 10 && c.r >= 50 && c.r < 200));
}

#[test]
fn state_reports_overflow() {
    let mut st = KmeansState::new(1, 10, 10);
    let pixels = vec![pt(u32::MAX, 0, (0, 0, 0), 0), pt(u32::MAX, 0, (0, 0, 0), 0)];
    assert!(!st.end_iteration(&pixels));
}

#[test]
fn assignment_moves_to_strictly_closer_colour() {
    let clusters = vec![cl(0, 0, 0, 0, 0), cl(500, 500, 100, 100, 100), cl(9, 9, 100, 100, 100)];
    let mut pixels = vec![
        pt(1, 1, (90, 90, 90), 0),
        pt(2, 2, (1, 1, 1), 1),
        pt(3, 3, (50, 50, 50), 0),
    ];
    assign_pixels_by_colour(&mut pixels, &clusters);
    // position plays no part: the first of the two equally coloured clusters
    assert_eq!(pixels[0].assigned_cluster, 1);
    assert_eq!(pixels[1].assigned_cluster, 0);
    // a tie keeps the cluster held
    assert_eq!(pixels[2].assigned_cluster, 0);
    assert_eq!((pixels[0].x, pixels[0].y, pixels[0].rgb), (1, 1, (90, 90, 90)));
}

#[test]
fn assignment_keeps_first_of_equal_clusters() {
    let clusters = vec![cl(0, 0, 200, 0, 0), cl(1, 1, 10, 10, 10), cl(1, 1, 10, 10, 10)];
    let mut pixels = vec![pt(0, 0, (10, 10, 10), 0)];
    assign_pixels_by_colour(&mut pixels, &clusters);
    assert_eq!(pixels[0].assigned_cluster, 1);
}

#[test]
fn update_reports_overflow_of_y() {
    let clusters = vec![cl(0, 0, 0, 0, 0)];
    let pixels = vec![pt(0, u32::MAX, (1, 1, 1), 0), pt(0, 1, (1, 1, 1), 0)];
    assert!(update_clusters(&clusters, &pixels).is_none());
}

#[test]
fn members_of_a_cluster_index_are_counted() {
    let pixels = vec![pt(0, 0, (0, 0, 0), 2), pt(0, 0, (0, 0, 0), 1), pt(0, 0, (0, 0, 0), 2)];
    assert_eq!(count_assigned_to(&pixels, 2), 2);
    assert_eq!(count_assigned_to(&pixels, 1), 1);
    assert_eq!(count_assigned_to(&pixels, 0), 0);
}
