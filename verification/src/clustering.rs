use vstd::prelude::*;

use crate::random::{gen_range_u32, thread_rng};
use crate::stereo::{StereoPixel, HEIGHT, WIDTH};

verus! {

/// A cluster centroid: an image position and a colour.
#[derive(Debug, Clone, Copy, PartialEq, Eq, Structural)]
pub struct Cluster {
    pub x: u32,
    pub y: u32,
    pub r: u8,
    pub g: u8,
    pub b: u8,
}

/// The sum of the three colour channels of a cluster.
pub open spec fn channel_sum(c: Cluster) -> int {
    c.r + c.g + c.b
}

/// The sum of `channel_sum` over a sequence of clusters.
pub open spec fn total_channel_sum(s: Seq<Cluster>) -> int
    decreases s.len(),
{
    if s.len() == 0 {
        0
    } else {
        total_channel_sum(s.drop_last()) + channel_sum(s.last())
    }
}

/// The convergence measure between two generations of clusters: the absolute
/// difference of their summed colour channels.
pub open spec fn cluster_sum_diff(a: Seq<Cluster>, b: Seq<Cluster>) -> int {
    let d = total_channel_sum(a) - total_channel_sum(b);
    if d < 0 { -d } else { d }
}

proof fn lemma_total_channel_sum_bounds(s: Seq<Cluster>)
    ensures
        0 <= total_channel_sum(s) <= 765 * s.len(),
    decreases s.len(),
{
    if s.len() > 0 {
        lemma_total_channel_sum_bounds(s.drop_last());
    }
}

proof fn lemma_total_channel_sum_prefix(s: Seq<Cluster>, i: int)
    requires
        0 <= i <= s.len(),
    ensures
        0 <= total_channel_sum(s.take(i)) <= total_channel_sum(s),
    decreases s.len(),
{
    if i == s.len() {
        assert(s.take(i) =~= s);
        lemma_total_channel_sum_bounds(s);
    } else {
        lemma_total_channel_sum_prefix(s.drop_last(), i);
        assert(s.drop_last().take(i) =~= s.take(i));
    }
}

/// Measures how much the clusters moved in colour between two iterations:
/// the absolute difference between the summed r, g and b channels of `a` and
/// those of `b`. Both generations must hold the same number of clusters, and
/// neither channel total may overflow an `isize`.
pub fn check_cluster_sum_diff(a: Vec<Cluster>, b: Vec<Cluster>) -> (diff: usize)
    requires
        a.len() == b.len(),
        total_channel_sum(a@) <= isize::MAX,
        total_channel_sum(b@) <= isize::MAX,
    ensures
        diff == cluster_sum_diff(a@, b@),
{
    let mut a_sum: isize = 0;
    let mut b_sum: isize = 0;
    let n = a.len();
    let mut i: usize = 0;
    while i < n
        invariant
            n == a.len(),
            n == b.len(),
            total_channel_sum(a@) <= isize::MAX,
            total_channel_sum(b@) <= isize::MAX,
            0 <= i <= n,
            a_sum == total_channel_sum(a@.take(i as int)),
            b_sum == total_channel_sum(b@.take(i as int)),
        decreases n - i,
    {
        proof {
            lemma_total_channel_sum_prefix(a@, i + 1);
            lemma_total_channel_sum_prefix(b@, i + 1);
            lemma_total_channel_sum_prefix(a@, i as int);
            lemma_total_channel_sum_prefix(b@, i as int);
            assert(a@.take(i as int + 1).drop_last() =~= a@.take(i as int));
            assert(b@.take(i as int + 1).drop_last() =~= b@.take(i as int));
        }
        a_sum = a_sum + (a[i].r as isize + a[i].g as isize + a[i].b as isize);
        b_sum = b_sum + (b[i].r as isize + b[i].g as isize + b[i].b as isize);
        i = i + 1;
    }
    proof {
        assert(a@.take(n as int) =~= a@);
        assert(b@.take(n as int) =~= b@);
        lemma_total_channel_sum_bounds(a@);
        lemma_total_channel_sum_bounds(b@);
    }
    let d: isize = a_sum - b_sum;
    let diff: isize = if d < 0 { -d } else { d };
    diff as usize
}

/// The convergence measure is a distance: zero between a generation and
/// itself, symmetric, and obeying the triangle inequality.
pub proof fn lemma_cluster_sum_diff_is_distance(a: Seq<Cluster>, b: Seq<Cluster>, c: Seq<Cluster>)
    ensures
        cluster_sum_diff(a, a) == 0,
        cluster_sum_diff(a, b) == cluster_sum_diff(b, a),
        cluster_sum_diff(a, c) <= cluster_sum_diff(a, b) + cluster_sum_diff(b, c),
{
}

proof fn lemma_total_channel_sum_update_at(s: Seq<Cluster>, i: int, c: Cluster)
    requires
        0 <= i < s.len(),
    ensures
        total_channel_sum(s.update(i, c)) == total_channel_sum(s) + (c.r - s[i].r) + (c.g - s[i].g) + (c.b
            - s[i].b),
    decreases s.len(),
{
    if i == s.len() - 1 {
        assert(s.update(i, c).drop_last() =~= s.drop_last());
    } else {
        lemma_total_channel_sum_update_at(s.drop_last(), i, c);
        assert(s.update(i, c).drop_last() =~= s.drop_last().update(i, c));
    }
}

/// Changing one cluster changes the channel total by exactly the change of
/// that cluster's r, g and b: every channel value counts in full, with no
/// wrap-around, and nothing else counts.
pub proof fn lemma_channel_total_counts_every_channel(s: Seq<Cluster>, i: int, c: Cluster)
    requires
        0 <= i < s.len(),
    ensures
        total_channel_sum(s.update(i, c)) - total_channel_sum(s) == (c.r - s[i].r) + (c.g - s[i].g)
            + (c.b - s[i].b),
        total_channel_sum(seq![c]) == c.r + c.g + c.b,
        total_channel_sum(s.push(c)) == total_channel_sum(s) + c.r + c.g + c.b,
{
    lemma_total_channel_sum_update_at(s, i, c);
    assert(seq![c].drop_last() =~= Seq::<Cluster>::empty());
    assert(total_channel_sum(seq![c].drop_last()) == 0);
    assert(seq![c].last() == c);
    assert(s.push(c).drop_last() =~= s);
}

/// Between two single clusters, the convergence measure is the absolute
/// difference of their channel sums r + g + b.
pub proof fn lemma_cluster_sum_diff_of_single_clusters(c: Cluster, d: Cluster)
    ensures
        cluster_sum_diff(seq![c], seq![d]) == if c.r + c.g + c.b >= d.r + d.g + d.b {
            (c.r + c.g + c.b) - (d.r + d.g + d.b)
        } else {
            (d.r + d.g + d.b) - (c.r + c.g + c.b)
        },
{
    assert(seq![c].drop_last() =~= Seq::<Cluster>::empty());
    assert(seq![d].drop_last() =~= Seq::<Cluster>::empty());
}

/// The colours of a sequence of clusters.
pub open spec fn colours(s: Seq<Cluster>) -> Seq<(u8, u8, u8)> {
    s.map_values(|c: Cluster| (c.r, c.g, c.b))
}

proof fn lemma_total_channel_sum_remove(s: Seq<Cluster>, k: int)
    requires
        0 <= k < s.len(),
    ensures
        total_channel_sum(s) == total_channel_sum(s.remove(k)) + channel_sum(s[k]),
    decreases s.len(),
{
    if k == s.len() - 1 {
        assert(s.remove(k) =~= s.drop_last());
    } else {
        lemma_total_channel_sum_remove(s.drop_last(), k);
        assert(s.remove(k).drop_last() =~= s.drop_last().remove(k));
        assert(s.remove(k).last() == s.last());
    }
}

proof fn lemma_total_channel_sum_same_colours(a: Seq<Cluster>, a2: Seq<Cluster>)
    requires
        colours(a2).to_multiset() == colours(a).to_multiset(),
    ensures
        total_channel_sum(a2) == total_channel_sum(a),
    decreases a.len(),
{
    broadcast use vstd::seq_lib::group_to_multiset_ensures;

    if a.len() == 0 {
        assert(colours(a).len() == 0);
        assert(colours(a).to_multiset().len() == colours(a).len());
        assert(colours(a2).to_multiset().len() == colours(a2).len());
        assert(a2.len() == 0);
    } else {
        let c = a.last();
        let col = (c.r, c.g, c.b);
        let pre = a.drop_last();
        assert(colours(a) =~= colours(pre).push(col));
        assert(colours(a).to_multiset().count(col) > 0);
        assert(colours(a2).contains(col));
        let k = choose|k: int| 0 <= k < colours(a2).len() && colours(a2)[k] == col;
        let rest = a2.remove(k);
        assert(colours(rest) =~= colours(a2).remove(k));
        assert(colours(rest).to_multiset() =~= colours(a2).to_multiset().remove(col));
        assert(colours(pre).to_multiset().insert(col).remove(col) =~= colours(pre).to_multiset());
        lemma_total_channel_sum_same_colours(pre, rest);
        lemma_total_channel_sum_remove(a2, k);
        assert(channel_sum(a2[k]) == channel_sum(c));
    }
}

/// The convergence measure looks at the colours alone, whatever their order:
/// reordering a generation, or moving its clusters in position, leaves it
/// unchanged.
pub proof fn lemma_cluster_sum_diff_ignores_order_and_position(
    a: Seq<Cluster>,
    a2: Seq<Cluster>,
    b: Seq<Cluster>,
)
    requires
        colours(a2).to_multiset() == colours(a).to_multiset(),
    ensures
        cluster_sum_diff(a2, b) == cluster_sum_diff(a, b),
        cluster_sum_diff(b, a2) == cluster_sum_diff(b, a),
{
    lemma_total_channel_sum_same_colours(a, a2);
}

/// The channel total of `clusters` fits in an `isize`, as
/// `check_cluster_sum_diff` needs.
pub fn channel_total_fits(clusters: &Vec<Cluster>) -> (b: bool)
    ensures
        b == (total_channel_sum(clusters@) <= isize::MAX),
{
    let mut sum: isize = 0;
    let n = clusters.len();
    let mut i: usize = 0;
    while i < n
        invariant
            n == clusters.len(),
            0 <= i <= n,
            sum == total_channel_sum(clusters@.take(i as int)),
        decreases n - i,
    {
        proof {
            lemma_total_channel_sum_prefix(clusters@, i + 1);
            assert(clusters@.take(i as int + 1).drop_last() =~= clusters@.take(i as int));
        }
        let c = clusters[i];
        let add: isize = c.r as isize + c.g as isize + c.b as isize;
        sum = match sum.checked_add(add) {
            Some(v) => v,
            None => return false,
        };
        i = i + 1;
    }
    proof {
        assert(clusters@.take(n as int) =~= clusters@);
    }
    true
}

/// A cluster such as `build_random_clusters` draws for an image of `w` by
/// `h` pixels: a position inside the image and channels in `[50, 200)`.
pub open spec fn is_random_start(c: Cluster, w: u32, h: u32) -> bool {
    &&& c.x < w
    &&& c.y < h
    &&& 50 <= c.r < 200
    &&& 50 <= c.g < 200
    &&& 50 <= c.b < 200
}

/// Draws `num_clusters` starting clusters at random positions of a `w` by `h`
/// image, with colour channels drawn from `[50, 200)`.
pub fn build_random_clusters(num_clusters: usize, w: u32, h: u32) -> (clusters: Vec<Cluster>)
    requires
        num_clusters > 0 ==> w > 0 && h > 0,
    ensures
        clusters.len() == num_clusters,
        forall|i: int| 0 <= i < num_clusters ==> is_random_start(#[trigger] clusters[i], w, h),
{
    let mut cluster_rng = thread_rng();
    let mut clusters: Vec<Cluster> = Vec::with_capacity(num_clusters);
    for i in 0..num_clusters
        invariant
            num_clusters > 0 ==> w > 0 && h > 0,
            clusters.len() == i,
            forall|j: int| 0 <= j < i ==> is_random_start(#[trigger] clusters[j], w, h),
    {
        let x = gen_range_u32(&mut cluster_rng, 0, w);
        let y = gen_range_u32(&mut cluster_rng, 0, h);
        let r = gen_range_u32(&mut cluster_rng, 50, 200) as u8;
        let g = gen_range_u32(&mut cluster_rng, 50, 200) as u8;
        let b = gen_range_u32(&mut cluster_rng, 50, 200) as u8;
        clusters.push(Cluster { x, y, r, g, b });
    }
    clusters
}

/// A pixel as the k-means clustering sees it: its image position, colour,
/// camera-space coordinates (bit patterns of `f32`s, carried along for the
/// area computation) and the index of the cluster it is assigned to.
#[derive(Debug, Clone, Copy)]
pub struct CPixel {
    pub x: u32,
    pub y: u32,
    pub rgb: (u8, u8, u8),
    pub xyz: (u32, u32, u32),
    pub assigned_cluster: usize,
}

impl CPixel {
    /// A pixel made of the given fields.
    pub fn new(
        x: u32,
        y: u32,
        rgb: (u8, u8, u8),
        xyz: (u32, u32, u32),
        assigned_cluster: usize,
    ) -> (p: Self)
        ensures
            p == (CPixel { x, y, rgb, xyz, assigned_cluster }),
    {
        CPixel { x: x, y: y, rgb: rgb, xyz: xyz, assigned_cluster: assigned_cluster }
    }
}

/// The square of the perceptual ("redmean") colour distance between `a` and
/// `b`: the squared channel differences weighted 2, 4, 3 (r, g, b) when the
/// mean red of the two colours is below 128, and 3, 4, 2 otherwise.
pub open spec fn weighted_color_sq(a: (u8, u8, u8), b: (u8, u8, u8)) -> int {
    let dr = a.0 - b.0;
    let dg = a.1 - b.1;
    let db = a.2 - b.2;
    if a.0 + b.0 < 256 {
        2 * (dr * dr) + 4 * (dg * dg) + 3 * (db * db)
    } else {
        3 * (dr * dr) + 4 * (dg * dg) + 2 * (db * db)
    }
}

/// The perceptual colour distance is symmetric and zero from a colour to
/// itself.
pub proof fn lemma_weighted_color_sq_symmetric(a: (u8, u8, u8), b: (u8, u8, u8))
    ensures
        weighted_color_sq(a, b) == weighted_color_sq(b, a),
        weighted_color_sq(a, a) == 0,
        weighted_color_sq(a, b) >= 0,
{
    let dr = a.0 - b.0;
    let dg = a.1 - b.1;
    let db = a.2 - b.2;
    assert(dr * dr == (-dr) * (-dr)) by (nonlinear_arith);
    assert(dg * dg == (-dg) * (-dg)) by (nonlinear_arith);
    assert(db * db == (-db) * (-db)) by (nonlinear_arith);
    lemma_square_bound(dr);
    lemma_square_bound(dg);
    lemma_square_bound(db);
}

/// The weights of the perceptual distance follow the mean red of the two
/// colours: while `(a.r + b.r) / 2` is below 128, a red difference weighs 2
/// and a blue one 3; from 128 on, red weighs 3 and blue 2; green always
/// weighs 4.
pub proof fn lemma_weighted_color_sq_follows_mean_red(a: (u8, u8, u8), b: (u8, u8, u8))
    ensures
        (a.0 + b.0) / 2 < 128 ==> weighted_color_sq(a, b) == 2 * ((a.0 - b.0) * (a.0 - b.0)) + 4 * ((a.1
            - b.1) * (a.1 - b.1)) + 3 * ((a.2 - b.2) * (a.2 - b.2)),
        (a.0 + b.0) / 2 >= 128 ==> weighted_color_sq(a, b) == 3 * ((a.0 - b.0) * (a.0 - b.0)) + 4 * ((
        a.1 - b.1) * (a.1 - b.1)) + 2 * ((a.2 - b.2) * (a.2 - b.2)),
{
}

/// The perceptual distance is zero exactly between equal colours.
pub proof fn lemma_weighted_color_sq_zero_iff_equal(a: (u8, u8, u8), b: (u8, u8, u8))
    ensures
        weighted_color_sq(a, b) == 0 <==> a == b,
{
    let dr = a.0 - b.0;
    let dg = a.1 - b.1;
    let db = a.2 - b.2;
    lemma_square_positive(dr);
    lemma_square_positive(dg);
    lemma_square_positive(db);
}

pub(crate) proof fn lemma_square_positive(d: int)
    ensures
        d * d >= 0,
        d != 0 ==> d * d > 0,
{
    assert(d * d >= 0 && (d != 0 ==> d * d > 0)) by (nonlinear_arith);
}

pub(crate) proof fn lemma_square_bound(d: int)
    requires
        -255 <= d <= 255,
    ensures
        0 <= d * d <= 65025,
{
    assert(0 <= d * d <= 65025) by (nonlinear_arith)
        requires
            -255 <= d <= 255,
    ;
}

/// The square of the perceptual colour distance between two pixels; the
/// distance itself is its square root, so comparing squares orders pixels as
/// the distances do.
pub fn color_distance_squared(a: CPixel, b: CPixel) -> (d: u32)
    ensures
        d == weighted_color_sq(a.rgb, b.rgb),
{
    let dr: i32 = a.rgb.0 as i32 - b.rgb.0 as i32;
    let dg: i32 = a.rgb.1 as i32 - b.rgb.1 as i32;
    let db: i32 = a.rgb.2 as i32 - b.rgb.2 as i32;
    proof {
        lemma_square_bound(dr as int);
        lemma_square_bound(dg as int);
        lemma_square_bound(db as int);
    }
    let sr: i32 = dr * dr;
    let sg: i32 = dg * dg;
    let sb: i32 = db * db;
    let d: i32 = if (a.rgb.0 as u32) + (b.rgb.0 as u32) < 256 {
        2 * sr + 4 * sg + 3 * sb
    } else {
        3 * sr + 4 * sg + 2 * sb
    };
    d as u32
}

/// The index of the first cluster equal to `c`, if any.
pub fn cluster_position(clusters: &Vec<Cluster>, c: Cluster) -> (res: Option<usize>)
    ensures
        match res {
            Some(k) => clusters@.index_of_first(c) == Some(k as int),
            None => clusters@.index_of_first(c) is None,
        },
{
    proof {
        clusters@.index_of_first_ensures(c);
    }
    let mut i: usize = 0;
    while i < clusters.len()
        invariant
            0 <= i <= clusters.len(),
            forall|j: int| 0 <= j < i ==> clusters@[j] != c,
            match clusters@.index_of_first(c) {
                Some(index) => {
                    &&& clusters@.contains(c)
                    &&& 0 <= index < clusters@.len()
                    &&& clusters@[index] == c
                    &&& forall|j: int| 0 <= j < index < clusters@.len() ==> clusters@[j] != c
                },
                None => !clusters@.contains(c),
            },
        decreases clusters.len() - i,
    {
        if clusters[i] == c {
            return Some(i);
        }
        i = i + 1;
    }
    proof {
        if clusters@.contains(c) {
            let j = choose|j: int| 0 <= j < clusters@.len() && clusters@[j] == c;
            assert(clusters@[j] != c);
        }
    }
    None
}

/// The index of the cluster that a pixel of colour `rgb` keeps after the
/// first `n` clusters have been scanned: the scan starts at cluster 0 and moves
/// to cluster `i` whenever the pixel is strictly closer in colour to cluster
/// `i` than to the cluster it holds.
pub open spec fn scan_index(rgb: (u8, u8, u8), clusters: Seq<Cluster>, n: int) -> int
    decreases n,
{
    if n <= 0 {
        0
    } else {
        let p = scan_index(rgb, clusters, n - 1);
        let c = clusters[n - 1];
        let a = clusters[p];
        if weighted_color_sq(rgb, (c.r, c.g, c.b)) < weighted_color_sq(rgb, (a.r, a.g, a.b)) {
            n - 1
        } else {
            p
        }
    }
}

proof fn lemma_scan_index_bounds(rgb: (u8, u8, u8), clusters: Seq<Cluster>, n: int)
    requires
        0 <= n,
    ensures
        0 <= scan_index(rgb, clusters, n) < if n == 0 { 1 } else { n },
    decreases n,
{
    if n > 0 {
        lemma_scan_index_bounds(rgb, clusters, n - 1);
    }
}

proof fn lemma_scan_index_nearest(rgb: (u8, u8, u8), clusters: Seq<Cluster>, n: int)
    requires
        0 < n <= clusters.len(),
    ensures
        0 <= scan_index(rgb, clusters, n) < n,
        forall|j: int|
            0 <= j < n ==> weighted_color_sq(rgb, colour_of(clusters[scan_index(rgb, clusters, n)]))
                <= weighted_color_sq(rgb, #[trigger] colour_of(clusters[j])),
    decreases n,
{
    assert(scan_index(rgb, clusters, 0) == 0);
    if n > 1 {
        lemma_scan_index_nearest(rgb, clusters, n - 1);
    }
}

/// The colour of a cluster.
pub open spec fn colour_of(c: Cluster) -> (u8, u8, u8) {
    (c.r, c.g, c.b)
}

/// A pixel starts out in a cluster nearest to it in perceptual colour.
pub proof fn lemma_initial_cluster_is_nearest(rgb: (u8, u8, u8), clusters: Seq<Cluster>)
    requires
        clusters.len() > 0,
    ensures
        0 <= initial_cluster_index(rgb, clusters) < clusters.len(),
        forall|j: int|
            0 <= j < clusters.len() ==> weighted_color_sq(
                rgb,
                colour_of(clusters[initial_cluster_index(rgb, clusters)]),
            ) <= weighted_color_sq(rgb, #[trigger] colour_of(clusters[j])),
{
    let n = clusters.len() as int;
    lemma_scan_index_nearest(rgb, clusters, n);
    let c = clusters[scan_index(rgb, clusters, n)];
    clusters.index_of_first_ensures(c);
    assert(clusters.contains(c));
}

/// The index of the cluster a pixel of colour `rgb` starts out in: the first
/// cluster equal to the one the colour scan over all clusters settles on.
pub open spec fn initial_cluster_index(rgb: (u8, u8, u8), clusters: Seq<Cluster>) -> int {
    match clusters.index_of_first(clusters[scan_index(rgb, clusters, clusters.len() as int)]) {
        Some(k) => k,
        None => 0,
    }
}

/// The clustering pixel made from a stereo pixel, before any k-means
/// iteration has run.
pub open spec fn initial_kmeans_pixel(p: StereoPixel, clusters: Seq<Cluster>) -> CPixel {
    CPixel {
        x: p.pixel_x,
        y: p.pixel_y,
        rgb: (p.r, p.g, p.b),
        xyz: (p.x, p.y, p.z),
        assigned_cluster: initial_cluster_index((p.r, p.g, p.b), clusters) as usize,
    }
}

/// A clustering pixel keeps the position, colour (in r, g, b order) and
/// camera-space coordinates of the stereo pixel it is made from.
pub proof fn lemma_initial_kmeans_pixel_keeps_fields(p: StereoPixel, clusters: Seq<Cluster>)
    ensures
        initial_kmeans_pixel(p, clusters).x == p.pixel_x,
        initial_kmeans_pixel(p, clusters).y == p.pixel_y,
        initial_kmeans_pixel(p, clusters).rgb.0 == p.r,
        initial_kmeans_pixel(p, clusters).rgb.1 == p.g,
        initial_kmeans_pixel(p, clusters).rgb.2 == p.b,
        initial_kmeans_pixel(p, clusters).xyz.0 == p.x,
        initial_kmeans_pixel(p, clusters).xyz.1 == p.y,
        initial_kmeans_pixel(p, clusters).xyz.2 == p.z,
{
}

/// Finds the starting cluster of a pixel of colour `rgb`.
fn assign_initial_cluster(rgb: (u8, u8, u8), clusters: &Vec<Cluster>) -> (k: usize)
    requires
        clusters.len() > 0,
    ensures
        k == initial_cluster_index(rgb, clusters@),
        k < clusters.len(),
{
    let km_pixel = CPixel { x: 0, y: 0, rgb: rgb, xyz: (0, 0, 0), assigned_cluster: 0 };
    let mut chosen: usize = 0;
    let mut assigned_cluster = clusters[0];
    for i in 0..clusters.len()
        invariant
            clusters.len() > 0,
            km_pixel.rgb == rgb,
            chosen == scan_index(rgb, clusters@, i as int),
            chosen < clusters.len(),
            assigned_cluster == clusters@[chosen as int],
    {
        let temp_cluster_pixel = CPixel {
            x: 0,
            y: 0,
            rgb: (clusters[i].r, clusters[i].g, clusters[i].b),
            xyz: (0, 0, 0),
            assigned_cluster: i,
        };
        let km_pixel_cluster = CPixel {
            x: 0,
            y: 0,
            rgb: (assigned_cluster.r, assigned_cluster.g, assigned_cluster.b),
            xyz: (0, 0, 0),
            assigned_cluster: chosen,
        };
        let closer = color_distance_squared(km_pixel, temp_cluster_pixel) < color_distance_squared(
            km_pixel,
            km_pixel_cluster,
        );
        proof {
            let c = clusters@[i as int];
            let a = clusters@[chosen as int];
            assert(scan_index(rgb, clusters@, i + 1) == if weighted_color_sq(rgb, (c.r, c.g, c.b))
                < weighted_color_sq(rgb, (a.r, a.g, a.b)) {
                i as int
            } else {
                chosen as int
            });
        }
        if closer {
            assigned_cluster = clusters[i];
            chosen = i;
        }
    }
    proof {
        clusters@.index_of_first_ensures(assigned_cluster);
        assert(clusters@.contains(assigned_cluster));
    }
    match cluster_position(clusters, assigned_cluster) {
        Some(k) => k,
        None => 0,
    }
}

/// Every pixel is assigned to one of `n` clusters.
pub open spec fn assignments_below(pixels: Seq<CPixel>, n: int) -> bool {
    forall|k: int| 0 <= k < pixels.len() ==> #[trigger] pixels[k].assigned_cluster < n
}

/// Turns the stereo pixels of one image into clustering pixels, row by row
/// over the `2208 x 1242` image, each assigned to its starting cluster (see
/// `initial_cluster_index`). Returns the pixels with the image's width and
/// height.
pub fn build_kmeans_pixel_list_from_stero_record(
    stereo_pixels: &Vec<StereoPixel>,
    clusters: Vec<Cluster>,
) -> (res: (Vec<CPixel>, u32, u32))
    requires
        stereo_pixels.len() >= WIDTH * HEIGHT,
        clusters.len() > 0,
    ensures
        res.1 == WIDTH,
        res.2 == HEIGHT,
        res.0.len() == WIDTH * HEIGHT,
        assignments_below(res.0@, clusters.len() as int),
        forall|k: int|
            0 <= k < WIDTH * HEIGHT ==> {
                &&& (#[trigger] res.0[k]).x == stereo_pixels[k].pixel_x
                &&& res.0[k].y == stereo_pixels[k].pixel_y
                &&& res.0[k].rgb.0 == stereo_pixels[k].r
                &&& res.0[k].rgb.1 == stereo_pixels[k].g
                &&& res.0[k].rgb.2 == stereo_pixels[k].b
                &&& res.0[k].xyz.0 == stereo_pixels[k].x
                &&& res.0[k].xyz.1 == stereo_pixels[k].y
                &&& res.0[k].xyz.2 == stereo_pixels[k].z
            },
        forall|k: int|
            0 <= k < WIDTH * HEIGHT ==> #[trigger] res.0[k] == initial_kmeans_pixel(
                stereo_pixels[k],
                clusters@,
            ),
{
    let w: usize = WIDTH;
    let h: usize = HEIGHT;
    let mut kmeans_pixels: Vec<CPixel> = Vec::with_capacity(w * h);
    for y in 0..h
        invariant
            w == WIDTH,
            h == HEIGHT,
            stereo_pixels.len() >= WIDTH * HEIGHT,
            clusters.len() > 0,
            kmeans_pixels.len() == w * y,
            assignments_below(kmeans_pixels@, clusters.len() as int),
            forall|k: int|
                0 <= k < w * y ==> #[trigger] kmeans_pixels[k] == initial_kmeans_pixel(
                    stereo_pixels[k],
                    clusters@,
                ),
    {
        for x in 0..w
            invariant
                w == WIDTH,
                h == HEIGHT,
                y < h,
                stereo_pixels.len() >= WIDTH * HEIGHT,
                clusters.len() > 0,
                kmeans_pixels.len() == w * y + x,
                assignments_below(kmeans_pixels@, clusters.len() as int),
                forall|k: int|
                    0 <= k < w * y + x ==> #[trigger] kmeans_pixels[k] == initial_kmeans_pixel(
                        stereo_pixels[k],
                        clusters@,
                    ),
        {
            let pixel = stereo_pixels[(w * y) + x];
            let index = assign_initial_cluster((pixel.r, pixel.g, pixel.b), &clusters);
            let km_pixel = CPixel {
                x: pixel.pixel_x,
                y: pixel.pixel_y,
                rgb: (pixel.r, pixel.g, pixel.b),
                xyz: (pixel.x, pixel.y, pixel.z),
                assigned_cluster: index,
            };
            kmeans_pixels.push(km_pixel);
        }
    }
    (kmeans_pixels, w as u32, h as u32)
}

} // verus!
