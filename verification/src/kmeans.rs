use vstd::prelude::*;

use crate::clustering::{
    assignments_below, build_random_clusters, check_cluster_sum_diff, cluster_sum_diff,
    is_random_start, channel_total_fits, colour_of, total_channel_sum, CPixel, Cluster,
};

verus! {

/// Copies a list of clusters.
fn copy_clusters(clusters: &Vec<Cluster>) -> (copy: Vec<Cluster>)
    ensures
        copy@ == clusters@,
{
    let mut copy: Vec<Cluster> = Vec::with_capacity(clusters.len());
    for i in 0..clusters.len()
        invariant
            copy@ == clusters@.take(i as int),
    {
        copy.push(clusters[i]);
        proof {
            assert(copy@ =~= clusters@.take(i + 1));
        }
    }
    proof {
        assert(clusters@.take(clusters.len() as int) =~= clusters@);
    }
    copy
}

/// A pixel counts towards cluster `i` when the cluster it is assigned to is
/// equal, as a value, to cluster `i`.
pub open spec fn is_member(p: CPixel, clusters: Seq<Cluster>, i: int) -> bool {
    clusters[p.assigned_cluster as int] == clusters[i]
}

/// The number of members of cluster `i` among `pixels` and the sums of their
/// x, y, r, g and b.
pub open spec fn member_sums(pixels: Seq<CPixel>, clusters: Seq<Cluster>, i: int) -> (
    int,
    int,
    int,
    int,
    int,
    int,
)
    decreases pixels.len(),
{
    if pixels.len() == 0 {
        (0, 0, 0, 0, 0, 0)
    } else {
        let s = member_sums(pixels.drop_last(), clusters, i);
        let p = pixels.last();
        if is_member(p, clusters, i) {
            (s.0 + 1, s.1 + p.x, s.2 + p.y, s.3 + p.rgb.0, s.4 + p.rgb.1, s.5 + p.rgb.2)
        } else {
            s
        }
    }
}

/// The count and every sum fit in a `u32`.
pub open spec fn sums_fit(s: (int, int, int, int, int, int)) -> bool {
    &&& s.0 <= u32::MAX
    &&& s.1 <= u32::MAX
    &&& s.2 <= u32::MAX
    &&& s.3 <= u32::MAX
    &&& s.4 <= u32::MAX
    &&& s.5 <= u32::MAX
}

/// The divisor of the means: the member count, or 1 for a cluster without
/// members.
pub open spec fn mean_divisor(count: int) -> int {
    if count == 0 {
        1
    } else {
        count
    }
}

/// The new centroid of a cluster with the given member sums: the mean
/// position and colour of its members.
pub open spec fn centroid(s: (int, int, int, int, int, int)) -> Cluster {
    let c = mean_divisor(s.0);
    Cluster {
        x: (s.1 / c) as u32,
        y: (s.2 / c) as u32,
        r: (s.3 / c) as u8,
        g: (s.4 / c) as u8,
        b: (s.5 / c) as u8,
    }
}

/// The clusters after the first `n` of them have been moved to their
/// centroids, one after another; each centroid is taken over the clusters as
/// they stand when its turn comes.
pub open spec fn recomputed(clusters: Seq<Cluster>, pixels: Seq<CPixel>, n: int) -> Seq<Cluster>
    decreases n,
{
    if n <= 0 {
        clusters
    } else {
        let prev = recomputed(clusters, pixels, n - 1);
        prev.update(n - 1, centroid(member_sums(pixels, prev, n - 1)))
    }
}

/// No count or sum of the centroid update overflows a `u32`.
pub open spec fn update_fits(clusters: Seq<Cluster>, pixels: Seq<CPixel>) -> bool {
    forall|i: int|
        0 <= i < clusters.len() ==> sums_fit(
            #[trigger] member_sums(pixels, recomputed(clusters, pixels, i), i),
        )
}

/// The centroid update keeps the number of clusters, and after `n` steps
/// the clusters from index `n` on are still the ones it started from.
pub proof fn lemma_recomputed_len(clusters: Seq<Cluster>, pixels: Seq<CPixel>, n: int)
    requires
        0 <= n <= clusters.len(),
    ensures
        recomputed(clusters, pixels, n).len() == clusters.len(),
        forall|j: int| n <= j < clusters.len() ==> #[trigger] recomputed(clusters, pixels, n)[j] == clusters[j],
    decreases n,
{
    if n > 0 {
        lemma_recomputed_len(clusters, pixels, n - 1);
    }
}

proof fn lemma_member_sums_prefix(pixels: Seq<CPixel>, clusters: Seq<Cluster>, i: int, j: int)
    requires
        0 <= j <= pixels.len(),
    ensures
        ({
            let a = member_sums(pixels.take(j), clusters, i);
            let b = member_sums(pixels, clusters, i);
            &&& 0 <= a.0 <= b.0
            &&& 0 <= a.1 <= b.1
            &&& 0 <= a.2 <= b.2
            &&& 0 <= a.3 <= b.3
            &&& 0 <= a.4 <= b.4
            &&& 0 <= a.5 <= b.5
        }),
    decreases pixels.len(),
{
    if j == pixels.len() {
        assert(pixels.take(j) =~= pixels);
        lemma_member_sums_nonneg(pixels, clusters, i);
    } else {
        lemma_member_sums_prefix(pixels.drop_last(), clusters, i, j);
        assert(pixels.drop_last().take(j) =~= pixels.take(j));
    }
}

proof fn lemma_member_sums_nonneg(pixels: Seq<CPixel>, clusters: Seq<Cluster>, i: int)
    ensures
        ({
            let s = member_sums(pixels, clusters, i);
            &&& 0 <= s.0
            &&& 0 <= s.1
            &&& 0 <= s.2
            &&& 0 <= s.3 <= 255 * s.0
            &&& 0 <= s.4 <= 255 * s.0
            &&& 0 <= s.5 <= 255 * s.0
        }),
    decreases pixels.len(),
{
    if pixels.len() > 0 {
        lemma_member_sums_nonneg(pixels.drop_last(), clusters, i);
    }
}

/// Moves every cluster, in turn, to the mean position and colour of the
/// pixels assigned to a cluster equal to it (see `recomputed`). Returns
/// `None` exactly when a member count or sum would overflow a `u32`.
pub fn update_clusters(clusters: &Vec<Cluster>, pixels: &Vec<CPixel>) -> (res: Option<Vec<Cluster>>)
    requires
        assignments_below(pixels@, clusters.len() as int),
    ensures
        res is Some <==> update_fits(clusters@, pixels@),
        res matches Some(v) ==> v@ == recomputed(clusters@, pixels@, clusters.len() as int),
{
    let n = clusters.len();
    let mut cl = copy_clusters(clusters);
    for i in 0..n
        invariant
            n == clusters.len(),
            assignments_below(pixels@, n as int),
            cl@ == recomputed(clusters@, pixels@, i as int),
            forall|j: int| 0 <= j < i ==> sums_fit(
                #[trigger] member_sums(pixels@, recomputed(clusters@, pixels@, j), j),
            ),
    {
        proof {
            lemma_recomputed_len(clusters@, pixels@, i as int);
        }
        let ghost before = cl@;
        let mut counter: u32 = 0;
        let mut x_sum: u32 = 0;
        let mut y_sum: u32 = 0;
        let mut r_sum: u32 = 0;
        let mut g_sum: u32 = 0;
        let mut b_sum: u32 = 0;
        for j in 0..pixels.len()
            invariant
                n == clusters.len(),
                i < n,
                cl@ == before,
                before == recomputed(clusters@, pixels@, i as int),
                before.len() == n,
                assignments_below(pixels@, n as int),
                (counter as int, x_sum as int, y_sum as int, r_sum as int, g_sum as int, b_sum as int)
                    == member_sums(pixels@.take(j as int), before, i as int),
        {
            let point = pixels[j];
            proof {
                assert(pixels@.take(j + 1).drop_last() =~= pixels@.take(j as int));
                assert(pixels@[j as int].assigned_cluster < n);
                lemma_member_sums_prefix(pixels@, before, i as int, j + 1);
                assert(member_sums(pixels@, recomputed(clusters@, pixels@, i as int), i as int)
                    == member_sums(pixels@, before, i as int));
            }
            if cl[point.assigned_cluster] == cl[i] {
                counter = match counter.checked_add(1) {
                    Some(v) => v,
                    None => return None,
                };
                x_sum = match x_sum.checked_add(point.x) {
                    Some(v) => v,
                    None => return None,
                };
                y_sum = match y_sum.checked_add(point.y) {
                    Some(v) => v,
                    None => return None,
                };
                r_sum = match r_sum.checked_add(point.rgb.0 as u32) {
                    Some(v) => v,
                    None => return None,
                };
                g_sum = match g_sum.checked_add(point.rgb.1 as u32) {
                    Some(v) => v,
                    None => return None,
                };
                b_sum = match b_sum.checked_add(point.rgb.2 as u32) {
                    Some(v) => v,
                    None => return None,
                };
            }
        }
        proof {
            assert(pixels@.take(pixels.len() as int) =~= pixels@);
        }
        if counter == 0 {
            counter = counter + 1;
        }
        let moved = Cluster {
            x: x_sum / counter,
            y: y_sum / counter,
            r: (r_sum / counter) as u8,
            g: (g_sum / counter) as u8,
            b: (b_sum / counter) as u8,
        };
        cl.set(i, moved);
    }
    Some(cl)
}

/// The colour of a moved cluster is the exact mean colour of its members:
/// the narrowing of each channel mean to `u8` never cuts anything off.
pub proof fn lemma_centroid_colour_is_mean(pixels: Seq<CPixel>, clusters: Seq<Cluster>, i: int)
    ensures
        ({
            let s = member_sums(pixels, clusters, i);
            let c = centroid(s);
            &&& c.r == s.3 / mean_divisor(s.0)
            &&& c.g == s.4 / mean_divisor(s.0)
            &&& c.b == s.5 / mean_divisor(s.0)
        }),
{
    let s = member_sums(pixels, clusters, i);
    lemma_member_sums_nonneg(pixels, clusters, i);
    let d = mean_divisor(s.0);
    if s.0 == 0 {
        assert(s.3 == 0 && s.4 == 0 && s.5 == 0);
    } else {
        vstd::arithmetic::div_mod::lemma_div_by_multiple(255, d);
        vstd::arithmetic::div_mod::lemma_div_is_ordered(s.3, 255 * d, d);
        vstd::arithmetic::div_mod::lemma_div_is_ordered(s.4, 255 * d, d);
        vstd::arithmetic::div_mod::lemma_div_is_ordered(s.5, 255 * d, d);
        vstd::arithmetic::div_mod::lemma_div_pos_is_pos(s.3, d);
        vstd::arithmetic::div_mod::lemma_div_pos_is_pos(s.4, d);
        vstd::arithmetic::div_mod::lemma_div_pos_is_pos(s.5, d);
    }
}

/// The square of the Euclidean colour distance between two colours.
pub open spec fn colour_sq(a: (u8, u8, u8), b: (u8, u8, u8)) -> int {
    let dr = a.0 - b.0;
    let dg = a.1 - b.1;
    let db = a.2 - b.2;
    dr * dr + dg * dg + db * db
}

/// The cluster index that a pixel of colour `rgb`, starting at index
/// `start`, holds after the first `n` clusters have been looked at: it moves
/// to (the first cluster equal to) cluster `i` whenever cluster `i` is
/// strictly closer in colour than the cluster it holds.
pub open spec fn reassigned(rgb: (u8, u8, u8), clusters: Seq<Cluster>, start: int, n: int) -> int
    decreases n,
{
    if n <= 0 {
        start
    } else {
        let p = reassigned(rgb, clusters, start, n - 1);
        let c = clusters[n - 1];
        if colour_sq(rgb, colour_of(c)) < colour_sq(rgb, colour_of(clusters[p])) {
            match clusters.index_of_first(c) {
                Some(k) => k,
                None => p,
            }
        } else {
            p
        }
    }
}

/// Reassignment never moves a pixel to a cluster farther from it in colour,
/// and always leaves it on a valid cluster index.
pub proof fn lemma_reassignment_never_moves_away(
    rgb: (u8, u8, u8),
    clusters: Seq<Cluster>,
    start: int,
    n: int,
)
    requires
        0 <= start < clusters.len(),
        0 <= n <= clusters.len(),
    ensures
        0 <= reassigned(rgb, clusters, start, n) < clusters.len(),
        colour_sq(rgb, colour_of(clusters[reassigned(rgb, clusters, start, n)])) <= colour_sq(
            rgb,
            colour_of(clusters[start]),
        ),
    decreases n,
{
    if n > 0 {
        lemma_reassignment_never_moves_away(rgb, clusters, start, n - 1);
        clusters.index_of_first_ensures(clusters[n - 1]);
        assert(clusters.contains(clusters[n - 1]));
    }
}

/// The colour distance of the assignment step is zero exactly between equal
/// colours, symmetric, and counts the difference in every channel: it is at
/// least the square of the difference in red, in green and in blue.
pub proof fn lemma_colour_sq_is_squared_euclidean(a: (u8, u8, u8), b: (u8, u8, u8))
    ensures
        colour_sq(a, b) == 0 <==> a == b,
        colour_sq(a, b) == colour_sq(b, a),
        colour_sq(a, b) >= (a.0 - b.0) * (a.0 - b.0),
        colour_sq(a, b) >= (a.1 - b.1) * (a.1 - b.1),
        colour_sq(a, b) >= (a.2 - b.2) * (a.2 - b.2),
        colour_sq(a, b) == (a.0 - b.0) * (a.0 - b.0) + (a.1 - b.1) * (a.1 - b.1) + (a.2 - b.2) * (a.2
            - b.2),
{
    let dr = a.0 - b.0;
    let dg = a.1 - b.1;
    let db = a.2 - b.2;
    crate::clustering::lemma_square_positive(dr);
    crate::clustering::lemma_square_positive(dg);
    crate::clustering::lemma_square_positive(db);
    assert(dr * dr == (-dr) * (-dr)) by (nonlinear_arith);
    assert(dg * dg == (-dg) * (-dg)) by (nonlinear_arith);
    assert(db * db == (-db) * (-db)) by (nonlinear_arith);
}

/// When some cluster has exactly a pixel's colour, the assignment step leaves
/// the pixel on a cluster of exactly its colour.
pub proof fn lemma_reassignment_finds_exact_colour(
    rgb: (u8, u8, u8),
    clusters: Seq<Cluster>,
    start: int,
    j: int,
)
    requires
        0 <= start < clusters.len(),
        0 <= j < clusters.len(),
        colour_of(clusters[j]) == rgb,
    ensures
        colour_of(clusters[reassigned(rgb, clusters, start, clusters.len() as int)]) == rgb,
{
    lemma_reassigned_prefix_nearest(rgb, clusters, start, clusters.len() as int);
    let f = reassigned(rgb, clusters, start, clusters.len() as int);
    lemma_colour_sq_is_squared_euclidean(rgb, colour_of(clusters[j]));
    lemma_colour_sq_is_squared_euclidean(rgb, colour_of(clusters[f]));
    assert(colour_sq(rgb, colour_of(clusters[f])) <= colour_sq(rgb, colour_of(clusters[j])));
}

proof fn lemma_reassigned_prefix_nearest(
    rgb: (u8, u8, u8),
    clusters: Seq<Cluster>,
    start: int,
    n: int,
)
    requires
        0 <= start < clusters.len(),
        0 <= n <= clusters.len(),
    ensures
        0 <= reassigned(rgb, clusters, start, n) < clusters.len(),
        forall|j: int|
            0 <= j < n ==> colour_sq(rgb, colour_of(clusters[reassigned(rgb, clusters, start, n)]))
                <= colour_sq(rgb, #[trigger] colour_of(clusters[j])),
        (forall|j: int|
            0 <= j < clusters.len() ==> colour_sq(rgb, colour_of(clusters[start])) <= colour_sq(
                rgb,
                #[trigger] colour_of(clusters[j]),
            )) ==> reassigned(rgb, clusters, start, n) == start,
    decreases n,
{
    if n > 0 {
        lemma_reassigned_prefix_nearest(rgb, clusters, start, n - 1);
        clusters.index_of_first_ensures(clusters[n - 1]);
        assert(clusters.contains(clusters[n - 1]));
        assert(colour_of(clusters[n - 1]) == colour_of(clusters[n - 1]));
    }
}

/// After looking at every cluster a pixel holds a cluster nearest to it in
/// colour, and a pixel that already held a nearest cluster keeps it.
pub proof fn lemma_reassignment_reaches_nearest(rgb: (u8, u8, u8), clusters: Seq<Cluster>, start: int)
    requires
        0 <= start < clusters.len(),
    ensures
        forall|j: int|
            0 <= j < clusters.len() ==> colour_sq(
                rgb,
                colour_of(clusters[reassigned(rgb, clusters, start, clusters.len() as int)]),
            ) <= colour_sq(rgb, #[trigger] colour_of(clusters[j])),
        (forall|j: int|
            0 <= j < clusters.len() ==> colour_sq(rgb, colour_of(clusters[start])) <= colour_sq(
                rgb,
                #[trigger] colour_of(clusters[j]),
            )) ==> reassigned(rgb, clusters, start, clusters.len() as int) == start,
{
    lemma_reassigned_prefix_nearest(rgb, clusters, start, clusters.len() as int);
}

fn colour_distance_sq(a: (u8, u8, u8), b: (u8, u8, u8)) -> (d: u32)
    ensures
        d == colour_sq(a, b),
{
    let dr: i32 = a.0 as i32 - b.0 as i32;
    let dg: i32 = a.1 as i32 - b.1 as i32;
    let db: i32 = a.2 as i32 - b.2 as i32;
    proof {
        crate::clustering::lemma_square_bound(dr as int);
        crate::clustering::lemma_square_bound(dg as int);
        crate::clustering::lemma_square_bound(db as int);
    }
    (dr * dr + dg * dg + db * db) as u32
}

/// The assignment step of a k-means iteration when the position weighs
/// nothing (a zero ratio), so that the clustering metric is the colour
/// distance alone: each pixel looks at every cluster in turn and moves to it
/// (to the first cluster equal to it) whenever it is strictly closer in
/// colour than the cluster the pixel holds (see `reassigned`).
pub fn assign_pixels_by_colour(pixels: &mut Vec<CPixel>, clusters: &Vec<Cluster>)
    requires
        assignments_below(old(pixels)@, clusters.len() as int),
    ensures
        final(pixels).len() == old(pixels).len(),
        assignments_below(final(pixels)@, clusters.len() as int),
        forall|k: int|
            0 <= k < old(pixels).len() ==> {
                let p = old(pixels)[k];
                let q = #[trigger] final(pixels)[k];
                &&& q.x == p.x
                &&& q.y == p.y
                &&& q.rgb == p.rgb
                &&& q.xyz == p.xyz
                &&& q.assigned_cluster == reassigned(
                    p.rgb,
                    clusters@,
                    p.assigned_cluster as int,
                    clusters.len() as int,
                )
            },
{
    let ghost start = pixels@;
    let n = pixels.len();
    for j in 0..n
        invariant
            n == pixels.len(),
            start.len() == n,
            assignments_below(pixels@, clusters.len() as int),
            forall|k: int| j <= k < n ==> #[trigger] pixels[k] == start[k],
            forall|k: int|
                0 <= k < j ==> {
                    let p = start[k];
                    let q = #[trigger] pixels[k];
                    &&& q.x == p.x
                    &&& q.y == p.y
                    &&& q.rgb == p.rgb
                    &&& q.xyz == p.xyz
                    &&& q.assigned_cluster == reassigned(
                        p.rgb,
                        clusters@,
                        p.assigned_cluster as int,
                        clusters.len() as int,
                    )
                },
    {
        let mut point = pixels[j];
        assert(point.assigned_cluster < clusters.len());
        for i in 0..clusters.len()
            invariant
                point.x == start[j as int].x,
                point.y == start[j as int].y,
                point.rgb == start[j as int].rgb,
                point.xyz == start[j as int].xyz,
                point.assigned_cluster < clusters.len(),
                point.assigned_cluster == reassigned(
                    start[j as int].rgb,
                    clusters@,
                    start[j as int].assigned_cluster as int,
                    i as int,
                ),
        {
            let cluster = clusters[i];
            let held = clusters[point.assigned_cluster];
            if colour_distance_sq(point.rgb, (cluster.r, cluster.g, cluster.b)) < colour_distance_sq(
                point.rgb,
                (held.r, held.g, held.b),
            ) {
                proof {
                    clusters@.index_of_first_ensures(cluster);
                    assert(clusters@[i as int] == cluster);
                }
                match crate::clustering::cluster_position(clusters, cluster) {
                    Some(k) => {
                        point.assigned_cluster = k;
                    },
                    None => {},
                }
            }
        }
        pixels.set(j, point);
    }
}

/// A cluster whose only member is the pixel `p` moves onto that pixel: its
/// position and colour become the pixel's; a cluster without members moves
/// to the origin with colour black.
pub proof fn lemma_centroid_of_one_member(p: CPixel, clusters: Seq<Cluster>, i: int)
    ensures
        is_member(p, clusters, i) ==> centroid(member_sums(seq![p], clusters, i)) == (Cluster {
            x: p.x,
            y: p.y,
            r: p.rgb.0,
            g: p.rgb.1,
            b: p.rgb.2,
        }),
        !is_member(p, clusters, i) ==> centroid(member_sums(seq![p], clusters, i)) == (Cluster {
            x: 0,
            y: 0,
            r: 0,
            g: 0,
            b: 0,
        }),
{
    assert(seq![p].drop_last() =~= Seq::<CPixel>::empty());
    assert(seq![p].last() == p);
    assert(member_sums(seq![p].drop_last(), clusters, i) == (0int, 0int, 0int, 0int, 0int, 0int));
    if is_member(p, clusters, i) {
        let m = member_sums(seq![p], clusters, i);
        assert(m == (1int, p.x as int, p.y as int, p.rgb.0 as int, p.rgb.1 as int, p.rgb.2 as int));
        assert(mean_divisor(m.0) == 1);
        assert(m.1 / 1 == m.1 && m.2 / 1 == m.2 && m.3 / 1 == m.3 && m.4 / 1 == m.4 && m.5 / 1 == m.5);
    }
}

/// The number of pixels assigned to cluster index `k`.
pub open spec fn count_assigned(pixels: Seq<CPixel>, k: int) -> int
    decreases pixels.len(),
{
    if pixels.len() == 0 {
        0
    } else {
        count_assigned(pixels.drop_last(), k) + if pixels.last().assigned_cluster == k {
            1int
        } else {
            0int
        }
    }
}

/// The number of pixels assigned to cluster index `k`.
pub fn count_assigned_to(pixels: &Vec<CPixel>, k: usize) -> (count: usize)
    ensures
        count == count_assigned(pixels@, k as int),
{
    let mut count: usize = 0;
    for j in 0..pixels.len()
        invariant
            count == count_assigned(pixels@.take(j as int), k as int),
            count <= j,
    {
        proof {
            assert(pixels@.take(j + 1).drop_last() =~= pixels@.take(j as int));
        }
        if pixels[j].assigned_cluster == k {
            count = count + 1;
        }
    }
    proof {
        assert(pixels@.take(pixels.len() as int) =~= pixels@);
    }
    count
}

/// The member count of each of the first `n` cluster indices fits in a `u32`.
pub open spec fn counts_fit(pixels: Seq<CPixel>, n: int) -> bool {
    forall|k: int| 0 <= k < n ==> #[trigger] count_assigned(pixels, k) <= u32::MAX
}

proof fn lemma_count_assigned_prefix(pixels: Seq<CPixel>, k: int, j: int)
    requires
        0 <= j <= pixels.len(),
    ensures
        0 <= count_assigned(pixels.take(j), k) <= count_assigned(pixels, k),
    decreases pixels.len(),
{
    if j == pixels.len() {
        assert(pixels.take(j) =~= pixels);
        lemma_count_assigned_nonneg(pixels, k);
    } else {
        lemma_count_assigned_prefix(pixels.drop_last(), k, j);
        assert(pixels.drop_last().take(j) =~= pixels.take(j));
    }
}

proof fn lemma_count_assigned_nonneg(pixels: Seq<CPixel>, k: int)
    ensures
        0 <= count_assigned(pixels, k),
    decreases pixels.len(),
{
    if pixels.len() > 0 {
        lemma_count_assigned_nonneg(pixels.drop_last(), k);
    }
}

/// Counts, for each cluster index below `num_clusters`, the pixels assigned
/// to it. Returns `None` exactly when a count would overflow a `u32`.
pub fn count_cluster_members(pixels: &Vec<CPixel>, num_clusters: usize) -> (res: Option<Vec<u32>>)
    ensures
        res is Some <==> counts_fit(pixels@, num_clusters as int),
        res matches Some(counts) ==> {
            &&& counts.len() == num_clusters
            &&& forall|k: int| 0 <= k < num_clusters ==> #[trigger] counts[k] == count_assigned(pixels@, k)
        },
{
    let mut counts: Vec<u32> = Vec::new();
    for n in 0..num_clusters
        invariant
            counts.len() == n,
            forall|k: int| 0 <= k < n ==> #[trigger] counts[k] == count_assigned(pixels@, k),
    {
        let mut count: u32 = 0;
        for j in 0..pixels.len()
            invariant
                n < num_clusters,
                count == count_assigned(pixels@.take(j as int), n as int),
        {
            proof {
                assert(pixels@.take(j + 1).drop_last() =~= pixels@.take(j as int));
                lemma_count_assigned_prefix(pixels@, n as int, j + 1);
            }
            if pixels[j].assigned_cluster == n {
                count = match count.checked_add(1) {
                    Some(v) => v,
                    None => return None,
                };
            }
        }
        proof {
            assert(pixels@.take(pixels.len() as int) =~= pixels@);
        }
        counts.push(count);
    }
    proof {
        assert forall|k: int| 0 <= k < num_clusters implies #[trigger] count_assigned(pixels@, k) <= u32::MAX by {
            assert(counts[k] == count_assigned(pixels@, k));
        }
    }
    Some(counts)
}

/// Some cluster has no member.
pub open spec fn has_empty_cluster(counts: Seq<u32>) -> bool {
    exists|k: int| 0 <= k < counts.len() && counts[k] == 0
}

/// When some cluster has lost all its members, starts over: the iteration
/// count goes back to zero and the first `num_clusters` clusters are drawn at
/// random again (once for each empty cluster). Otherwise nothing changes.
pub fn reset_empty_clusters(
    clusters: &mut Vec<Cluster>,
    counts: &Vec<u32>,
    iteration: &mut usize,
    num_clusters: usize,
    w: u32,
    h: u32,
)
    requires
        has_empty_cluster(counts@) ==> num_clusters <= old(clusters).len() && (num_clusters > 0
            ==> w > 0 && h > 0),
    ensures
        final(clusters).len() == old(clusters).len(),
        !has_empty_cluster(counts@) ==> final(clusters)@ == old(clusters)@ && *final(iteration)
            == *old(iteration),
        has_empty_cluster(counts@) ==> {
            &&& *final(iteration) == 0
            &&& forall|i: int| 0 <= i < num_clusters ==> is_random_start(#[trigger] final(clusters)[i], w, h)
            &&& forall|i: int| num_clusters <= i < old(clusters).len() ==> #[trigger] final(clusters)[i] == old(clusters)[i]
        },
{
    let ghost original = clusters@;
    let ghost original_iteration = *iteration;
    for k in 0..counts.len()
        invariant
            has_empty_cluster(counts@) ==> num_clusters <= original.len() && (num_clusters > 0
                ==> w > 0 && h > 0),
            clusters.len() == original.len(),
            !(exists|j: int| 0 <= j < k && counts@[j] == 0) ==> clusters@ == original && *iteration
                == original_iteration,
            (exists|j: int| 0 <= j < k && counts@[j] == 0) ==> {
                &&& *iteration == 0
                &&& forall|i: int| 0 <= i < num_clusters ==> is_random_start(#[trigger] clusters[i], w, h)
                &&& forall|i: int| num_clusters <= i < original.len() ==> #[trigger] clusters[i] == original[i]
            },
    {
        if counts[k] == 0 {
            assert(has_empty_cluster(counts@));
            *iteration = 0;
            let new_clusters = build_random_clusters(num_clusters, w, h);
            let ghost before = clusters@;
            for i in 0..num_clusters
                invariant
                    num_clusters <= original.len(),
                    new_clusters.len() == num_clusters,
                    forall|j: int| 0 <= j < num_clusters ==> is_random_start(#[trigger] new_clusters[j], w, h),
                    clusters.len() == original.len(),
                    forall|j: int| 0 <= j < i ==> #[trigger] clusters[j] == new_clusters[j],
                    forall|j: int| i <= j < original.len() ==> #[trigger] clusters[j] == before[j],
            {
                clusters.set(i, new_clusters[i]);
            }
            proof {
                assert forall|i: int| num_clusters <= i < original.len() implies #[trigger] clusters[i] == original[i] by {
                    if !(exists|j: int| 0 <= j < k && counts@[j] == 0) {
                        assert(before == original);
                    }
                }
            }
        }
    }
}

/// The index of the first cluster with the lowest red channel.
pub open spec fn is_first_least_red(clusters: Seq<Cluster>, k: int) -> bool {
    &&& 0 <= k < clusters.len()
    &&& forall|j: int| 0 <= j < clusters.len() ==> clusters[k].r <= #[trigger] clusters[j].r
    &&& forall|j: int| 0 <= j < k ==> #[trigger] clusters[j].r > clusters[k].r
}

/// Picks the cluster that stands for the (dark) slate target: the first
/// cluster with the lowest red channel; 0 when there is no cluster.
pub fn select_target_cluster(clusters: &Vec<Cluster>) -> (k: usize)
    ensures
        clusters.len() == 0 ==> k == 0,
        clusters.len() > 0 ==> is_first_least_red(clusters@, k as int),
{
    let mut selected_cluster_num: usize = 0;
    for i in 0..clusters.len()
        invariant
            i > 0 ==> selected_cluster_num < i,
            i == 0 ==> selected_cluster_num == 0,
            forall|j: int| 0 <= j < i ==> clusters@[selected_cluster_num as int].r <= #[trigger] clusters@[j].r,
            forall|j: int| 0 <= j < selected_cluster_num ==> #[trigger] clusters@[j].r > clusters@[selected_cluster_num as int].r,
    {
        if clusters[selected_cluster_num].r > clusters[i].r {
            selected_cluster_num = i;
        }
    }
    selected_cluster_num
}

/// Number of k-means iterations after which clustering stops, converged or
/// not.
pub const MAX_ITERATIONS: usize = 10;

/// The convergence value that a fresh clustering starts with.
pub const INITIAL_CVAL: usize = 255;

/// The state of a k-means clustering between its iterations. The assignment
/// of pixels to clusters, which compares floating-point distances, happens
/// outside; `end_iteration` does the rest of an iteration.
#[derive(Debug)]
pub struct KmeansState {
    pub clusters: Vec<Cluster>,
    pub iteration: usize,
    pub cval: usize,
    pub num_clusters: usize,
    pub w: u32,
    pub h: u32,
    pub final_counts: Vec<u32>,
}

/// The member counts that `count_cluster_members` hands back.
pub open spec fn are_member_counts(counts: Seq<u32>, pixels: Seq<CPixel>, n: int) -> bool {
    &&& counts.len() == n
    &&& forall|k: int| 0 <= k < n ==> #[trigger] counts[k] == count_assigned(pixels, k)
}

impl KmeansState {
    /// The clusters number `num_clusters`, and random clusters can be drawn
    /// for the image.
    pub open spec fn wf(&self) -> bool {
        &&& self.clusters.len() == self.num_clusters
        &&& self.num_clusters > 0 ==> self.w > 0 && self.h > 0
    }

    /// Starts a clustering of a `w` by `h` image into `num_clusters` clusters
    /// drawn at random.
    pub fn new(num_clusters: usize, w: u32, h: u32) -> (s: Self)
        requires
            num_clusters > 0 ==> w > 0 && h > 0,
        ensures
            s.wf(),
            s.num_clusters == num_clusters,
            s.w == w,
            s.h == h,
            s.iteration == 0,
            s.cval == INITIAL_CVAL,
            s.final_counts@.len() == 0,
            forall|i: int| 0 <= i < num_clusters ==> is_random_start(#[trigger] s.clusters[i], w, h),
    {
        let clusters = build_random_clusters(num_clusters, w, h);
        KmeansState {
            clusters,
            iteration: 0,
            cval: INITIAL_CVAL,
            num_clusters,
            w,
            h,
            final_counts: Vec::with_capacity(num_clusters),
        }
    }

    /// Another iteration is due: the clusters still moved by more than twice
    /// their number in the last one, and fewer than `MAX_ITERATIONS`
    /// iterations have run since the (last) start.
    pub fn should_continue(&self) -> (b: bool)
        ensures
            b == (self.cval > 2 * self.num_clusters && self.iteration < MAX_ITERATIONS),
    {
        self.cval > self.num_clusters && self.cval - self.num_clusters > self.num_clusters
            && self.iteration < MAX_ITERATIONS
    }

    /// Finishes an iteration once the pixels have been (re)assigned: moves
    /// the clusters to their centroids, measures how far their colours moved,
    /// counts the iteration, counts the members of each cluster, and starts
    /// over from random clusters when a cluster has lost all its members.
    /// Returns `false`, with nothing promised of the state but its
    /// well-formedness, exactly when a member sum or count would overflow a
    /// `u32` or a channel total of the clusters an `isize`.
    pub fn end_iteration(&mut self, pixels: &Vec<CPixel>) -> (ok: bool)
        requires
            old(self).wf(),
            assignments_below(pixels@, old(self).num_clusters as int),
            old(self).iteration < usize::MAX,
        ensures
            final(self).wf(),
            final(self).num_clusters == old(self).num_clusters,
            final(self).w == old(self).w,
            final(self).h == old(self).h,
            ok <==> update_fits(old(self).clusters@, pixels@) && total_channel_sum(
                old(self).clusters@,
            ) <= isize::MAX && total_channel_sum(
                recomputed(old(self).clusters@, pixels@, old(self).num_clusters as int),
            ) <= isize::MAX && counts_fit(pixels@, old(self).num_clusters as int),
            ok ==> {
                let moved = recomputed(
                    old(self).clusters@,
                    pixels@,
                    old(self).num_clusters as int,
                );
                &&& final(self).cval == cluster_sum_diff(moved, old(self).clusters@)
                &&& are_member_counts(
                    final(self).final_counts@,
                    pixels@,
                    old(self).num_clusters as int,
                )
                &&& !has_empty_cluster(final(self).final_counts@) ==> {
                    &&& final(self).iteration == old(self).iteration + 1
                    &&& final(self).clusters@ == moved
                }
                &&& has_empty_cluster(final(self).final_counts@) ==> {
                    &&& final(self).iteration == 0
                    &&& forall|i: int|
                        0 <= i < old(self).num_clusters ==> is_random_start(
                            #[trigger] final(self).clusters[i],
                            old(self).w,
                            old(self).h,
                        )
                }
            },
    {
        let prev_clusters = copy_clusters(&self.clusters);
        let moved = match update_clusters(&self.clusters, pixels) {
            Some(v) => v,
            None => return false,
        };
        proof {
            lemma_recomputed_len(prev_clusters@, pixels@, prev_clusters.len() as int);
        }
        if !channel_total_fits(&moved) || !channel_total_fits(&prev_clusters) {
            return false;
        }
        let moved_copy = copy_clusters(&moved);
        self.clusters = moved;
        self.cval = check_cluster_sum_diff(moved_copy, prev_clusters);
        self.iteration = self.iteration + 1;
        let counts = match count_cluster_members(pixels, self.num_clusters) {
            Some(c) => c,
            None => return false,
        };
        reset_empty_clusters(
            &mut self.clusters,
            &counts,
            &mut self.iteration,
            self.num_clusters,
            self.w,
            self.h,
        );
        self.final_counts = counts;
        true
    }
}

/// The member counts of the first `n` cluster indices, added up.
pub open spec fn sum_counts(pixels: Seq<CPixel>, n: int) -> int
    decreases n,
{
    if n <= 0 {
        0
    } else {
        sum_counts(pixels, n - 1) + count_assigned(pixels, n - 1)
    }
}

proof fn lemma_sum_counts_step(pixels: Seq<CPixel>, n: int)
    requires
        pixels.len() > 0,
        0 <= n,
    ensures
        sum_counts(pixels, n) == sum_counts(pixels.drop_last(), n) + if pixels.last().assigned_cluster
            < n {
            1int
        } else {
            0int
        },
    decreases n,
{
    if n > 0 {
        lemma_sum_counts_step(pixels, n - 1);
    }
}

/// When every pixel is assigned to one of `n` clusters, the member counts of
/// those clusters add up to the number of pixels: each pixel is counted once.
pub proof fn lemma_every_pixel_counted_once(pixels: Seq<CPixel>, n: int)
    requires
        0 <= n,
        assignments_below(pixels, n),
    ensures
        sum_counts(pixels, n) == pixels.len(),
    decreases pixels.len(),
{
    if pixels.len() == 0 {
        lemma_sum_counts_empty(pixels, n);
    } else {
        let t = pixels.drop_last();
        assert(assignments_below(t, n)) by {
            assert forall|k: int| 0 <= k < t.len() implies #[trigger] t[k].assigned_cluster < n by {
                assert(t[k] == pixels[k]);
            }
        }
        lemma_every_pixel_counted_once(t, n);
        lemma_sum_counts_step(pixels, n);
        assert(pixels.last().assigned_cluster < n) by {
            assert(pixels[pixels.len() - 1].assigned_cluster < n);
        }
    }
}

proof fn lemma_sum_counts_empty(pixels: Seq<CPixel>, n: int)
    requires
        pixels.len() == 0,
        0 <= n,
    ensures
        sum_counts(pixels, n) == 0,
    decreases n,
{
    if n > 0 {
        lemma_sum_counts_empty(pixels, n - 1);
    }
}

/// Clusters that the update leaves where they were measure no movement, so a
/// clustering that has reached a fixed point does not go on.
pub proof fn lemma_fixed_point_stops(clusters: Seq<Cluster>)
    ensures
        cluster_sum_diff(clusters, clusters) == 0,
        !(cluster_sum_diff(clusters, clusters) > 2 * clusters.len()),
{
}

} // verus!
