# process_stereo_image_csvs

Estimates the area of a slate target filmed by a ZED stereo camera. Each
frame arrives as a csv file of pixels (image position, camera-space x, y, z,
and colour); the pixels are clustered by colour with k-means, the cluster
with the least red is taken to be the target, and its pixels' distances give its area.

Layout:

- `src/` — the verified library (Verus):
  - `stereo.rs`: laying csv records out on the image grid;
  - `clustering.rs`: clusters, random starting clusters, the perceptual colour
    distance and the initial assignment of pixels to clusters;
  - `kmeans.rs`: one k-means iteration — reassignment by colour, centroid
    update, convergence measure, member counts, restart on an empty cluster —
    and the choice of the target cluster;
  - `paths.rs`: the processed-image path and frame number of a csv path;
  - `random.rs`: the random number generator, behind trusted wrappers.
- `app/` — the program around it: command line, csv reading, images,
  floating-point metrics and area sums, the C entry points, and the optics
  calculations with their Python plots.
- `tests/` — tests of the library.
