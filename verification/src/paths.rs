use vstd::prelude::*;

verus! {

/// The directory under which the stereo image csv files are kept:
/// `stereo_image_csvs/`.
pub open spec fn csv_dir_marker() -> Seq<u8> {
    seq![
        's' as u8, 't' as u8, 'e' as u8, 'r' as u8, 'e' as u8, 'o' as u8, '_' as u8, 'i' as u8,
        'm' as u8, 'a' as u8, 'g' as u8, 'e' as u8, '_' as u8, 'c' as u8, 's' as u8, 'v' as u8,
        's' as u8, '/' as u8,
    ]
}

/// The csv file extension: `.csv`.
pub open spec fn csv_extension() -> Seq<u8> {
    seq!['.' as u8, 'c' as u8, 's' as u8, 'v' as u8]
}

/// The directory that processed images are written to: `processed_images/`.
pub open spec fn processed_dir() -> Seq<u8> {
    seq![
        'p' as u8, 'r' as u8, 'o' as u8, 'c' as u8, 'e' as u8, 's' as u8, 's' as u8, 'e' as u8,
        'd' as u8, '_' as u8, 'i' as u8, 'm' as u8, 'a' as u8, 'g' as u8, 'e' as u8, 's' as u8,
        '/' as u8,
    ]
}

/// The png file extension: `.png`.
pub open spec fn png_extension() -> Seq<u8> {
    seq!['.' as u8, 'p' as u8, 'n' as u8, 'g' as u8]
}

/// The separator in front of the frame number in a file stem: `_`.
pub open spec fn frame_separator() -> u8 {
    '_' as u8
}

fn csv_dir_marker_bytes() -> (v: Vec<u8>)
    ensures
        v@ == csv_dir_marker(),
{
    vec![
        's' as u8, 't' as u8, 'e' as u8, 'r' as u8, 'e' as u8, 'o' as u8, '_' as u8, 'i' as u8,
        'm' as u8, 'a' as u8, 'g' as u8, 'e' as u8, '_' as u8, 'c' as u8, 's' as u8, 'v' as u8,
        's' as u8, '/' as u8,
    ]
}

fn csv_extension_bytes() -> (v: Vec<u8>)
    ensures
        v@ == csv_extension(),
{
    vec!['.' as u8, 'c' as u8, 's' as u8, 'v' as u8]
}

fn processed_dir_bytes() -> (v: Vec<u8>)
    ensures
        v@ == processed_dir(),
{
    vec![
        'p' as u8, 'r' as u8, 'o' as u8, 'c' as u8, 'e' as u8, 's' as u8, 's' as u8, 'e' as u8,
        'd' as u8, '_' as u8, 'i' as u8, 'm' as u8, 'a' as u8, 'g' as u8, 'e' as u8, 's' as u8,
        '/' as u8,
    ]
}

fn png_extension_bytes() -> (v: Vec<u8>)
    ensures
        v@ == png_extension(),
{
    vec!['.' as u8, 'p' as u8, 'n' as u8, 'g' as u8]
}

/// `pat` occurs in `s` starting at index `i`.
pub open spec fn occurs_at(s: Seq<u8>, pat: Seq<u8>, i: int) -> bool {
    &&& 0 <= i
    &&& i + pat.len() <= s.len()
    &&& s.subrange(i, i + pat.len()) == pat
}

/// The first index at or after `start` where `pat` occurs in `s`, or -1.
pub open spec fn find_from(s: Seq<u8>, pat: Seq<u8>, start: int) -> int
    decreases s.len() + 1 - start,
{
    if start < 0 || start + pat.len() > s.len() {
        -1
    } else if occurs_at(s, pat, start) {
        start
    } else {
        find_from(s, pat, start + 1)
    }
}

/// Where the piece of `s` that begins at `start` ends when `s` is split at
/// the occurrences of `pat`: at the next occurrence, or at the end of `s`.
pub open spec fn piece_end(s: Seq<u8>, pat: Seq<u8>, start: int) -> int {
    let f = find_from(s, pat, start);
    if f < 0 {
        s.len() as int
    } else {
        f
    }
}

/// The first piece of `s` split at the occurrences of `pat`: everything
/// before the first occurrence.
pub open spec fn first_piece(s: Seq<u8>, pat: Seq<u8>) -> Seq<u8> {
    s.subrange(0, piece_end(s, pat, 0))
}

/// The second piece of `s` split at the occurrences of `pat`: what lies
/// between the first occurrence and the next one (or the end of `s`). Meant
/// for an `s` in which `pat` occurs.
pub open spec fn second_piece(s: Seq<u8>, pat: Seq<u8>) -> Seq<u8> {
    let b = find_from(s, pat, 0) + pat.len();
    s.subrange(b, piece_end(s, pat, b))
}

/// The last piece of `s` split at the byte `c`: everything after the last
/// `c`, or all of `s` when there is none.
pub open spec fn after_last(s: Seq<u8>, c: u8) -> Seq<u8>
    decreases s.len(),
{
    if s.len() == 0 {
        s
    } else if s.last() == c {
        Seq::empty()
    } else {
        after_last(s.drop_last(), c).push(s.last())
    }
}

/// The file stem of a stereo image csv path: the path piece after
/// `stereo_image_csvs/`, up to the first `.csv`.
pub open spec fn record_stem(filename: Seq<u8>) -> Seq<u8> {
    first_piece(second_piece(filename, csv_dir_marker()), csv_extension())
}

/// The path of the processed image for a csv path:
/// `processed_images/<stem>.png`.
pub open spec fn processed_image_path(filename: Seq<u8>) -> Seq<u8> {
    processed_dir() + record_stem(filename) + png_extension()
}

/// The frame number of a csv path: what follows the last `_` of the stem.
pub open spec fn frame_number(filename: Seq<u8>) -> Seq<u8> {
    after_last(record_stem(filename), frame_separator())
}

proof fn lemma_find_from_skip(s: Seq<u8>, pat: Seq<u8>, start: int, i: int)
    requires
        0 <= start <= i,
        forall|j: int| start <= j < i ==> !#[trigger] occurs_at(s, pat, j),
    ensures
        i + pat.len() <= s.len() ==> find_from(s, pat, start) == find_from(s, pat, i),
    decreases i - start,
{
    if start < i {
        lemma_find_from_skip(s, pat, start + 1, i);
    }
}

proof fn lemma_find_from_result(s: Seq<u8>, pat: Seq<u8>, start: int)
    requires
        0 <= start,
    ensures
        find_from(s, pat, start) == -1 || (start <= find_from(s, pat, start) && occurs_at(
            s,
            pat,
            find_from(s, pat, start),
        )),
        find_from(s, pat, start) == -1 ==> forall|j: int| start <= j ==> !#[trigger] occurs_at(s, pat, j),
        forall|j: int| start <= j < find_from(s, pat, start) ==> !#[trigger] occurs_at(s, pat, j),
    decreases s.len() + 1 - start,
{
    if start + pat.len() <= s.len() && !occurs_at(s, pat, start) {
        lemma_find_from_result(s, pat, start + 1);
    }
}

/// `pat` occurs in `s` at index `i`.
fn matches_at(s: &[u8], pat: &[u8], i: usize) -> (b: bool)
    requires
        i + pat.len() <= s.len(),
    ensures
        b == occurs_at(s@, pat@, i as int),
{
    let m = pat.len();
    let mut k: usize = 0;
    while k < m
        invariant
            m == pat.len(),
            i + m <= s.len(),
            0 <= k <= m,
            forall|j: int| 0 <= j < k ==> s@[i + j] == pat@[j],
        decreases m - k,
    {
        if s[i + k] != pat[k] {
            proof {
                assert(s@.subrange(i as int, i + m)[k as int] != pat@[k as int]);
            }
            return false;
        }
        k = k + 1;
    }
    proof {
        assert(s@.subrange(i as int, i + m) =~= pat@);
    }
    true
}

/// The first index at or after `start` where `pat` occurs in `s`.
pub fn find_pattern(s: &[u8], pat: &[u8], start: usize) -> (res: Option<usize>)
    ensures
        match res {
            Some(i) => find_from(s@, pat@, start as int) == i,
            None => find_from(s@, pat@, start as int) == -1,
        },
{
    if pat.len() > s.len() || start > s.len() - pat.len() {
        return None;
    }
    let last = s.len() - pat.len();
    let mut i: usize = start;
    loop
        invariant
            last == s.len() - pat.len(),
            start <= i <= last,
            forall|j: int| start <= j < i ==> !#[trigger] occurs_at(s@, pat@, j),
        ensures
            forall|j: int| start <= j <= last ==> !#[trigger] occurs_at(s@, pat@, j),
        decreases last - i,
    {
        if matches_at(s, pat, i) {
            proof {
                lemma_find_from_skip(s@, pat@, start as int, i as int);
            }
            return Some(i);
        }
        if i == last {
            break;
        }
        i = i + 1;
    }
    proof {
        lemma_find_from_result(s@, pat@, start as int);
        if find_from(s@, pat@, start as int) != -1 {
            let f = find_from(s@, pat@, start as int);
            assert(!occurs_at(s@, pat@, f));
        }
    }
    None
}

/// Copies `s[from..to]` onto the end of `out`.
fn append_range(out: &mut Vec<u8>, s: &[u8], from: usize, to: usize)
    requires
        from <= to <= s.len(),
    ensures
        final(out)@ == old(out)@ + s@.subrange(from as int, to as int),
{
    let ghost start = out@;
    let mut k: usize = from;
    while k < to
        invariant
            from <= k <= to <= s.len(),
            out@ == start + s@.subrange(from as int, k as int),
        decreases to - k,
    {
        out.push(s[k]);
        proof {
            assert(s@.subrange(from as int, k + 1) =~= s@.subrange(from as int, k as int).push(s@[k as int]));
        }
        k = k + 1;
    }
}

/// The path holds `stereo_image_csvs/`, as `image_path_and_frame_number`
/// needs.
pub fn holds_csv_dir_marker(filename: &[u8]) -> (b: bool)
    ensures
        b == (find_from(filename@, csv_dir_marker(), 0) >= 0),
{
    let marker = csv_dir_marker_bytes();
    match find_pattern(filename, marker.as_slice(), 0) {
        Some(_) => true,
        None => false,
    }
}

/// The names that go with a stereo image csv path: the path of its processed
/// image, `processed_images/<stem>.png`, and its frame number, where the stem
/// is the path piece after `stereo_image_csvs/` up to the first `.csv` and the
/// frame number is what follows the stem's last `_`. The path must hold
/// `stereo_image_csvs/`.
pub fn image_path_and_frame_number(filename: &[u8]) -> (res: (Vec<u8>, Vec<u8>))
    requires
        find_from(filename@, csv_dir_marker(), 0) >= 0,
    ensures
        res.0@ == processed_image_path(filename@),
        res.1@ == frame_number(filename@),
{
    let marker = csv_dir_marker_bytes();
    let extension = csv_extension_bytes();
    let first = match find_pattern(filename, marker.as_slice(), 0) {
        Some(i) => i,
        None => 0,
    };
    proof {
        lemma_find_from_result(filename@, csv_dir_marker(), 0);
        assert(marker@.len() == 18);
        assert(occurs_at(filename@, marker@, first as int));
        assert(filename@.len() == filename.len());
        assert(marker@.len() == marker.len());
    }
    let begin = first + marker.len();
    let end = match find_pattern(filename, marker.as_slice(), begin) {
        Some(i) => i,
        None => filename.len(),
    };
    proof {
        lemma_find_from_result(filename@, csv_dir_marker(), begin as int);
    }
    let mut piece: Vec<u8> = Vec::new();
    append_range(&mut piece, filename, begin, end);
    let stem_end = match find_pattern(piece.as_slice(), extension.as_slice(), 0) {
        Some(i) => i,
        None => piece.len(),
    };
    proof {
        lemma_find_from_result(piece@, csv_extension(), 0);
    }
    let mut stem: Vec<u8> = Vec::new();
    append_range(&mut stem, piece.as_slice(), 0, stem_end);
    proof {
        assert(piece@ =~= second_piece(filename@, csv_dir_marker()));
        assert(stem@ =~= record_stem(filename@));
    }
    let mut image_path = processed_dir_bytes();
    append_range(&mut image_path, stem.as_slice(), 0, stem.len());
    let png = png_extension_bytes();
    append_range(&mut image_path, png.as_slice(), 0, png.len());
    proof {
        assert(stem@.subrange(0, stem@.len() as int) =~= stem@);
        assert(png@.subrange(0, png@.len() as int) =~= png@);
    }
    let frame = frame_number_of(&stem);
    (image_path, frame)
}

/// What follows the last `_` of `stem`, or all of it.
fn frame_number_of(stem: &Vec<u8>) -> (frame: Vec<u8>)
    ensures
        frame@ == after_last(stem@, frame_separator()),
{
    let n = stem.len();
    let mut k: usize = n;
    proof {
        assert(stem@.take(n as int) =~= stem@);
        assert(stem@.subrange(n as int, n as int) =~= Seq::<u8>::empty());
    }
    while k > 0 && stem[k - 1] != '_' as u8
        invariant
            n == stem.len(),
            0 <= k <= n,
            after_last(stem@, frame_separator()) == after_last(stem@.take(k as int), frame_separator())
                + stem@.subrange(k as int, n as int),
        decreases k,
    {
        proof {
            let t = stem@.take(k as int);
            assert(t.drop_last() =~= stem@.take(k - 1));
            assert(stem@.subrange(k - 1, n as int) =~= seq![t.last()] + stem@.subrange(k as int, n as int));
            assert(after_last(t, frame_separator()) =~= after_last(stem@.take(k - 1), frame_separator()).push(t.last()));
        }
        k = k - 1;
    }
    proof {
        if k > 0 {
            assert(stem@.take(k as int).last() == frame_separator());
        }
        assert(after_last(stem@.take(k as int), frame_separator()) =~= Seq::<u8>::empty());
    }
    let mut frame: Vec<u8> = Vec::new();
    append_range(&mut frame, stem.as_slice(), k, n);
    proof {
        assert(after_last(stem@, frame_separator()) =~= stem@.subrange(k as int, n as int));
    }
    frame
}

proof fn lemma_after_last(s: Seq<u8>, c: u8)
    ensures
        after_last(s, c).len() <= s.len(),
        after_last(s, c) == s.subrange(s.len() - after_last(s, c).len(), s.len() as int),
        forall|j: int| 0 <= j < after_last(s, c).len() ==> #[trigger] after_last(s, c)[j] != c,
    decreases s.len(),
{
    if s.len() > 0 && s.last() != c {
        let t = s.drop_last();
        lemma_after_last(t, c);
        let a = after_last(t, c);
        assert(after_last(s, c) =~= t.subrange(t.len() - a.len(), t.len() as int).push(s.last()));
        assert(after_last(s, c) =~= s.subrange(s.len() - after_last(s, c).len(), s.len() as int));
    } else if s.len() > 0 {
        assert(s.subrange(s.len() as int, s.len() as int) =~= Seq::<u8>::empty());
    }
}

/// The frame number of a csv path is a suffix of its stem that holds no `_`.
pub proof fn lemma_frame_number_is_last_segment(filename: Seq<u8>)
    ensures
        ({
            let stem = record_stem(filename);
            let frame = frame_number(filename);
            &&& frame.len() <= stem.len()
            &&& frame == stem.subrange(stem.len() - frame.len(), stem.len() as int)
            &&& forall|j: int| 0 <= j < frame.len() ==> #[trigger] frame[j] != frame_separator()
        }),
{
    lemma_after_last(record_stem(filename), frame_separator());
}

/// `.csv` occurs nowhere in the stem of a csv path, and the processed image
/// path is the stem between `processed_images/` and `.png`.
pub proof fn lemma_stem_has_no_extension(filename: Seq<u8>)
    requires
        find_from(filename, csv_dir_marker(), 0) >= 0,
    ensures
        forall|j: int| !#[trigger] occurs_at(record_stem(filename), csv_extension(), j),
        processed_image_path(filename).subrange(0, 17) == processed_dir(),
        processed_image_path(filename).subrange(
            processed_image_path(filename).len() - 4,
            processed_image_path(filename).len() as int,
        ) == png_extension(),
{
    let piece = second_piece(filename, csv_dir_marker());
    let stem = record_stem(filename);
    let end = piece_end(piece, csv_extension(), 0);
    lemma_find_from_result(filename, csv_dir_marker(), 0);
    lemma_find_from_result(filename, csv_dir_marker(), find_from(filename, csv_dir_marker(), 0) + 18);
    lemma_find_from_result(piece, csv_extension(), 0);
    assert forall|j: int| !#[trigger] occurs_at(stem, csv_extension(), j) by {
        if occurs_at(stem, csv_extension(), j) {
            assert(stem.subrange(j, j + 4) =~= piece.subrange(j, j + 4));
            assert(occurs_at(piece, csv_extension(), j));
            assert(j + 4 <= end);
        }
    }
    let p = processed_image_path(filename);
    assert(p.subrange(0, 17) =~= processed_dir());
    assert(p.subrange(p.len() - 4, p.len() as int) =~= png_extension());
}

} // verus!
