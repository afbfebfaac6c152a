use vstd::prelude::*;

verus! {

/// Width of a stereo image in pixels.
pub const WIDTH: usize = 2208;

/// Height of a stereo image in pixels.
pub const HEIGHT: usize = 1242;

/// One csv line of a stereo image: pixel column, pixel row, the camera-space
/// coordinates x, y, z (each the bit pattern of an `f32`, as `f32::to_bits`
/// gives it), and the pixel's r, g, b.
pub type Record = (u32, u32, u32, u32, u32, u8, u8, u8);

/// A pixel of the stereo image: its position, its camera-space coordinates
/// (bit patterns of `f32`s) and its colour.
#[derive(Debug, Clone, Copy, PartialEq, Eq, Structural)]
pub struct StereoPixel {
    pub pixel_x: u32,
    pub pixel_y: u32,
    pub x: u32,
    pub y: u32,
    pub z: u32,
    pub r: u8,
    pub g: u8,
    pub b: u8,
}

/// The pixel that stands where no record fell: every field zero (the bit
/// pattern of `0.0f32` is zero too).
pub open spec fn zero_pixel() -> StereoPixel {
    StereoPixel { pixel_x: 0, pixel_y: 0, x: 0, y: 0, z: 0, r: 0, g: 0, b: 0 }
}

impl StereoPixel {
    /// The all-zero pixel.
    pub fn default() -> (p: Self)
        ensures
            p == zero_pixel(),
    {
        StereoPixel { pixel_x: 0, pixel_y: 0, x: 0, y: 0, z: 0, r: 0, g: 0, b: 0 }
    }
}

/// Number of cells of the grid that records are placed on: one per pixel and
/// one more.
pub open spec fn grid_len() -> int {
    WIDTH * HEIGHT + 1
}

/// The cell a record is placed in: rows of `WIDTH` pixels one after another.
pub open spec fn record_index(rec: Record) -> int {
    WIDTH * rec.1 + rec.0
}

/// The pixel that a record describes.
pub open spec fn record_pixel(rec: Record) -> StereoPixel {
    StereoPixel {
        pixel_x: rec.0,
        pixel_y: rec.1,
        x: rec.2,
        y: rec.3,
        z: rec.4,
        r: rec.5,
        g: rec.6,
        b: rec.7,
    }
}

/// Every record of `records` falls inside the grid.
pub open spec fn records_in_grid(records: Seq<Record>) -> bool {
    forall|k: int| 0 <= k < records.len() ==> #[trigger] record_index(records[k]) < grid_len()
}

/// The grid after the records have been written into it one after another,
/// starting from a grid of zero pixels.
pub open spec fn place_records(records: Seq<Record>) -> Seq<StereoPixel>
    decreases records.len(),
{
    if records.len() == 0 {
        Seq::new(grid_len() as nat, |i: int| zero_pixel())
    } else {
        place_records(records.drop_last()).update(
            record_index(records.last()),
            record_pixel(records.last()),
        )
    }
}

proof fn lemma_place_records_len(records: Seq<Record>)
    requires
        records_in_grid(records),
    ensures
        place_records(records).len() == grid_len(),
    decreases records.len(),
{
    if records.len() > 0 {
        let prefix = records.drop_last();
        assert forall|k: int| 0 <= k < prefix.len() implies #[trigger] record_index(prefix[k]) < grid_len() by {
            assert(prefix[k] == records[k]);
        }
        lemma_place_records_len(prefix);
        assert(record_index(records[records.len() - 1]) < grid_len());
    }
}

/// Lays the records of a stereo image out on the grid of `WIDTH * HEIGHT + 1`
/// pixels, each record at `WIDTH * row + column`; a later record for the same
/// cell overwrites an earlier one, and cells without a record hold the zero
/// pixel.
pub fn convert_records_to_array(records: &Vec<Record>) -> (arr: Vec<StereoPixel>)
    requires
        records_in_grid(records@),
    ensures
        arr@ == place_records(records@),
{
    let n_cells: usize = WIDTH * HEIGHT + 1;
    let mut arr: Vec<StereoPixel> = Vec::with_capacity(WIDTH * HEIGHT);
    for _k in 0..n_cells
        invariant
            n_cells == grid_len(),
            arr.len() == _k,
            forall|j: int| 0 <= j < arr.len() ==> #[trigger] arr[j] == zero_pixel(),
    {
        arr.push(StereoPixel::default());
    }
    proof {
        assert(arr@ =~= place_records(records@.take(0)));
    }
    let mut i: usize = 0;
    while i < records.len()
        invariant
            records_in_grid(records@),
            0 <= i <= records.len(),
            arr@ == place_records(records@.take(i as int)),
        decreases records.len() - i,
    {
        let rec = records[i];
        proof {
            assert(record_index(records@[i as int]) < grid_len());
            assert forall|k: int| 0 <= k < i implies #[trigger] record_index(records@.take(i as int)[k]) < grid_len() by {
                assert(records@.take(i as int)[k] == records@[k]);
            }
            lemma_place_records_len(records@.take(i as int));
            assert(records@.take(i as int + 1).drop_last() =~= records@.take(i as int));
        }
        let col = rec.0 as usize;
        let row = rec.1 as usize;
        let pixel = StereoPixel {
            pixel_x: rec.0,
            pixel_y: rec.1,
            x: rec.2,
            y: rec.3,
            z: rec.4,
            r: rec.5,
            g: rec.6,
            b: rec.7,
        };
        arr.set((WIDTH * row) + col, pixel);
        i = i + 1;
    }
    proof {
        assert(records@.take(records.len() as int) =~= records@);
    }
    arr
}

/// The cell that the last record for it falls into holds that record's
/// fields in order (pixel column, pixel row, x, y, z, r, g, b), and the cell
/// is the one its column and row name: `WIDTH * pixel_y + pixel_x`.
pub proof fn lemma_placed_cell_holds_record_fields(records: Seq<Record>, k: int)
    requires
        records_in_grid(records),
        0 <= k < records.len(),
        forall|j: int|
            k < j < records.len() ==> #[trigger] record_index(records[j]) != record_index(records[k]),
    ensures
        ({
            let rec = records[k];
            let p = place_records(records)[WIDTH * rec.1 + rec.0];
            &&& p.pixel_x == rec.0
            &&& p.pixel_y == rec.1
            &&& p.x == rec.2
            &&& p.y == rec.3
            &&& p.z == rec.4
            &&& p.r == rec.5
            &&& p.g == rec.6
            &&& p.b == rec.7
            &&& WIDTH * p.pixel_y + p.pixel_x == WIDTH * rec.1 + rec.0
        }),
{
    let cell = record_index(records[k]);
    assert(cell < grid_len());
    lemma_last_record_wins(records, cell);
}

/// Placing records is "last write wins": a cell holds the pixel of the last
/// record that falls into it, and the zero pixel when none does.
pub proof fn lemma_last_record_wins(records: Seq<Record>, cell: int)
    requires
        records_in_grid(records),
        0 <= cell < grid_len(),
    ensures
        (forall|k: int| 0 <= k < records.len() ==> #[trigger] record_index(records[k]) != cell)
            ==> place_records(records)[cell] == zero_pixel(),
        forall|k: int|
            0 <= k < records.len() && #[trigger] record_index(records[k]) == cell && (forall|j: int|
                k < j < records.len() ==> #[trigger] record_index(records[j]) != cell)
                ==> place_records(records)[cell] == record_pixel(records[k]),
    decreases records.len(),
{
    lemma_place_records_len(records);
    if records.len() == 0 {
        assert(place_records(records)[cell] == zero_pixel());
    } else {
        let prefix = records.drop_last();
        let last = records.len() - 1;
        assert forall|k: int| 0 <= k < prefix.len() implies #[trigger] record_index(prefix[k]) < grid_len() by {
            assert(prefix[k] == records[k]);
        }
        assert(record_index(records[last]) < grid_len());
        lemma_last_record_wins(prefix, cell);
        lemma_place_records_len(prefix);
        assert(records[last] == records.last());
        if record_index(records[last]) == cell {
            assert(place_records(records)[cell] == record_pixel(records[last]));
            assert forall|k: int|
                0 <= k < records.len() && #[trigger] record_index(records[k]) == cell && (forall|j: int|
                    k < j < records.len() ==> #[trigger] record_index(records[j]) != cell) implies
                place_records(records)[cell] == record_pixel(records[k]) by {
                if k < last {
                    assert(record_index(records[last]) != cell);
                }
            }
        } else {
            assert(place_records(records)[cell] == place_records(prefix)[cell]);
            assert forall|k: int|
                0 <= k < records.len() && #[trigger] record_index(records[k]) == cell && (forall|j: int|
                    k < j < records.len() ==> #[trigger] record_index(records[j]) != cell) implies
                place_records(records)[cell] == record_pixel(records[k]) by {
                assert(k < last);
                assert(prefix[k] == records[k]);
                assert forall|j: int| k < j < prefix.len() implies #[trigger] record_index(prefix[j]) != cell by {
                    assert(prefix[j] == records[j]);
                }
            }
            if forall|k: int| 0 <= k < records.len() ==> #[trigger] record_index(records[k]) != cell {
                assert forall|k: int| 0 <= k < prefix.len() implies #[trigger] record_index(prefix[k]) != cell by {
                    assert(prefix[k] == records[k]);
                }
            }
        }
    }
}

} // verus!
