//! The integral image: for every position of every channel of an image, the
//! sum of the channel's values from the first column and row up to that
//! position, from which the sum over any rectangle takes four reads.

use crate::util::dif_code_image::DifCodeImage;
use ndarray::Array3;
use vstd::prelude::*;

verus! {

/// A table of sums with one cell for every column, row and channel. It holds
/// a three-dimensional array of the `ndarray` crate, of which only the
/// functions below know.
#[verifier::external_body]
pub struct IntegralRgbImage(Array3<u32>);

/// The cells of a table, by column, row and channel.
pub uninterp spec fn table_cells(table: IntegralRgbImage) -> Map<(int, int, int), u32>;

/// The number of columns of a table.
pub uninterp spec fn table_width(table: IntegralRgbImage) -> nat;

/// The number of rows of a table.
pub uninterp spec fn table_height(table: IntegralRgbImage) -> nat;

/// The sum of the values of channel `z` in row `y` from the first column up
/// to and including column `x`.
pub open spec fn row_prefix(image: DifCodeImage, x: int, y: int, z: int) -> int
    decreases x + 1,
{
    if x < 0 {
        0
    } else {
        image.channel(x, y, z) + row_prefix(image, x - 1, y, z)
    }
}

/// The sum of the values of channel `z` over all columns up to and including
/// `x` and all rows up to and including `y`.
pub open spec fn area_prefix(image: DifCodeImage, x: int, y: int, z: int) -> int
    decreases y + 1,
{
    if y < 0 {
        0
    } else {
        row_prefix(image, x, y, z) + area_prefix(image, x, y - 1, z)
    }
}

/// The sum of the values of channel `z` over the columns after `x1` up to
/// `x2` and the rows after `y1` up to `y2`.
pub open spec fn area_total(image: DifCodeImage, x1: int, y1: int, x2: int, y2: int, z: int) -> int {
    area_prefix(image, x2, y2, z) + area_prefix(image, x1, y1, z) - area_prefix(image, x2, y1, z)
        - area_prefix(image, x1, y2, z)
}

/// The sums of a row grow with the column, by at most 255 for each one.
pub proof fn lemma_row_prefix_grows(image: DifCodeImage, x1: int, x2: int, y: int, z: int)
    requires
        -1 <= x1 <= x2,
    ensures
        0 <= row_prefix(image, x2, y, z) - row_prefix(image, x1, y, z) <= 255 * (x2 - x1),
    decreases x2 - x1,
{
    if x1 < x2 {
        lemma_row_prefix_grows(image, x1, x2 - 1, y, z);
    }
}

/// The sum over a rectangle is not negative, and at most 255 for each of its
/// positions.
pub proof fn lemma_area_total_bounds(
    image: DifCodeImage,
    x1: int,
    y1: int,
    x2: int,
    y2: int,
    z: int,
)
    requires
        -1 <= x1 <= x2,
        -1 <= y1 <= y2,
    ensures
        0 <= area_total(image, x1, y1, x2, y2, z) <= 255 * ((x2 - x1) * (y2 - y1)),
    decreases y2 - y1,
{
    if y1 < y2 {
        lemma_area_total_bounds(image, x1, y1, x2, y2 - 1, z);
        lemma_row_prefix_grows(image, x1, x2, y2, z);
        assert(255 * ((x2 - x1) * (y2 - 1 - y1)) + 255 * (x2 - x1) == 255 * ((x2 - x1) * (y2 - y1)))
            by (nonlinear_arith);
    } else {
        assert((x2 - x1) * (y2 - y1) == 0) by (nonlinear_arith)
            requires
                y2 - y1 == 0,
        ;
    }
}

/// Before the first column there is nothing to sum.
pub proof fn lemma_area_prefix_before_first_column(image: DifCodeImage, y: int, z: int)
    ensures
        area_prefix(image, -1, y, z) == 0,
    decreases y + 1,
{
    if y >= 0 {
        lemma_area_prefix_before_first_column(image, y - 1, z);
    }
}

/// A sum from the first column and row on is not negative, and at most 255
/// for each position that it covers.
pub proof fn lemma_area_prefix_bounds(image: DifCodeImage, x: int, y: int, z: int)
    requires
        -1 <= x,
        -1 <= y,
    ensures
        0 <= area_prefix(image, x, y, z) <= 255 * ((x + 1) * (y + 1)),
{
    lemma_area_total_bounds(image, -1, -1, x, y, z);
    lemma_area_prefix_before_first_column(image, y, z);
    lemma_area_prefix_before_first_column(image, -1, z);
}

/// The rule by which an integral image is filled: the sum at a position is
/// the value there, plus the sums at the positions before it in its row and
/// in its column, minus the sum at the position before both, where a sum at
/// a position outside the image is 0.
pub proof fn lemma_area_prefix_rule(image: DifCodeImage, x: int, y: int, z: int)
    requires
        0 <= x,
        0 <= y,
    ensures
        area_prefix(image, x, y, z) == image.channel(x, y, z) + area_prefix(image, x - 1, y, z)
            + area_prefix(image, x, y - 1, z) - area_prefix(image, x - 1, y - 1, z),
{
}

/// Whether a table of `width` columns and `height` rows can be made: the
/// number of its cells, and of those it would have if no side were 0, is an
/// `isize`, and so is the number of their bytes.
pub open spec fn fits_table(width: int, height: int) -> bool {
    &&& 3 * ((if width == 0 { 1 } else { width }) * (if height == 0 { 1 } else { height }))
        <= isize::MAX
    &&& 12 * (width * height) <= isize::MAX
}

/// The first column of the window of `radius` columns around `x`.
pub open spec fn window_start(position: int, radius: int) -> int {
    if position >= radius {
        position - radius
    } else {
        0
    }
}

/// The last column of the window of `radius` columns around `x` in a table
/// of `extent` columns.
pub open spec fn window_end(position: int, radius: int, extent: int) -> int {
    if position + radius <= extent - 1 {
        position + radius
    } else {
        extent - 1
    }
}

impl IntegralRgbImage {
    /// The number of columns.
    pub open spec fn spec_width(&self) -> nat {
        table_width(*self)
    }

    /// The number of rows.
    pub open spec fn spec_height(&self) -> nat {
        table_height(*self)
    }

    /// The cell of column `x`, row `y` and channel `z`.
    pub open spec fn cell(&self, x: int, y: int, z: int) -> u32 {
        table_cells(*self)[(x, y, z)]
    }

    /// The cell of column `x`, row `y` and channel `z`, and 0 before the
    /// first column and before the first row.
    pub open spec fn cell_or_0(&self, x: int, y: int, z: int) -> int {
        if x < 0 || y < 0 {
            0
        } else {
            self.cell(x, y, z) as int
        }
    }

    /// Whether `(x, y, z)` is a position of the table.
    pub open spec fn holds(&self, x: int, y: int, z: int) -> bool {
        0 <= x < self.spec_width() && 0 <= y < self.spec_height() && 0 <= z < 3
    }

    /// Whether every cell holds the sum of the values of `image` up to its
    /// position.
    pub open spec fn is_integral_of(&self, image: DifCodeImage) -> bool {
        &&& self.spec_width() == image.spec_width()
        &&& self.spec_height() == image.spec_height()
        &&& forall|x: int, y: int, z: int|
            self.holds(x, y, z) ==> #[trigger] self.cell(x, y, z) == area_prefix(image, x, y, z)
    }

    /// What `calculate_area_sum` returns: the cell of the far corner plus
    /// the cell of the near corner, minus the cells of the two other corners.
    pub open spec fn spec_area_sum(&self, x1: int, y1: int, x2: int, y2: int, z: int) -> int {
        self.cell(x2, y2, z) + self.cell(x1, y1, z) - self.cell(x2, y1, z) - self.cell(x1, y2, z)
    }

    /// Whether the cells of the four corners are such as sums are: those of
    /// farther corners are larger, and grow by more along the longer side.
    pub open spec fn corners_ascend(&self, x1: int, y1: int, x2: int, y2: int, z: int) -> bool {
        &&& self.cell(x2, y1, z) <= self.cell(x2, y2, z)
        &&& self.cell(x1, y1, z) <= self.cell(x1, y2, z)
        &&& self.cell(x1, y2, z) - self.cell(x1, y1, z) <= self.cell(x2, y2, z) - self.cell(
            x2,
            y1,
            z,
        )
    }

    /// A table of `columns` by `rows` by `channels` cells that are all 0.
    /// Calls `Array3::zeros`, which panics where the product of the axis
    /// lengths that are not 0 overflows an `isize`, and allocates four bytes
    /// for each cell. Every table is made here, with three channels.
    #[verifier::external_body]
    fn zeroed(columns: u32, rows: u32, channels: u32) -> (table: IntegralRgbImage)
        requires
            channels == 3,
            fits_table(columns as int, rows as int),
        ensures
            table_width(table) == columns,
            table_height(table) == rows,
            forall|x: int, y: int, z: int|
                0 <= x < columns && 0 <= y < rows && 0 <= z < channels ==> #[trigger] table_cells(
                    table,
                )[(x, y, z)] == 0,
    {
        IntegralRgbImage(Array3::<u32>::zeros([columns as usize, rows as usize, channels as usize]))
    }

    /// A table of `w` columns and `h` rows whose cells are all 0.
    pub fn zeros(w: u32, h: u32) -> (table: IntegralRgbImage)
        requires
            fits_table(w as int, h as int),
        ensures
            table.spec_width() == w,
            table.spec_height() == h,
            forall|x: int, y: int, z: int| table.holds(x, y, z) ==> #[trigger] table.cell(x, y, z) == 0,
    {
        IntegralRgbImage::zeroed(w, h, 3)
    }

    /// Reads a cell by indexing the array, which panics outside its shape:
    /// the width, the height and the three channels with which it was made.
    #[verifier::external_body]
    pub fn get_at(&self, x: u32, y: u32, z: u32) -> (cell: u32)
        requires
            x < table_width(*self),
            y < table_height(*self),
            z < 3,
        ensures
            cell == table_cells(*self)[(x as int, y as int, z as int)],
    {
        self.0[[x as usize, y as usize, z as usize]]
    }

    /// Overwrites a cell by indexing the array, which panics outside its
    /// shape. The table keeps its shape and every other cell.
    #[verifier::external_body]
    fn put_at(&mut self, x: u32, y: u32, z: u32, value: u32)
        requires
            x < table_width(*old(self)),
            y < table_height(*old(self)),
            z < 3,
        ensures
            table_width(*final(self)) == table_width(*old(self)),
            table_height(*final(self)) == table_height(*old(self)),
            table_cells(*final(self)) == table_cells(*old(self)).insert(
                (x as int, y as int, z as int),
                value,
            ),
    {
        self.0[[x as usize, y as usize, z as usize]] = value;
    }

    /// Overwrites the cell of column `x`, row `y` and channel `z`.
    pub fn set_at(&mut self, x: u32, y: u32, z: u32, value: u32)
        requires
            old(self).holds(x as int, y as int, z as int),
        ensures
            final(self).spec_width() == old(self).spec_width(),
            final(self).spec_height() == old(self).spec_height(),
            final(self).cell(x as int, y as int, z as int) == value,
            forall|i: int, j: int, k: int|
                (i, j, k) != (x as int, y as int, z as int) ==> #[trigger] final(self).cell(i, j, k)
                    == old(self).cell(i, j, k),
    {
        self.put_at(x, y, z, value);
    }

    /// The length of the first axis, from `ArrayBase::shape`. A table is
    /// only made by `zeros`, so the length is a `u32`.
    #[verifier::external_body]
    pub fn width(&self) -> (width: u32)
        ensures
            width == table_width(*self),
    {
        self.0.shape()[0] as u32
    }

    /// The length of the second axis, from `ArrayBase::shape`. A table is
    /// only made by `zeros`, so the length is a `u32`.
    #[verifier::external_body]
    pub fn height(&self) -> (height: u32)
        ensures
            height == table_height(*self),
    {
        self.0.shape()[1] as u32
    }

    pub fn get_at_p(&self, p: (u32, u32, u32)) -> (cell: u32)
        requires
            self.holds(p.0 as int, p.1 as int, p.2 as int),
        ensures
            cell == self.cell(p.0 as int, p.1 as int, p.2 as int),
    {
        self.get_at(p.0, p.1, p.2)
    }

    /// The cell one row before `(x, y, z)`, and 0 in the first row.
    pub fn get_ymm_or_0(&self, x: u32, y: u32, z: u32) -> (cell: u32)
        requires
            self.holds(x as int, y as int, z as int),
        ensures
            cell == self.cell_or_0(x as int, y - 1, z as int),
    {
        if y > 0 {
            self.get_at(x, y - 1, z)
        } else {
            0
        }
    }

    /// The cell one column before `(x, y, z)`, and 0 in the first column.
    pub fn get_xmm_or_0(&self, x: u32, y: u32, z: u32) -> (cell: u32)
        requires
            self.holds(x as int, y as int, z as int),
        ensures
            cell == self.cell_or_0(x - 1, y as int, z as int),
    {
        if x > 0 {
            self.get_at(x - 1, y, z)
        } else {
            0
        }
    }

    /// The cell one column and one row before `(x, y, z)`, and 0 in the
    /// first column and in the first row.
    pub fn get_xmm_and_ymm_or_0(&self, x: u32, y: u32, z: u32) -> (cell: u32)
        requires
            self.holds(x as int, y as int, z as int),
        ensures
            cell == self.cell_or_0(x - 1, y - 1, z as int),
    {
        if x > 0 && y > 0 {
            self.get_at(x - 1, y - 1, z)
        } else {
            0
        }
    }

    /// The sum over the columns after `near_x` up to `far_x` and the rows after
    /// `near_y` up to `far_y`, from the cells of the four corners. The first
    /// corner must not lie behind the second, and the cells must be such as
    /// sums are.
    pub fn calculate_area_sum(&self, near_x: u32, near_y: u32, far_x: u32, far_y: u32, z: u32) -> (sum:
        u32)
        requires
            near_x <= far_x,
            near_y <= far_y,
            self.holds(far_x as int, far_y as int, z as int),
            self.corners_ascend(near_x as int, near_y as int, far_x as int, far_y as int, z as int),
        ensures
            sum == self.spec_area_sum(near_x as int, near_y as int, far_x as int, far_y as int, z as int),
    {
        let (a_x, a_y) = (near_x, near_y);
        let (d_x, d_y) = (far_x, far_y);
        let (b_x, b_y) = (d_x, a_y);
        let (c_x, c_y) = (a_x, d_y);
        (self.get_at(d_x, d_y, z) - self.get_at(b_x, b_y, z)) - (self.get_at(c_x, c_y, z)
            - self.get_at(a_x, a_y, z))
    }

    /// As `calculate_area_sum`, between two positions of one channel.
    pub fn calculate_area_sum_at_ps(&self, near: (u32, u32, u32), far: (u32, u32, u32)) -> (sum: u32)
        requires
            near.2 == far.2,
            near.0 <= far.0,
            near.1 <= far.1,
            self.holds(far.0 as int, far.1 as int, far.2 as int),
            self.corners_ascend(near.0 as int, near.1 as int, far.0 as int, far.1 as int, near.2 as int),
        ensures
            sum == self.spec_area_sum(
                near.0 as int,
                near.1 as int,
                far.0 as int,
                far.1 as int,
                near.2 as int,
            ),
    {
        self.calculate_area_sum(near.0, near.1, far.0, far.1, near.2)
    }

    /// The sum over the window around `(x, y)`, divided by the number of its
    /// positions, as a byte. The window reaches `radius` columns and rows to
    /// each side as far as the table goes, without its first column and row;
    /// it must have a column and a row left.
    pub fn average_in_radius(&self, x: u32, y: u32, z: u32, radius: u32) -> (average: u8)
        requires
            self.holds(x as int, y as int, z as int),
            x + radius <= u32::MAX,
            y + radius <= u32::MAX,
            window_start(x as int, radius as int) < window_end(
                x as int,
                radius as int,
                self.spec_width() as int,
            ),
            window_start(y as int, radius as int) < window_end(
                y as int,
                radius as int,
                self.spec_height() as int,
            ),
            (window_end(x as int, radius as int, self.spec_width() as int) - window_start(
                x as int,
                radius as int,
            )) * (window_end(y as int, radius as int, self.spec_height() as int) - window_start(
                y as int,
                radius as int,
            )) <= u32::MAX,
            self.corners_ascend(
                window_start(x as int, radius as int),
                window_start(y as int, radius as int),
                window_end(x as int, radius as int, self.spec_width() as int),
                window_end(y as int, radius as int, self.spec_height() as int),
                z as int,
            ),
        ensures
            average as int == (self.spec_area_sum(
                window_start(x as int, radius as int),
                window_start(y as int, radius as int),
                window_end(x as int, radius as int, self.spec_width() as int),
                window_end(y as int, radius as int, self.spec_height() as int),
                z as int,
            ) / ((window_end(x as int, radius as int, self.spec_width() as int) - window_start(
                x as int,
                radius as int,
            )) * (window_end(y as int, radius as int, self.spec_height() as int) - window_start(
                y as int,
                radius as int,
            )))) % 256,
    {
        let x_min: u32 = if x >= radius {
            x - radius
        } else {
            0
        };
        let y_min: u32 = if y >= radius {
            y - radius
        } else {
            0
        };
        let reach_x: u32 = x + radius;
        let last_x: u32 = self.width() - 1;
        let x_max: u32 = if reach_x <= last_x {
            reach_x
        } else {
            last_x
        };
        let reach_y: u32 = y + radius;
        let last_y: u32 = self.height() - 1;
        let y_max: u32 = if reach_y <= last_y {
            reach_y
        } else {
            last_y
        };
        let total_pixels_considered: u32 = (x_max - x_min) * (y_max - y_min);
        assert(total_pixels_considered > 0) by (nonlinear_arith)
            requires
                total_pixels_considered == (x_max - x_min) * (y_max - y_min),
                x_max > x_min,
                y_max > y_min,
        ;
        let quotient: u32 = self.calculate_area_sum(x_min, y_min, x_max, y_max, z)
            / total_pixels_considered;
        (quotient % 256) as u8
    }
}

/// In the integral image of an image, the cells at the corners of a
/// rectangle are such as `calculate_area_sum` needs them, and what it returns
/// is the sum of the image's values over the rectangle.
pub proof fn lemma_integral_area_sum(
    table: IntegralRgbImage,
    image: DifCodeImage,
    x1: int,
    y1: int,
    x2: int,
    y2: int,
    z: int,
)
    requires
        table.is_integral_of(image),
        0 <= x1 <= x2 < table.spec_width(),
        0 <= y1 <= y2 < table.spec_height(),
        0 <= z < 3,
    ensures
        table.corners_ascend(x1, y1, x2, y2, z),
        table.spec_area_sum(x1, y1, x2, y2, z) == area_total(image, x1, y1, x2, y2, z),
        0 <= area_total(image, x1, y1, x2, y2, z) <= 255 * ((x2 - x1) * (y2 - y1)),
{
    assert(table.holds(x1, y1, z) && table.holds(x1, y2, z) && table.holds(x2, y1, z)
        && table.holds(x2, y2, z));
    assert(table.cell(x1, y1, z) == area_prefix(image, x1, y1, z));
    assert(table.cell(x1, y2, z) == area_prefix(image, x1, y2, z));
    assert(table.cell(x2, y1, z) == area_prefix(image, x2, y1, z));
    assert(table.cell(x2, y2, z) == area_prefix(image, x2, y2, z));
    lemma_area_total_bounds(image, x1, y1, x2, y2, z);
    lemma_area_total_bounds(image, -1, y1, x2, y2, z);
    lemma_area_total_bounds(image, -1, y1, x1, y2, z);
    lemma_area_prefix_before_first_column(image, y1, z);
    lemma_area_prefix_before_first_column(image, y2, z);
}

} // verus!
