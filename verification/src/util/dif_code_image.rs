//! The carrier as an image: the channel values of an RGB image, addressed
//! channel by channel, all of the first channel before the second.

use crate::util::integral_rgb_image::{
    area_prefix, fits_table, lemma_area_prefix_before_first_column, lemma_area_prefix_bounds,
    lemma_row_prefix_grows, IntegralRgbImage,
};
use crate::util::EncodingContainer;
use image::DynamicImage;
use image::RgbImage;
use vstd::prelude::*;

verus! {

/// An RGB image whose channel values the codecs read and write. It holds an
/// image buffer of the `image` crate, of which only the functions below know.
#[verifier::external_body]
#[derive(Debug)]
pub struct DifCodeImage(RgbImage);

/// The channel values of the pixels of an image, pixel by pixel in rows from
/// the top, three for each pixel.
pub uninterp spec fn image_samples(image: DifCodeImage) -> Seq<u8>;

/// The number of pixels in a row of an image.
pub uninterp spec fn image_width(image: DifCodeImage) -> nat;

/// The number of rows of an image.
pub uninterp spec fn image_height(image: DifCodeImage) -> nat;

/// Where the value of channel `z` of the pixel in column `x` of row `y` stands
/// among the channel values of an image that is `width` pixels wide.
pub open spec fn sample_position(width: nat, x: int, y: int, z: int) -> int {
    (y * width + x) * 3 + z
}

/// The index at which a container of `width * height` pixels holds channel
/// `z` of the pixel in column `x` of row `y`: all of channel 0 comes first,
/// row by row, then channel 1, then channel 2.
pub open spec fn planar_index(width: nat, height: nat, x: int, y: int, z: int) -> int {
    z * (width * height) + y * width + x
}

/// The column of the pixel to which the container's `index` belongs.
pub open spec fn x_of_index(width: nat, height: nat, index: int) -> int {
    (index % ((width * height) as int)) % (width as int)
}

/// The row of the pixel to which the container's `index` belongs.
pub open spec fn y_of_index(width: nat, height: nat, index: int) -> int {
    (index % ((width * height) as int)) / (width as int)
}

/// The channel to which the container's `index` belongs.
pub open spec fn z_of_index(width: nat, height: nat, index: int) -> int {
    index / ((width * height) as int)
}

/// An index of a container of pixels belongs to one channel of one pixel of
/// the image, and it is the index of that channel of that pixel.
pub proof fn lemma_index_to_xyz(width: nat, height: nat, index: int)
    requires
        0 <= index < 3 * width * height,
    ensures
        width * height > 0,
        0 <= x_of_index(width, height, index) < width,
        0 <= y_of_index(width, height, index) < height,
        0 <= z_of_index(width, height, index) < 3,
        planar_index(
            width,
            height,
            x_of_index(width, height, index),
            y_of_index(width, height, index),
            z_of_index(width, height, index),
        ) == index,
        0 <= sample_position(
            width,
            x_of_index(width, height, index),
            y_of_index(width, height, index),
            z_of_index(width, height, index),
        ) < 3 * width * height,
{
    let area = (width * height) as int;
    assert(3 * width * height == 3 * area) by (nonlinear_arith)
        requires
            area == width * height,
    ;
    assert(area > 0);
    assert(width > 0 && height > 0) by (nonlinear_arith)
        requires
            area > 0,
            area == width * height,
    ;
    let rest = index % area;
    let z = index / area;
    vstd::arithmetic::div_mod::lemma_fundamental_div_mod(index, area);
    vstd::arithmetic::div_mod::lemma_mod_bound(index, area);
    assert(0 <= z < 3) by (nonlinear_arith)
        requires
            index == area * z + rest,
            0 <= rest < area,
            0 <= index < 3 * area,
    ;
    let x = rest % (width as int);
    let y = rest / (width as int);
    vstd::arithmetic::div_mod::lemma_fundamental_div_mod(rest, width as int);
    vstd::arithmetic::div_mod::lemma_mod_bound(rest, width as int);
    assert(0 <= y < height) by (nonlinear_arith)
        requires
            rest == width * y + x,
            0 <= x < width,
            0 <= rest < width * height,
    ;
    assert(z * area + y * width + x == index) by (nonlinear_arith)
        requires
            index == area * z + rest,
            rest == width * y + x,
    ;
    assert(y * width + x == rest) by (nonlinear_arith)
        requires
            rest == width * y + x,
    ;
    assert(0 <= (y * width + x) * 3 + z < 3 * area);
}

/// Different indices of a container of pixels belong to different channel
/// values of the image.
pub proof fn lemma_sample_positions_differ(width: nat, height: nat, first: int, second: int)
    requires
        0 <= first < 3 * width * height,
        0 <= second < 3 * width * height,
        first != second,
    ensures
        sample_position(
            width,
            x_of_index(width, height, first),
            y_of_index(width, height, first),
            z_of_index(width, height, first),
        ) != sample_position(
            width,
            x_of_index(width, height, second),
            y_of_index(width, height, second),
            z_of_index(width, height, second),
        ),
{
    lemma_index_to_xyz(width, height, first);
    lemma_index_to_xyz(width, height, second);
    let area = (width * height) as int;
    let first_pixel = y_of_index(width, height, first) * width + x_of_index(width, height, first);
    let second_pixel = y_of_index(width, height, second) * width + x_of_index(
        width,
        height,
        second,
    );
    let first_z = z_of_index(width, height, first);
    let second_z = z_of_index(width, height, second);
    if first_pixel * 3 + first_z == second_pixel * 3 + second_z {
        assert(first_pixel == second_pixel && first_z == second_z);
        assert(first_z * area == second_z * area);
        assert(false);
    }
}

impl DifCodeImage {
    /// The number of pixels in a row.
    pub open spec fn spec_width(&self) -> nat {
        image_width(*self)
    }

    /// The number of rows.
    pub open spec fn spec_height(&self) -> nat {
        image_height(*self)
    }

    /// The value of channel `z` of the pixel in column `x` of row `y`.
    pub open spec fn channel(&self, x: int, y: int, z: int) -> u8 {
        image_samples(*self)[sample_position(image_width(*self), x, y, z)]
    }

    /// A black image of `width` by `height` pixels. Calls
    /// `DynamicImage::new_rgb8`, which allocates a zeroed buffer of three
    /// values for each pixel and panics where their number overflows, and
    /// `DynamicImage::into_rgb8`, which hands that buffer out.
    #[verifier::external_body]
    pub fn with_capacity(width: u32, height: u32) -> (image: DifCodeImage)
        requires
            3 * width * height <= isize::MAX,
        ensures
            image_width(image) == width,
            image_height(image) == height,
            image_samples(image) == Seq::new((3 * width * height) as nat, |position: int| 0u8),
    {
        DifCodeImage(DynamicImage::new_rgb8(width, height).into_rgb8())
    }

    /// Calls `ImageBuffer::from_raw`, which returns the image of `width` by
    /// `height` pixels where `samples` holds at least three values for each
    /// pixel, and nothing where it holds fewer or their number overflows.
    #[verifier::external_body]
    fn from_raw(width: u32, height: u32, samples: Vec<u8>) -> (image: Option<DifCodeImage>)
        ensures
            image is Some <==> 3 * width * height <= samples@.len(),
            image matches Some(made) ==> {
                &&& image_width(made) == width
                &&& image_height(made) == height
                &&& image_samples(made) == samples@.take(3 * width * height)
            },
    {
        match RgbImage::from_raw(width, height, samples) {
            Some(buffer) => Some(DifCodeImage(buffer)),
            None => None,
        }
    }

    /// An image of `width` by `height` pixels from their channel values,
    /// pixel by pixel in rows from the top, three for each pixel. There is no
    /// such image where `samples` holds fewer values; values beyond those of
    /// the pixels are not part of the image.
    pub fn from_samples(width: u32, height: u32, samples: Vec<u8>) -> (image: Option<DifCodeImage>)
        ensures
            image is Some <==> 3 * width * height <= samples@.len(),
            image matches Some(made) ==> {
                &&& made.spec_width() == width
                &&& made.spec_height() == height
                &&& image_samples(made) == samples@.take(3 * width * height)
            },
    {
        DifCodeImage::from_raw(width, height, samples)
    }

    /// Calls `ImageBuffer::width`. An image buffer holds three values for
    /// each of its pixels in one allocation, so their number is three times
    /// the number of pixels and fits an `isize`.
    #[verifier::external_body]
    pub fn width(&self) -> (width: u32)
        ensures
            width == image_width(*self),
            image_samples(*self).len() == 3 * width * image_height(*self),
            3 * width * image_height(*self) <= isize::MAX,
    {
        self.0.width()
    }

    /// Calls `ImageBuffer::height`, and states of the number of channel
    /// values what `width` states.
    #[verifier::external_body]
    pub fn height(&self) -> (height: u32)
        ensures
            height == image_height(*self),
            image_samples(*self).len() == 3 * image_width(*self) * height,
            3 * image_width(*self) * height <= isize::MAX,
    {
        self.0.height()
    }

    /// The value of channel `z` of the pixel in column `x` of row `y`. Calls
    /// `ImageBuffer::get_pixel`, which panics outside the image and returns
    /// the pixel whose three values start at `(y * width + x) * 3`.
    #[verifier::external_body]
    pub fn get_rgorb(&self, x: u32, y: u32, z: u32) -> (value: u8)
        requires
            x < image_width(*self),
            y < image_height(*self),
            z < 3,
        ensures
            value == image_samples(*self)[sample_position(
                image_width(*self),
                x as int,
                y as int,
                z as int,
            )],
    {
        self.0.get_pixel(x, y).0[z as usize]
    }

    /// Overwrites channel `z` of the pixel in column `x` of row `y` through
    /// `ImageBuffer::get_pixel_mut`, which panics outside the image. The
    /// image keeps its size and every other channel value.
    #[verifier::external_body]
    fn put_rgorb(&mut self, x: u32, y: u32, z: u32, value: u8)
        requires
            x < image_width(*old(self)),
            y < image_height(*old(self)),
            z < 3,
        ensures
            image_width(*final(self)) == image_width(*old(self)),
            image_height(*final(self)) == image_height(*old(self)),
            image_samples(*final(self)) == image_samples(*old(self)).update(
                sample_position(image_width(*old(self)), x as int, y as int, z as int),
                value,
            ),
    {
        self.0.get_pixel_mut(x, y).0[z as usize] = value;
    }
}

impl DifCodeImage {
    /// The column, the row and the channel to which `index` belongs in a
    /// container of `width` by `height` pixels.
    pub fn index_to_xyz_with_wh(index: usize, width: u32, height: u32) -> (xyz: (u32, u32, u32))
        requires
            width * height > 0,
            z_of_index(width as nat, height as nat, index as int) <= u32::MAX,
        ensures
            xyz.0 == x_of_index(width as nat, height as nat, index as int),
            xyz.1 == y_of_index(width as nat, height as nat, index as int),
            xyz.2 == z_of_index(width as nat, height as nat, index as int),
    {
        assert(width > 0 && height > 0 && width * height <= 0xffff_ffff * 0xffff_ffff)
            by (nonlinear_arith)
            requires
                width * height > 0,
                width <= 0xffff_ffff,
                height <= 0xffff_ffff,
        ;
        let area: u64 = width as u64 * height as u64;
        let position: u64 = index as u64;
        let z: u64 = position / area;
        let rest: u64 = position % area;
        let y: u64 = rest / width as u64;
        let x: u64 = rest % width as u64;
        proof {
            vstd::arithmetic::div_mod::lemma_fundamental_div_mod(rest as int, width as int);
            assert(y < height) by (nonlinear_arith)
                requires
                    rest == width * y + x,
                    0 <= x < width,
                    0 <= rest < width * height,
            ;
        }
        (x as u32, y as u32, z as u32)
    }

    /// The column, the row and the channel to which `index` belongs.
    pub fn index_to_xyz(&self, index: usize) -> (xyz: (u32, u32, u32))
        requires
            self.spec_width() * self.spec_height() > 0,
            z_of_index(self.spec_width(), self.spec_height(), index as int) <= u32::MAX,
        ensures
            xyz.0 == x_of_index(self.spec_width(), self.spec_height(), index as int),
            xyz.1 == y_of_index(self.spec_width(), self.spec_height(), index as int),
            xyz.2 == z_of_index(self.spec_width(), self.spec_height(), index as int),
    {
        DifCodeImage::index_to_xyz_with_wh(index, self.width(), self.height())
    }

    /// The three channel values of the pixel in column `x` of row `y`.
    pub fn get_pixel(&self, x: u32, y: u32) -> (pixel: [u8; 3])
        requires
            x < self.spec_width(),
            y < self.spec_height(),
        ensures
            pixel[0] == self.channel(x as int, y as int, 0),
            pixel[1] == self.channel(x as int, y as int, 1),
            pixel[2] == self.channel(x as int, y as int, 2),
    {
        [self.get_rgorb(x, y, 0), self.get_rgorb(x, y, 1), self.get_rgorb(x, y, 2)]
    }
}

impl EncodingContainer for DifCodeImage {
    /// The channel values of the image, all of channel 0 first, row by row,
    /// then channel 1, then channel 2.
    open spec fn values(&self) -> Seq<u8> {
        Seq::new(
            3 * self.spec_width() * self.spec_height(),
            |index: int|
                self.channel(
                    x_of_index(self.spec_width(), self.spec_height(), index),
                    y_of_index(self.spec_width(), self.spec_height(), index),
                    z_of_index(self.spec_width(), self.spec_height(), index),
                ),
        )
    }

    open spec fn dimensions(&self) -> (nat, nat) {
        (self.spec_width(), self.spec_height())
    }

    fn len(&self) -> (length: usize) {
        let width: usize = self.width() as usize;
        let height: usize = self.height() as usize;
        assert(width * height <= 3 * width * height) by (nonlinear_arith)
            requires
                0 <= width,
                0 <= height,
        ;
        assert(width * height * 3 == 3 * width * height) by (nonlinear_arith);
        width * height * 3
    }

    fn value_at(&self, index: usize) -> (value: u8) {
        proof {
            lemma_index_to_xyz(self.spec_width(), self.spec_height(), index as int);
        }
        let (x, y, z) = self.index_to_xyz(index);
        self.get_rgorb(x, y, z)
    }

    fn set_value_at(&mut self, index: usize, value: u8) {
        let ghost width = self.spec_width();
        let ghost height = self.spec_height();
        let ghost before = self.values();
        let ghost samples = image_samples(*self);
        proof {
            lemma_index_to_xyz(width, height, index as int);
        }
        let (x, y, z) = DifCodeImage::index_to_xyz_with_wh(index, self.width(), self.height());
        self.put_rgorb(x, y, z, value);
        proof {
            let written = sample_position(width, x as int, y as int, z as int);
            assert(image_samples(*self) == samples.update(written, value));
            assert forall|other: int| 0 <= other < before.len() implies self.values()[other]
                == before.update(index as int, value)[other] by {
                lemma_index_to_xyz(width, height, other);
                let position = sample_position(
                    width,
                    x_of_index(width, height, other),
                    y_of_index(width, height, other),
                    z_of_index(width, height, other),
                );
                assert(self.values()[other] == image_samples(*self)[position]);
                assert(before[other] == samples[position]);
                if other != index {
                    lemma_sample_positions_differ(width, height, other, index as int);
                    assert(position != written);
                }
            }
            assert(self.values() =~= before.update(index as int, value));
        }
    }
}

impl DifCodeImage {
    /// The integral image of this image: for every position of every
    /// channel the sum of the channel's values from the first column and row
    /// up to that position. The sums must fit their cells.
    pub fn generate_integral_image_for_rgb(&self) -> (integral_image: IntegralRgbImage)
        requires
            255 * (self.spec_width() * self.spec_height()) <= u32::MAX,
            fits_table(self.spec_width() as int, self.spec_height() as int),
        ensures
            integral_image.is_integral_of(*self),
    {
        let width: u32 = self.width();
        let height: u32 = self.height();
        let mut integral_image: IntegralRgbImage = IntegralRgbImage::zeros(width, height);
        let mut x: u32 = 0;
        while x < width
            invariant
                x <= width,
                width == self.spec_width(),
                height == self.spec_height(),
                integral_image.spec_width() == width,
                integral_image.spec_height() == height,
                255 * (width * height) <= u32::MAX,
                forall|i: int, j: int, k: int|
                    integral_image.holds(i, j, k) && i < x ==> #[trigger] integral_image.cell(
                        i,
                        j,
                        k,
                    ) == area_prefix(*self, i, j, k),
            decreases width - x,
        {
            let mut y: u32 = 0;
            while y < height
                invariant
                    x < width,
                    y <= height,
                    width == self.spec_width(),
                    height == self.spec_height(),
                    integral_image.spec_width() == width,
                    integral_image.spec_height() == height,
                    255 * (width * height) <= u32::MAX,
                    forall|i: int, j: int, k: int|
                        integral_image.holds(i, j, k) && (i < x || (i == x && j < y))
                            ==> #[trigger] integral_image.cell(i, j, k) == area_prefix(
                            *self,
                            i,
                            j,
                            k,
                        ),
                decreases height - y,
            {
                let mut z: u32 = 0;
                while z < 3
                    invariant
                        x < width,
                        y < height,
                        z <= 3,
                        width == self.spec_width(),
                        height == self.spec_height(),
                        integral_image.spec_width() == width,
                        integral_image.spec_height() == height,
                        255 * (width * height) <= u32::MAX,
                        forall|i: int, j: int, k: int|
                            integral_image.holds(i, j, k) && (i < x || (i == x && j < y) || (i == x
                                && j == y && k < z)) ==> #[trigger] integral_image.cell(i, j, k)
                                == area_prefix(*self, i, j, k),
                    decreases 3 - z,
                {
                    let real_v: u8 = self.get_rgorb(x, y, z);
                    let i_ymm: u32 = integral_image.get_ymm_or_0(x, y, z);
                    let i_xmm: u32 = integral_image.get_xmm_or_0(x, y, z);
                    let i_xmm_ymm: u32 = integral_image.get_xmm_and_ymm_or_0(x, y, z);
                    proof {
                        let column = x as int;
                        let row = y as int;
                        let channel = z as int;
                        lemma_area_prefix_before_first_column(*self, row, channel);
                        lemma_area_prefix_before_first_column(*self, row - 1, channel);
                        if column > 0 {
                            assert(integral_image.holds(column - 1, row, channel));
                            if row > 0 {
                                assert(integral_image.holds(column - 1, row - 1, channel));
                            }
                        }
                        if row > 0 {
                            assert(integral_image.holds(column, row - 1, channel));
                        }
                        assert(i_xmm == area_prefix(*self, column - 1, row, channel));
                        assert(i_ymm == area_prefix(*self, column, row - 1, channel));
                        assert(i_xmm_ymm == area_prefix(*self, column - 1, row - 1, channel));
                        lemma_row_prefix_grows(*self, -1, column - 1, row, channel);
                        lemma_area_prefix_bounds(*self, column, row, channel);
                        lemma_area_prefix_bounds(*self, column, row - 1, channel);
                        assert(255 * ((column + 1) * (row + 1)) <= 255 * (width * height))
                            by (nonlinear_arith)
                            requires
                                0 <= column < width,
                                0 <= row < height,
                        ;
                    }
                    assert(real_v == self.channel(x as int, y as int, z as int));
                    assert(area_prefix(*self, x as int, y as int, z as int) == real_v + (i_xmm
                        - i_xmm_ymm) + i_ymm);
                    let value: u32 = real_v as u32 + (i_xmm - i_xmm_ymm) + i_ymm;
                    let ghost before = integral_image;
                    integral_image.set_at(x, y, z, value);
                    assert forall|i: int, j: int, k: int|
                        integral_image.holds(i, j, k) && (i < x || (i == x && j < y) || (i == x
                            && j == y && k < z + 1)) implies #[trigger] integral_image.cell(i, j, k)
                        == area_prefix(*self, i, j, k) by {
                        if i == x && j == y && k == z {
                        } else {
                            assert(before.holds(i, j, k));
                            assert(integral_image.cell(i, j, k) == before.cell(i, j, k));
                        }
                    }
                    z += 1;
                }
                y += 1;
            }
            x += 1;
        }
        integral_image
    }
}

impl DifCodeImage {
    /// The channel values of the image, pixel by pixel in rows from the top,
    /// three for each pixel, as `from_samples` takes them.
    pub fn to_samples(&self) -> (samples: Vec<u8>)
        ensures
            samples@ == image_samples(*self),
    {
        let width: u32 = self.width();
        let height: u32 = self.height();
        let ghost held = image_samples(*self);
        let mut samples: Vec<u8> = Vec::new();
        let mut y: u32 = 0;
        while y < height
            invariant
                y <= height,
                width == image_width(*self),
                height == image_height(*self),
                held == image_samples(*self),
                held.len() == 3 * width * height,
                samples@.len() == sample_position(width as nat, 0, y as int, 0),
                forall|position: int|
                    0 <= position < samples@.len() ==> samples@[position] == held[position],
            decreases height - y,
        {
            let mut x: u32 = 0;
            while x < width
                invariant
                    y < height,
                    x <= width,
                    width == image_width(*self),
                    height == image_height(*self),
                    held == image_samples(*self),
                    held.len() == 3 * width * height,
                    samples@.len() == sample_position(width as nat, x as int, y as int, 0),
                    forall|position: int|
                        0 <= position < samples@.len() ==> samples@[position] == held[position],
                decreases width - x,
            {
                let mut z: u32 = 0;
                while z < 3
                    invariant
                        y < height,
                        x < width,
                        z <= 3,
                        width == image_width(*self),
                        height == image_height(*self),
                        held == image_samples(*self),
                        held.len() == 3 * width * height,
                        samples@.len() == sample_position(
                            width as nat,
                            x as int,
                            y as int,
                            z as int,
                        ),
                        forall|position: int|
                            0 <= position < samples@.len() ==> samples@[position]
                                == held[position],
                    decreases 3 - z,
                {
                    samples.push(self.get_rgorb(x, y, z));
                    z += 1;
                }
                x += 1;
            }
            y += 1;
            assert(sample_position(width as nat, width as int, y - 1, 0) == sample_position(
                width as nat,
                0,
                y as int,
                0,
            )) by (nonlinear_arith);
        }
        assert(sample_position(width as nat, 0, height as int, 0) == 3 * width * height)
            by (nonlinear_arith);
        assert(samples@ =~= held);
        samples
    }
}

impl PartialEq for DifCodeImage {
    /// Two images are equal where they have the same width and height and
    /// the same value in every channel of every pixel.
    fn eq(&self, other: &DifCodeImage) -> (equal: bool) {
        if self.width() != other.width() || self.height() != other.height() {
            return false;
        }
        let length: usize = self.len();
        let mut index: usize = 0;
        while index < length
            invariant
                index <= length,
                length == self.values().len(),
                length == other.values().len(),
                forall|earlier: int|
                    0 <= earlier < index ==> self.values()[earlier] == other.values()[earlier],
            decreases length - index,
        {
            if self.value_at(index) != other.value_at(index) {
                return false;
            }
            index += 1;
        }
        assert(self.values() =~= other.values());
        true
    }
}

impl vstd::std_specs::cmp::PartialEqSpecImpl for DifCodeImage {
    open spec fn obeys_eq_spec() -> bool {
        true
    }

    open spec fn eq_spec(&self, other: &DifCodeImage) -> bool {
        &&& self.spec_width() == other.spec_width()
        &&& self.spec_height() == other.spec_height()
        &&& self.values() == other.values()
    }
}

/// An ASCII letter in lower case, and any other byte as it is.
pub open spec fn ascii_lowered(byte: u8) -> u8 {
    if 65 <= byte <= 90 {
        (byte + 32) as u8
    } else {
        byte
    }
}

/// Whether a file name extension, written in ASCII without its dot, names a
/// lossy format: `jpg` or `jpeg`, in upper or lower case.
pub open spec fn names_lossy_format(extension: Seq<u8>) -> bool {
    ||| extension.len() == 3 && ascii_lowered(extension[0]) == 106 && ascii_lowered(extension[1])
        == 112 && ascii_lowered(extension[2]) == 103
    ||| extension.len() == 4 && ascii_lowered(extension[0]) == 106 && ascii_lowered(extension[1])
        == 112 && ascii_lowered(extension[2]) == 101 && ascii_lowered(extension[3]) == 103
}

/// Whether an image may not be saved under a name with this extension: an
/// encoded image must be stored without loss, or the differences in it are
/// gone, so a name that asks for JPEG is refused before anything is written.
pub fn is_lossy_extension(extension: &[u8]) -> (lossy: bool)
    ensures
        lossy == names_lossy_format(extension@),
{
    if extension.len() == 3 {
        lower_ascii(extension[0]) == 106 && lower_ascii(extension[1]) == 112 && lower_ascii(
            extension[2],
        ) == 103
    } else if extension.len() == 4 {
        lower_ascii(extension[0]) == 106 && lower_ascii(extension[1]) == 112 && lower_ascii(
            extension[2],
        ) == 101 && lower_ascii(extension[3]) == 103
    } else {
        false
    }
}

fn lower_ascii(byte: u8) -> (lowered: u8)
    ensures
        lowered == ascii_lowered(byte),
{
    if 65 <= byte && byte <= 90 {
        byte + 32
    } else {
        byte
    }
}

} // verus!
