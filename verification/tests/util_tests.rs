use dif_code::image_ui_util::{from_rgb, from_rgba, sum_wrap};
use dif_code::util::dif_code_image::is_lossy_extension;
use dif_code::util::{
    distance, from_bit_vec, get_bit_at, get_length_in_bits, is_odd, set_bit_at, to_bit_vec,
    DifCodeError, DifCodeImage, EncodingContainer, IntegralRgbImage,
};

fn numbered_image(width: u32, height: u32) -> DifCodeImage {
    let samples: Vec<u8> = (0..(3 * width * height)).map(|position| position as u8).collect();
    DifCodeImage::from_samples(width, height, samples).unwrap()
}

#[test]
fn test_length_in_bits() {
    assert_eq!(0, get_length_in_bits(&[]));
    assert_eq!(8, get_length_in_bits(&[0]));
    assert_eq!(24, get_length_in_bits(&[1, 2, 3]));
}

#[test]
fn test_distance_and_parity() {
    assert_eq!(0, distance(7, 7));
    assert_eq!(255, distance(0, 255));
    assert_eq!(255, distance(255, 0));
    assert_eq!(3, distance(10, 13));
    assert_eq!(3, distance(13, 10));
    assert!(is_odd(1));
    assert!(is_odd(255));
    assert!(!is_odd(0));
    assert!(!is_odd(254));
}

#[test]
fn test_bits_of_a_byte_count_from_the_least_significant() {
    assert!(get_bit_at(1, 0));
    assert!(!get_bit_at(1, 1));
    assert!(get_bit_at(0b1000_0000, 7));
    assert!(!get_bit_at(0b0111_1111, 7));
    assert!(!get_bit_at(0xff, 8));
    assert_eq!(0b0000_0100, set_bit_at(0, 2));
    assert_eq!(0b1000_0001, set_bit_at(1, 7));
    assert_eq!(0b0110_0000, set_bit_at(0b0110_0000, 5));
    assert_eq!(0b0110_0000, set_bit_at(0b0110_0000, 9));
    for byte in 0..=255u8 {
        let mut built = 0u8;
        for position in 0..8u8 {
            if get_bit_at(byte, position) {
                built = set_bit_at(built, position);
            }
        }
        assert_eq!(byte, built);
    }
}

#[test]
fn test_bit_vectors_as_numbers() {
    assert_eq!(vec![false, true, true, false], from_bit_vec(&[0, 1, 9, 0]));
    assert_eq!(vec![0u8, 1, 1, 0], to_bit_vec(&[false, true, true, false]));
    assert!(from_bit_vec(&[]).is_empty());
    assert!(to_bit_vec(&[]).is_empty());
}

#[test]
fn test_flat_buffers_are_containers() {
    let mut buffer = vec![5u8, 6, 7];
    assert_eq!(3, EncodingContainer::len(&buffer));
    assert_eq!(6, buffer.value_at(1));
    buffer.set_value_at(1, 60);
    assert_eq!(vec![5u8, 60, 7], buffer);
    let slice: &mut [u8] = &mut buffer[..];
    assert_eq!(3, EncodingContainer::len(slice));
    slice.set_value_at(2, 70);
    assert_eq!(70, slice.value_at(2));
    assert_eq!(vec![5u8, 60, 70], buffer);
}

#[test]
fn test_error_from_a_message() {
    let error = DifCodeError::from("broken");
    assert!(matches!(error, DifCodeError::Internal("broken")));
    let error: DifCodeError = "other".into();
    assert_eq!("Internal(\"other\")", format!("{:?}", error));
    assert_eq!(
        "InternalCapacityReached(12)",
        format!("{:?}", DifCodeError::InternalCapacityReached(12))
    );
}

#[test]
fn test_image_is_addressed_channel_by_channel() {
    let image = numbered_image(4, 3);
    assert_eq!(4, image.width());
    assert_eq!(3, image.height());
    assert_eq!(36, image.len());
    // pixel (x, y) holds the samples 3 * (4 * y + x) + z
    assert_eq!(0, image.get_rgorb(0, 0, 0));
    assert_eq!(2, image.get_rgorb(0, 0, 2));
    assert_eq!(3 * (4 * 2 + 1) + 1, image.get_rgorb(1, 2, 1) as u32);
    assert_eq!([15u8, 16, 17], image.get_pixel(1, 1));
    // all of channel 0, row by row, then channel 1, then channel 2
    for index in 0..36usize {
        let z = index / 12;
        let y = (index % 12) / 4;
        let x = index % 4;
        assert_eq!((x as u32, y as u32, z as u32), image.index_to_xyz(index));
        assert_eq!((3 * (4 * y + x) + z) as u8, image.value_at(index));
    }
    assert_eq!((1, 2, 1), DifCodeImage::index_to_xyz_with_wh(21, 4, 3));
    assert_eq!((3, 2, 2), DifCodeImage::index_to_xyz_with_wh(35, 4, 3));
    assert_eq!((0, 0, 7), DifCodeImage::index_to_xyz_with_wh(84, 4, 3));
    assert_eq!((2, 0, 0), DifCodeImage::index_to_xyz_with_wh(2, 5, 1));
}

#[test]
fn test_image_write_changes_one_channel_value() {
    let mut image = numbered_image(4, 3);
    image.set_value_at(21, 200);
    assert_eq!(200, image.value_at(21));
    assert_eq!(200, image.get_rgorb(1, 2, 1));
    let samples = image.to_samples();
    let mut expected: Vec<u8> = (0..36).collect();
    expected[3 * (4 * 2 + 1) + 1] = 200;
    assert_eq!(expected, samples);
    assert_eq!(4, image.width());
    assert_eq!(3, image.height());
}

#[test]
fn test_images_from_their_values() {
    assert!(DifCodeImage::from_samples(2, 2, vec![0u8; 11]).is_none());
    assert!(DifCodeImage::from_samples(2, 2, vec![0u8; 12]).is_some());
    let longer = DifCodeImage::from_samples(2, 2, (0..20).collect()).unwrap();
    assert_eq!((0..12).collect::<Vec<u8>>(), longer.to_samples());
    assert_eq!(12, longer.len());
    let nothing = DifCodeImage::from_samples(0, 5, Vec::new()).unwrap();
    assert_eq!(0, nothing.len());
    assert_eq!(5, nothing.height());
    let black = DifCodeImage::with_capacity(3, 2);
    assert_eq!(3, black.width());
    assert_eq!(2, black.height());
    assert_eq!(vec![0u8; 18], black.to_samples());
    assert_eq!(0, DifCodeImage::with_capacity(0, 0).len());
}

#[test]
fn test_images_are_equal_where_sizes_and_values_are() {
    let image = numbered_image(4, 3);
    assert_eq!(image, numbered_image(4, 3));
    assert!(image != numbered_image(3, 4));
    assert!(image != numbered_image(4, 2));
    assert!(numbered_image(4, 2) != image);
    assert!(image != numbered_image(6, 2));
    let mut changed = numbered_image(4, 3);
    changed.set_value_at(35, 0);
    assert!(image != changed);
    changed.set_value_at(35, 35);
    assert!(image == changed);
    assert!(DifCodeImage::with_capacity(0, 3) != DifCodeImage::with_capacity(0, 4));
    assert!(DifCodeImage::with_capacity(0, 3) == DifCodeImage::with_capacity(0, 3));
    assert!(format!("{:?}", DifCodeImage::with_capacity(1, 1)).contains("DifCodeImage"));
}

#[test]
fn test_lossy_extensions_are_refused() {
    assert!(is_lossy_extension(b"jpg"));
    assert!(is_lossy_extension(b"jpeg"));
    assert!(is_lossy_extension(b"JPG"));
    assert!(is_lossy_extension(b"JpEg"));
    assert!(!is_lossy_extension(b"png"));
    assert!(!is_lossy_extension(b"bmp"));
    assert!(!is_lossy_extension(b""));
    assert!(!is_lossy_extension(b"jpe"));
    assert!(!is_lossy_extension(b"jpegs"));
    assert!(!is_lossy_extension(b"jp\x67 "));
    assert!(!is_lossy_extension(b"jp\x27"));
    assert!(!is_lossy_extension(&[b'j', b'p', 0x87]));
}

#[test]
fn test_integral_image_holds_the_sums_up_to_each_position() {
    let samples: Vec<u8> = vec![
        1, 10, 100, 2, 20, 200, 3, 30, 250,
        4, 40, 0, 5, 50, 255, 6, 60, 255,
    ];
    let image = DifCodeImage::from_samples(3, 2, samples).unwrap();
    let integral = image.generate_integral_image_for_rgb();
    assert_eq!(3, integral.width());
    assert_eq!(2, integral.height());
    assert_eq!(1, integral.get_at(0, 0, 0));
    assert_eq!(3, integral.get_at(1, 0, 0));
    assert_eq!(6, integral.get_at(2, 0, 0));
    assert_eq!(5, integral.get_at(0, 1, 0));
    assert_eq!(12, integral.get_at(1, 1, 0));
    assert_eq!(21, integral.get_at(2, 1, 0));
    assert_eq!(210, integral.get_at(2, 1, 1));
    assert_eq!(1060, integral.get_at(2, 1, 2));
    assert_eq!(21, integral.get_at_p((2, 1, 0)));
    assert_eq!(3, integral.get_xmm_or_0(2, 0, 0));
    assert_eq!(0, integral.get_xmm_or_0(0, 1, 0));
    assert_eq!(6, integral.get_ymm_or_0(2, 1, 0));
    assert_eq!(0, integral.get_ymm_or_0(2, 0, 0));
    assert_eq!(3, integral.get_xmm_and_ymm_or_0(2, 1, 0));
    assert_eq!(0, integral.get_xmm_and_ymm_or_0(0, 1, 0));
    assert_eq!(0, integral.get_xmm_and_ymm_or_0(2, 0, 0));
    // the columns after 0 up to 2 and the rows after 0 up to 1: 5 + 6
    assert_eq!(11, integral.calculate_area_sum(0, 0, 2, 1, 0));
    assert_eq!(6, integral.calculate_area_sum(1, 0, 2, 1, 0));
    assert_eq!(0, integral.calculate_area_sum(1, 1, 1, 1, 0));
    assert_eq!(255 + 255, integral.calculate_area_sum_at_ps((0, 0, 2), (2, 1, 2)));
    assert_eq!(5, integral.average_in_radius(0, 0, 0, 10));
    assert_eq!(6, integral.average_in_radius(2, 1, 0, 1));
    assert_eq!(255, integral.average_in_radius(1, 1, 2, 10));
    assert_eq!(50, integral.average_in_radius(0, 0, 1, 1));
}

#[test]
fn test_integral_table_of_zeros_and_written_cells() {
    let mut table = IntegralRgbImage::zeros(2, 3);
    assert_eq!(2, table.width());
    assert_eq!(3, table.height());
    for x in 0..2 {
        for y in 0..3 {
            for z in 0..3 {
                assert_eq!(0, table.get_at(x, y, z));
            }
        }
    }
    table.set_at(1, 2, 0, 77);
    table.set_at(0, 1, 2, 5);
    assert_eq!(77, table.get_at(1, 2, 0));
    assert_eq!(5, table.get_at(0, 1, 2));
    assert_eq!(0, table.get_at(1, 2, 1));
    assert_eq!(0, table.get_at(0, 2, 1));
    assert_eq!(2, table.width());
    assert_eq!(0, IntegralRgbImage::zeros(0, 7).width());
    assert_eq!(7, IntegralRgbImage::zeros(0, 7).height());
}

#[test]
fn test_colours_as_frame_buffer_values() {
    assert_eq!(0xff00_0000, from_rgb(0, 0, 0));
    assert_eq!(0xff12_3456, from_rgb(0x12, 0x34, 0x56));
    assert_eq!(0x8012_3456, from_rgba(0x12, 0x34, 0x56, 0x80));
    assert_eq!(0xffff_ffff, from_rgba(255, 255, 255, 255));
    assert_eq!(0, from_rgba(0, 0, 0, 0));
    assert_eq!(5, sum_wrap(2, 3));
    assert_eq!(0, sum_wrap(u32::MAX, 1));
    assert_eq!(u32::MAX - 1, sum_wrap(u32::MAX, u32::MAX));
    assert_eq!(u32::MAX, sum_wrap(u32::MAX, 0));
}
