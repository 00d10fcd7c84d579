use dif_code::difference_encoder::bits_difference_converter::{
    calculate_worst_case_difference_for, coined_bits_to_difference,
    coined_bits_to_difference_if_allowed, coined_difference_to_bits, dynamic_bits_to_difference,
    dynamic_bits_to_difference_if_allowed, dynamic_difference_to_bits,
    get_max_num_bits_encodable, get_min_num_bits_encodable, get_num_bits_decodable,
    static_bits_to_difference, static_bits_to_difference_if_allowed, static_difference_to_bits,
};
use dif_code::util::{from_bit_vec, to_bit_vec};

#[test]
fn test_min_num_bits_encodable() {
    assert_eq!(0, get_min_num_bits_encodable(0));
    assert_eq!(0, get_min_num_bits_encodable(1));
    assert_eq!(1, get_min_num_bits_encodable(2));
    assert_eq!(1, get_min_num_bits_encodable(3));
    assert_eq!(1, get_min_num_bits_encodable(5));
    assert_eq!(2, get_min_num_bits_encodable(6));
    assert_eq!(2, get_min_num_bits_encodable(7));
    assert_eq!(6, get_min_num_bits_encodable(253));
    assert_eq!(7, get_min_num_bits_encodable(254));
    assert_eq!(7, get_min_num_bits_encodable(255));
}

#[test]
fn test_max_num_bits_encodable_table() {
    assert_eq!(0, get_max_num_bits_encodable(0));
    assert_eq!(1, get_max_num_bits_encodable(1));
    assert_eq!(1, get_max_num_bits_encodable(2));
    assert_eq!(2, get_max_num_bits_encodable(3));
    assert_eq!(2, get_max_num_bits_encodable(6));
    assert_eq!(3, get_max_num_bits_encodable(7));
    assert_eq!(3, get_max_num_bits_encodable(14));
    assert_eq!(4, get_max_num_bits_encodable(15));
    assert_eq!(4, get_max_num_bits_encodable(30));
    assert_eq!(5, get_max_num_bits_encodable(31));
    assert_eq!(5, get_max_num_bits_encodable(62));
    assert_eq!(6, get_max_num_bits_encodable(63));
    assert_eq!(6, get_max_num_bits_encodable(126));
    assert_eq!(7, get_max_num_bits_encodable(127));
    assert_eq!(7, get_max_num_bits_encodable(254));
    assert_eq!(8, get_max_num_bits_encodable(255));
}

#[test]
fn test_num_bits_decodable_is_the_maximum() {
    for difference in 0..=255u8 {
        assert_eq!(
            get_max_num_bits_encodable(difference),
            get_num_bits_decodable(difference)
        );
        assert!(get_min_num_bits_encodable(difference) <= get_max_num_bits_encodable(difference));
    }
}

#[test]
fn test_worst_case_difference_table() {
    assert_eq!(Some(0), calculate_worst_case_difference_for(0));
    assert_eq!(Some(2), calculate_worst_case_difference_for(1));
    assert_eq!(Some(6), calculate_worst_case_difference_for(2));
    assert_eq!(Some(14), calculate_worst_case_difference_for(3));
    assert_eq!(Some(30), calculate_worst_case_difference_for(4));
    assert_eq!(Some(62), calculate_worst_case_difference_for(5));
    assert_eq!(Some(126), calculate_worst_case_difference_for(6));
    assert_eq!(Some(254), calculate_worst_case_difference_for(7));
    assert_eq!(None, calculate_worst_case_difference_for(8));
    assert_eq!(None, calculate_worst_case_difference_for(9));
    assert_eq!(None, calculate_worst_case_difference_for(255));
}

#[test]
fn test_worst_case_difference_guarantees_its_bits() {
    for num_bits in 0..=7u8 {
        let difference = calculate_worst_case_difference_for(num_bits).unwrap();
        assert_eq!(num_bits, get_min_num_bits_encodable(difference));
        assert_eq!(num_bits, get_max_num_bits_encodable(difference));
    }
}

#[test]
fn test_dynamic_difference_to_bits_decoder() {
    dynamic_test_difference_to_bits_decoder_for(0, &[0]);

    let mut output_bits_buffer = [false; 8];
    for index in 0..10_000 {
        dynamic_test_difference_to_bits_decoder_for_with(index, &[0], &mut output_bits_buffer);
        dynamic_test_difference_to_bits_decoder_for_with(index, &[1], &mut output_bits_buffer);
        dynamic_test_difference_to_bits_decoder_for_with(index, &[0, 0], &mut output_bits_buffer);
        dynamic_test_difference_to_bits_decoder_for_with(index, &[1, 0], &mut output_bits_buffer);
        dynamic_test_difference_to_bits_decoder_for_with(index, &[0, 1], &mut output_bits_buffer);
        dynamic_test_difference_to_bits_decoder_for_with(index, &[1, 1], &mut output_bits_buffer);

        dynamic_test_difference_to_bits_decoder_for_with(index, &[0, 0, 0], &mut output_bits_buffer);
        dynamic_test_difference_to_bits_decoder_for_with(index, &[1, 0, 0], &mut output_bits_buffer);
        dynamic_test_difference_to_bits_decoder_for_with(index, &[0, 1, 0], &mut output_bits_buffer);
        dynamic_test_difference_to_bits_decoder_for_with(index, &[0, 1, 1], &mut output_bits_buffer);
        dynamic_test_difference_to_bits_decoder_for_with(index, &[1, 1, 1], &mut output_bits_buffer);

        dynamic_test_difference_to_bits_decoder_for_with(index, &[0, 0, 0, 0], &mut output_bits_buffer);
        dynamic_test_difference_to_bits_decoder_for_with(index, &[1, 0, 0, 0], &mut output_bits_buffer);
        dynamic_test_difference_to_bits_decoder_for_with(index, &[0, 1, 0, 0], &mut output_bits_buffer);

        dynamic_test_difference_to_bits_decoder_for_with(index, &[0, 0, 0, 0, 0], &mut output_bits_buffer);
        dynamic_test_difference_to_bits_decoder_for_with(index, &[1, 1, 1, 0, 1, 0], &mut output_bits_buffer);
        dynamic_test_difference_to_bits_decoder_for_with(index, &[1, 1, 0, 1, 1, 1], &mut output_bits_buffer);
        dynamic_test_difference_to_bits_decoder_for_with(index, &[1, 1, 1, 1, 1, 1], &mut output_bits_buffer);
        dynamic_test_difference_to_bits_decoder_for_with(index, &[0, 0, 0, 0, 0, 0, 0], &mut output_bits_buffer);
        dynamic_test_difference_to_bits_decoder_for_with(index, &[0, 0, 0, 1, 0, 0, 0], &mut output_bits_buffer);
        dynamic_test_difference_to_bits_decoder_for_with(index, &[0, 0, 1, 1, 1, 0, 0], &mut output_bits_buffer);
        dynamic_test_difference_to_bits_decoder_for_with(index, &[1, 0, 0, 1, 1, 1, 0], &mut output_bits_buffer);
        dynamic_test_difference_to_bits_decoder_for_with(index, &[1, 1, 1, 1, 1, 1, 1], &mut output_bits_buffer);
    }
}

fn dynamic_test_difference_to_bits_decoder_for(index: usize, bits: &[u8]) {
    let mut output_bits_buffer = [false; 8];
    dynamic_test_difference_to_bits_decoder_for_with(index, bits, &mut output_bits_buffer);
}

fn dynamic_test_difference_to_bits_decoder_for_with(index: usize, bits: &[u8], output_bits_buffer: &mut [bool]) {
    let encoded_difference = dynamic_bits_to_difference(index, &from_bit_vec(bits)).unwrap();
    dynamic_difference_to_bits(index, encoded_difference, &mut output_bits_buffer[0..get_num_bits_decodable(encoded_difference) as usize]);
    assert_eq!(bits, &to_bit_vec(&output_bits_buffer[0..get_num_bits_decodable(encoded_difference) as usize])[..]);
}

#[test]
fn test_static_difference_to_bits_decoder() {
    static_test_difference_to_bits_decoder_for(vec![0]);
    static_test_difference_to_bits_decoder_for(vec![1]);
    static_test_difference_to_bits_decoder_for(vec![0, 0]);
    static_test_difference_to_bits_decoder_for(vec![1, 0]);
    static_test_difference_to_bits_decoder_for(vec![0, 1]);
    static_test_difference_to_bits_decoder_for(vec![1, 1]);

    static_test_difference_to_bits_decoder_for(vec![0, 0, 0]);
    static_test_difference_to_bits_decoder_for(vec![1, 0, 0]);
    static_test_difference_to_bits_decoder_for(vec![0, 1, 0]);
    static_test_difference_to_bits_decoder_for(vec![1, 1, 0]);
    static_test_difference_to_bits_decoder_for(vec![0, 0, 1]);
    static_test_difference_to_bits_decoder_for(vec![1, 0, 1]);
    static_test_difference_to_bits_decoder_for(vec![0, 1, 1]);
    static_test_difference_to_bits_decoder_for(vec![1, 1, 1]);

    static_test_difference_to_bits_decoder_for(vec![0, 0, 0, 0]);
    static_test_difference_to_bits_decoder_for(vec![1, 0, 0, 0]);
    static_test_difference_to_bits_decoder_for(vec![0, 1, 0, 0]);
    static_test_difference_to_bits_decoder_for(vec![1, 1, 0, 0]);
    static_test_difference_to_bits_decoder_for(vec![0, 0, 1, 0]);
    static_test_difference_to_bits_decoder_for(vec![1, 0, 1, 0]);
    static_test_difference_to_bits_decoder_for(vec![0, 1, 1, 0]);
    static_test_difference_to_bits_decoder_for(vec![1, 1, 1, 0]);
    static_test_difference_to_bits_decoder_for(vec![0, 0, 0, 1]);
    static_test_difference_to_bits_decoder_for(vec![1, 0, 0, 1]);
    static_test_difference_to_bits_decoder_for(vec![0, 1, 0, 1]);
    static_test_difference_to_bits_decoder_for(vec![1, 1, 0, 1]);
    static_test_difference_to_bits_decoder_for(vec![0, 0, 1, 1]);
    static_test_difference_to_bits_decoder_for(vec![1, 0, 1, 1]);
    static_test_difference_to_bits_decoder_for(vec![0, 1, 1, 1]);
    static_test_difference_to_bits_decoder_for(vec![1, 1, 1, 1]);

    static_test_difference_to_bits_decoder_for(vec![0, 0, 0, 0, 0]);
    static_test_difference_to_bits_decoder_for(vec![1, 1, 1, 1, 1, 1]);
    static_test_difference_to_bits_decoder_for(vec![1, 1, 1, 1, 1, 1]);
    static_test_difference_to_bits_decoder_for(vec![1, 1, 1, 1, 1, 1]);
    static_test_difference_to_bits_decoder_for(vec![0, 0, 0, 0, 0, 0, 0]);
    static_test_difference_to_bits_decoder_for(vec![0, 0, 0, 1, 0, 0, 0]);
    static_test_difference_to_bits_decoder_for(vec![0, 0, 1, 1, 1, 0, 0]);
    static_test_difference_to_bits_decoder_for(vec![1, 0, 0, 1, 1, 1, 0]);
    static_test_difference_to_bits_decoder_for(vec![0, 0, 0, 0, 0, 0, 0, 0]);
}

fn static_test_difference_to_bits_decoder_for(bits: Vec<u8>) {
    let encoded_difference = static_bits_to_difference(&from_bit_vec(&bits)).unwrap();
    let mut output_bits = vec![false; get_num_bits_decodable(encoded_difference) as usize];
    static_difference_to_bits(encoded_difference, &mut output_bits);
    assert_eq!(bits, to_bit_vec(&output_bits));
}

#[test]
fn static_test_bit_to_difference_encoder() {
    assert_eq!(None, static_bits_to_difference_if_allowed(&from_bit_vec(&[0]), 0));
    assert_eq!(Some(1), static_bits_to_difference(&from_bit_vec(&[0])));
    assert_eq!(Some(2), static_bits_to_difference(&from_bit_vec(&[1])));

    assert_eq!(Some(3), static_bits_to_difference(&from_bit_vec(&[0,0])));
    assert_eq!(Some(4), static_bits_to_difference(&from_bit_vec(&[1,0])));
    assert_eq!(Some(5), static_bits_to_difference(&from_bit_vec(&[0,1])));
    assert_eq!(Some(6), static_bits_to_difference(&from_bit_vec(&[1,1])));

    assert_eq!(Some(7), static_bits_to_difference(&from_bit_vec(&[0,0,0])));
    assert_eq!(Some(8), static_bits_to_difference(&from_bit_vec(&[1,0,0])));
    assert_eq!(Some(9), static_bits_to_difference(&from_bit_vec(&[0,1,0])));
    assert_eq!(Some(10), static_bits_to_difference(&from_bit_vec(&[1,1,0])));
    assert_eq!(Some(11), static_bits_to_difference(&from_bit_vec(&[0,0,1])));
    assert_eq!(Some(12), static_bits_to_difference(&from_bit_vec(&[1,0,1])));
    assert_eq!(Some(13), static_bits_to_difference(&from_bit_vec(&[0,1,1])));
    assert_eq!(Some(14), static_bits_to_difference(&from_bit_vec(&[1,1,1])));

    assert_eq!(Some(15), static_bits_to_difference(&from_bit_vec(&[0,0,0,0])));
    assert_eq!(Some(16), static_bits_to_difference(&from_bit_vec(&[1,0,0,0])));
    assert_eq!(Some(17), static_bits_to_difference(&from_bit_vec(&[0,1,0,0])));
    assert_eq!(Some(18), static_bits_to_difference(&from_bit_vec(&[1,1,0,0])));
    assert_eq!(Some(19), static_bits_to_difference(&from_bit_vec(&[0,0,1,0])));
    assert_eq!(Some(20), static_bits_to_difference(&from_bit_vec(&[1,0,1,0])));
    assert_eq!(Some(21), static_bits_to_difference(&from_bit_vec(&[0,1,1,0])));
    assert_eq!(Some(22), static_bits_to_difference(&from_bit_vec(&[1,1,1,0])));
    assert_eq!(Some(23), static_bits_to_difference(&from_bit_vec(&[0,0,0,1])));
    assert_eq!(Some(24), static_bits_to_difference(&from_bit_vec(&[1,0,0,1])));
    assert_eq!(Some(25), static_bits_to_difference(&from_bit_vec(&[0,1,0,1])));
    assert_eq!(Some(26), static_bits_to_difference(&from_bit_vec(&[1,1,0,1])));
    assert_eq!(Some(27), static_bits_to_difference(&from_bit_vec(&[0,0,1,1])));
    assert_eq!(Some(28), static_bits_to_difference(&from_bit_vec(&[1,0,1,1])));
    assert_eq!(Some(29), static_bits_to_difference(&from_bit_vec(&[0,1,1,1])));
    assert_eq!(Some(30), static_bits_to_difference(&from_bit_vec(&[1,1,1,1])));

    assert_eq!(Some(31), static_bits_to_difference(&from_bit_vec(&[0,0,0,0,0])));
    assert_eq!(Some(32), static_bits_to_difference(&from_bit_vec(&[1,0,0,0,0])));
    assert_eq!(Some(33), static_bits_to_difference(&from_bit_vec(&[0,1,0,0,0])));
    assert_eq!(Some(34), static_bits_to_difference(&from_bit_vec(&[1,1,0,0,0])));
    assert_eq!(Some(35), static_bits_to_difference(&from_bit_vec(&[0,0,1,0,0])));
    assert_eq!(Some(36), static_bits_to_difference(&from_bit_vec(&[1,0,1,0,0])));
    assert_eq!(Some(37), static_bits_to_difference(&from_bit_vec(&[0,1,1,0,0])));
    assert_eq!(Some(38), static_bits_to_difference(&from_bit_vec(&[1,1,1,0,0])));
    assert_eq!(Some(39), static_bits_to_difference(&from_bit_vec(&[0,0,0,1,0])));
    assert_eq!(Some(40), static_bits_to_difference(&from_bit_vec(&[1,0,0,1,0])));
    assert_eq!(Some(41), static_bits_to_difference(&from_bit_vec(&[0,1,0,1,0])));
    assert_eq!(Some(42), static_bits_to_difference(&from_bit_vec(&[1,1,0,1,0])));
    assert_eq!(Some(43), static_bits_to_difference(&from_bit_vec(&[0,0,1,1,0])));
    assert_eq!(Some(44), static_bits_to_difference(&from_bit_vec(&[1,0,1,1,0])));
    assert_eq!(Some(45), static_bits_to_difference(&from_bit_vec(&[0,1,1,1,0])));
    assert_eq!(Some(46), static_bits_to_difference(&from_bit_vec(&[1,1,1,1,0])));
    assert_eq!(Some(47), static_bits_to_difference(&from_bit_vec(&[0,0,0,0,1])));
    assert_eq!(Some(48), static_bits_to_difference(&from_bit_vec(&[1,0,0,0,1])));
    assert_eq!(Some(49), static_bits_to_difference(&from_bit_vec(&[0,1,0,0,1])));
    assert_eq!(Some(50), static_bits_to_difference(&from_bit_vec(&[1,1,0,0,1])));
    assert_eq!(Some(51), static_bits_to_difference(&from_bit_vec(&[0,0,1,0,1])));
    assert_eq!(Some(52), static_bits_to_difference(&from_bit_vec(&[1,0,1,0,1])));
    assert_eq!(Some(53), static_bits_to_difference(&from_bit_vec(&[0,1,1,0,1])));
    assert_eq!(Some(54), static_bits_to_difference(&from_bit_vec(&[1,1,1,0,1])));
    assert_eq!(Some(55), static_bits_to_difference(&from_bit_vec(&[0,0,0,1,1])));
    assert_eq!(Some(56), static_bits_to_difference(&from_bit_vec(&[1,0,0,1,1])));
    assert_eq!(Some(57), static_bits_to_difference(&from_bit_vec(&[0,1,0,1,1])));
    assert_eq!(Some(58), static_bits_to_difference(&from_bit_vec(&[1,1,0,1,1])));
    assert_eq!(Some(59), static_bits_to_difference(&from_bit_vec(&[0,0,1,1,1])));
    assert_eq!(Some(60), static_bits_to_difference(&from_bit_vec(&[1,0,1,1,1])));
    assert_eq!(Some(61), static_bits_to_difference(&from_bit_vec(&[0,1,1,1,1])));
    assert_eq!(Some(62), static_bits_to_difference(&from_bit_vec(&[1,1,1,1,1])));

    println!("{:?}", static_bits_to_difference(&from_bit_vec(&[1,1,1,1,1,1])));
    println!("{:?}", static_bits_to_difference(&from_bit_vec(&[1,1,1,1,1,1,1])));
    println!("{:?}", static_bits_to_difference(&from_bit_vec(&[0,0,0,0,0,0,0,0])));
    println!("{:?}", static_bits_to_difference(&from_bit_vec(&[0,0,0,0,0,0,0,1])));
    println!("{:?}", static_bits_to_difference(&from_bit_vec(&[1,0,0,0,0,0,0,0])));
    println!("{:?}", static_bits_to_difference(&from_bit_vec(&[1,1,1,1,1,1,1,1])));
}

#[test]
fn test_static_code_at_the_edge_of_a_byte() {
    assert_eq!(Some(126), static_bits_to_difference(&from_bit_vec(&[1, 1, 1, 1, 1, 1])));
    assert_eq!(Some(254), static_bits_to_difference(&from_bit_vec(&[1, 1, 1, 1, 1, 1, 1])));
    assert_eq!(Some(255), static_bits_to_difference(&from_bit_vec(&[0, 0, 0, 0, 0, 0, 0, 0])));
    assert_eq!(None, static_bits_to_difference(&from_bit_vec(&[0, 0, 0, 0, 0, 0, 0, 1])));
    assert_eq!(None, static_bits_to_difference(&from_bit_vec(&[1, 0, 0, 0, 0, 0, 0, 0])));
    assert_eq!(None, static_bits_to_difference(&from_bit_vec(&[1, 1, 1, 1, 1, 1, 1, 1])));
    assert_eq!(None, static_bits_to_difference(&from_bit_vec(&[0, 0, 0, 0, 0, 0, 0, 0, 0])));
    assert_eq!(Some(0), static_bits_to_difference(&[]));
}

#[test]
fn test_static_code_if_allowed_compares_with_the_limit() {
    let bits = from_bit_vec(&[1, 0, 1]);
    assert_eq!(Some(12), static_bits_to_difference_if_allowed(&bits, 12));
    assert_eq!(Some(12), static_bits_to_difference_if_allowed(&bits, 255));
    assert_eq!(None, static_bits_to_difference_if_allowed(&bits, 11));
    assert_eq!(Some(0), static_bits_to_difference_if_allowed(&[], 0));
}

fn all_bit_vectors(length: usize) -> Vec<Vec<bool>> {
    let mut all = Vec::new();
    for pattern in 0..(1usize << length) {
        all.push((0..length).map(|position| (pattern >> position) & 1 == 1).collect());
    }
    all
}

#[test]
fn test_static_code_inverse_for_every_short_bit_vector() {
    for length in 0..=8usize {
        for bits in all_bit_vectors(length) {
            if let Some(difference) = static_bits_to_difference(&bits) {
                assert_eq!(length, get_num_bits_decodable(difference) as usize);
                let mut output_bits = vec![true; length];
                static_difference_to_bits(difference, &mut output_bits);
                assert_eq!(bits, output_bits);
            } else {
                assert_eq!(8, length);
            }
        }
    }
}

#[test]
fn test_dynamic_code_inverse_for_every_short_bit_vector() {
    for index in [0usize, 1, 2, 77, 4096, usize::MAX] {
        for length in 0..=8usize {
            for bits in all_bit_vectors(length) {
                if let Some(difference) = dynamic_bits_to_difference(index, &bits) {
                    assert_eq!(length, get_num_bits_decodable(difference) as usize);
                    let mut output_bits = vec![true; length];
                    dynamic_difference_to_bits(index, difference, &mut output_bits);
                    assert_eq!(bits, output_bits);
                } else {
                    assert_eq!(8, length);
                }
            }
        }
    }
}

#[test]
fn test_coined_code_swaps_the_digits_where_the_coin_is_set() {
    let coins = [true, false, true];
    assert_eq!(Some(2), coined_bits_to_difference(&coins, &[false]));
    assert_eq!(Some(1), coined_bits_to_difference(&coins, &[true]));
    assert_eq!(Some(2 + 2 * 2 + 4 * 2), coined_bits_to_difference(&coins, &[false, true, false]));
    assert_eq!(Some(1 + 2 * 1 + 4 * 1), coined_bits_to_difference(&coins, &[true, false, true]));
    assert_eq!(Some(1 + 2 + 4 + 8 * 2), coined_bits_to_difference(&coins, &[true, false, true, true]));
    assert_eq!(None, coined_bits_to_difference_if_allowed(&coins, &[false, true, false], 13));
    assert_eq!(Some(14), coined_bits_to_difference_if_allowed(&coins, &[false, true, false], 14));

    let mut output_bits = [false; 3];
    coined_difference_to_bits(&coins, 14, &mut output_bits);
    assert_eq!([false, true, false], output_bits);
    coined_difference_to_bits(&coins, 7, &mut output_bits);
    assert_eq!([true, false, true], output_bits);
}

#[test]
fn test_dynamic_code_is_a_function_of_the_index() {
    let bits = from_bit_vec(&[1, 0, 0, 1, 1]);
    for index in 0..200usize {
        let first = dynamic_bits_to_difference(index, &bits);
        let second = dynamic_bits_to_difference(index, &bits);
        assert_eq!(first, second);
        assert_eq!(first, dynamic_bits_to_difference_if_allowed(index, &bits, 255));
        let difference = first.unwrap();
        assert!(31 <= difference && difference <= 62);
        assert_eq!(None, dynamic_bits_to_difference_if_allowed(index, &bits, difference - 1));
    }
}

#[test]
fn test_dynamic_code_draws_different_coins_for_different_indices() {
    let bits = from_bit_vec(&[0, 0, 0, 0, 0, 0, 0]);
    let mut seen = Vec::new();
    for index in 0..64usize {
        let difference = dynamic_bits_to_difference(index, &bits).unwrap();
        if !seen.contains(&difference) {
            seen.push(difference);
        }
    }
    assert!(seen.len() > 1);
}
