use ymir::bits::{pack_bit_stream, pack_code_word, unpack_bit_stream, unpack_code_word};

#[test]
fn code_is_left_justified_in_its_word() {
    assert_eq!(pack_code_word(&vec![]), 0);
    assert_eq!(pack_code_word(&vec![1]), 0x8000);
    assert_eq!(pack_code_word(&vec![0, 1]), 0x4000);
    assert_eq!(pack_code_word(&vec![1, 0, 1, 1]), 0xb000);
    assert_eq!(pack_code_word(&vec![1; 16]), 0xffff);
}

#[test]
fn code_of_more_than_sixteen_bits_has_no_word() {
    assert_eq!(pack_code_word(&vec![1; 17]), 0);
    assert_eq!(pack_code_word(&vec![1; 300]), 0);
}

#[test]
fn word_gives_its_first_bits_back() {
    assert_eq!(unpack_code_word(0xb000, 4), vec![1, 0, 1, 1]);
    assert_eq!(unpack_code_word(0xb000, 0), Vec::<u8>::new());
    assert_eq!(unpack_code_word(0xffff, 16), vec![1; 16]);
    assert_eq!(unpack_code_word(0x0001, 16)[15], 1);
}

#[test]
fn bit_stream_is_padded_with_zero_bits() {
    assert_eq!(pack_bit_stream(&vec![]), Vec::<u8>::new());
    assert_eq!(pack_bit_stream(&vec![1]), vec![0x80]);
    assert_eq!(pack_bit_stream(&vec![1, 0, 1, 0, 1, 0, 1, 0]), vec![0xaa]);
    assert_eq!(pack_bit_stream(&vec![1, 1, 1, 1, 0, 0, 0, 0, 1, 1]), vec![0xf0, 0xc0]);
}

#[test]
fn bytes_unpack_to_eight_bits_each() {
    assert_eq!(unpack_bit_stream(&[]), Vec::<u8>::new());
    assert_eq!(unpack_bit_stream(&[0xa5]), vec![1, 0, 1, 0, 0, 1, 0, 1]);
    assert_eq!(unpack_bit_stream(&[0x01, 0x80]), vec![0, 0, 0, 0, 0, 0, 0, 1, 1, 0, 0, 0, 0, 0, 0, 0]);
}

#[test]
fn unpacking_restores_a_packed_stream_and_its_padding() {
    let bits = vec![1, 0, 0, 1, 1, 1, 0, 1, 0, 1, 1];
    let mut padded = bits.clone();
    padded.extend([0, 0, 0, 0, 0]);
    assert_eq!(unpack_bit_stream(&pack_bit_stream(&bits)), padded);
}
