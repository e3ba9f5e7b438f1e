use passerine::number::{build_number, split_number, try_build_number};

#[test]
fn zero_is_a_single_byte() {
    assert_eq!(split_number(0), vec![0u8]);
}

#[test]
fn known_encodings() {
    assert_eq!(split_number(1), vec![0x01]);
    assert_eq!(split_number(127), vec![0x7f]);
    assert_eq!(split_number(128), vec![0x81, 0x00]);
    assert_eq!(split_number(300), vec![0x82, 0x2c]);
    assert_eq!(split_number(16383), vec![0xff, 0x7f]);
    assert_eq!(split_number(16384), vec![0x81, 0x80, 0x00]);
}

#[test]
fn split_then_build() {
    let mut numbers = vec![0usize, 1, 127, 128, 300, 16383, 16384, 1 << 20, usize::MAX];
    for n in 0..2000 {
        numbers.push(n * 97);
    }
    for n in numbers {
        let bytes = split_number(n);
        assert_eq!(build_number(&bytes), (n, bytes.len()));
        assert_eq!(try_build_number(&bytes), Some((n, bytes.len())));
    }
}

#[test]
fn building_stops_at_the_end_of_the_number() {
    assert_eq!(build_number(&[0x05, 0x06, 0x07]), (5, 1));
    assert_eq!(build_number(&[0x82, 0x2c, 0xff]), (300, 2));
    assert_eq!(try_build_number(&[0x82, 0x2c, 0xff]), Some((300, 2)));
    let mut bytes = split_number(77777);
    let taken = bytes.len();
    bytes.extend(split_number(5));
    assert_eq!(build_number(&bytes), (77777, taken));
}

#[test]
fn a_number_that_is_cut_short() {
    assert_eq!(build_number(&[]), (0, 0));
    assert_eq!(build_number(&[0x81]), (1, 1));
    assert_eq!(build_number(&[0x81, 0x80]), (128, 2));
    assert_eq!(try_build_number(&[]), None);
    assert_eq!(try_build_number(&[0x81]), None);
    assert_eq!(try_build_number(&[0x81, 0x80]), None);
}

#[test]
fn a_number_that_is_too_large() {
    let mut bytes = vec![0xff; 10];
    bytes.push(0x7f);
    assert_eq!(try_build_number(&bytes), None);
    let largest = split_number(usize::MAX);
    assert_eq!(try_build_number(&largest), Some((usize::MAX, largest.len())));
}
