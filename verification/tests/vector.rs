use whisperer::tcp::vector::{
    and_vector, bytes_from_string, bytes_to_string, erase_until_terminator, rand_byte_vector,
    remove_null, truncate_until_terminator,
};

#[test]
fn and_vector_takes_shorter_length() {
    assert_eq!(and_vector(vec![0xff, 0x0f, 0xaa], vec![0x3c, 0xf0]), vec![0x3c, 0x00]);
    assert_eq!(and_vector(vec![], vec![1, 2]), Vec::<u8>::new());
}

#[test]
fn rand_byte_vector_has_requested_length() {
    assert_eq!(rand_byte_vector(16).len(), 16);
    assert_eq!(rand_byte_vector(1).len(), 1);
}

#[test]
fn bytes_from_string_takes_low_bytes() {
    assert_eq!(bytes_from_string("AZ"), vec![65, 90]);
    assert_eq!(bytes_from_string("é"), vec![0xe9]);
    assert_eq!(bytes_from_string("\u{141}"), vec![0x41]);
    assert_eq!(bytes_from_string(""), Vec::<u8>::new());
}

#[test]
fn bytes_to_string_reads_latin1() {
    assert_eq!(bytes_to_string(vec![104, 105]), "hi");
    assert_eq!(bytes_to_string(vec![0xe9]), "é");
    assert_eq!(bytes_to_string(vec![0]), "\0");
}

#[test]
fn remove_null_drops_zeros() {
    assert_eq!(remove_null(vec![0, 1, 0, 2, 3, 0]), vec![1, 2, 3]);
    assert_eq!(remove_null(vec![0, 0]), Vec::<u8>::new());
}

#[test]
fn erase_until_terminator_splits_at_first() {
    let mut v = vec![1, 2, 0, 3, 0, 4];
    let e = erase_until_terminator(&mut v, 0);
    assert_eq!(e, vec![1, 2]);
    assert_eq!(v, vec![3, 0, 4]);
}

#[test]
fn erase_until_terminator_without_terminator_keeps_last() {
    let mut v = vec![1, 2, 3];
    let e = erase_until_terminator(&mut v, 0);
    assert_eq!(e, vec![1, 2]);
    assert_eq!(v, vec![3]);
}

#[test]
fn erase_until_terminator_ignores_last_byte() {
    let mut v = vec![5, 6, 0];
    let e = erase_until_terminator(&mut v, 0);
    assert_eq!(e, vec![5, 6]);
    assert_eq!(v, vec![0]);
}

#[test]
fn truncate_until_terminator_splits_at_last() {
    let mut v = vec![1, 255, 2, 255, 3, 4];
    let e = truncate_until_terminator(&mut v, 255);
    assert_eq!(e, vec![4, 3]);
    assert_eq!(v, vec![1, 255, 2]);
}

#[test]
fn truncate_until_terminator_at_end() {
    let mut v = vec![9, 8, 255];
    let e = truncate_until_terminator(&mut v, 255);
    assert_eq!(e, Vec::<u8>::new());
    assert_eq!(v, vec![9, 8]);
}
