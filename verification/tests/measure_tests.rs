use srcprof::measure::count_lines;
use srcprof::measure::measure;

#[test]
fn line_counts_follow_newlines() {
    assert_eq!(count_lines(&Vec::new()), 0);
    assert_eq!(count_lines(&b"a".to_vec()), 1);
    assert_eq!(count_lines(&b"a\n".to_vec()), 1);
    assert_eq!(count_lines(&b"a\nb".to_vec()), 2);
    assert_eq!(count_lines(&b"a\nb\n".to_vec()), 2);
    assert_eq!(count_lines(&b"\n\n".to_vec()), 2);
    assert_eq!(count_lines(&b"\n".to_vec()), 1);
}

#[test]
fn byte_mode_takes_the_declared_size() {
    let content = b"one\ntwo\n".to_vec();
    assert_eq!(measure(&content, false, 999), Some((2, 999)));
}

#[test]
fn character_mode_counts_decoded_characters() {
    // two-byte character: the sizes differ between the modes
    let content = "héllo\n".as_bytes().to_vec();
    assert_eq!(content.len(), 7);
    assert_eq!(measure(&content, true, 7), Some((1, 6)));
    assert_eq!(measure(&content, false, 7), Some((1, 7)));
}

#[test]
fn invalid_encoding_is_a_per_file_failure() {
    let content = vec![0xffu8, 0xfe, 0x0a];
    assert_eq!(measure(&content, true, 3), None);
    // byte mode does not decode and keeps the file
    assert_eq!(measure(&content, false, 3), Some((1, 3)));
}
