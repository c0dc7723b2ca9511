use witchbooru::service::{boundary, count_in, declared_too_large, Boundary, MAX_SIZE, MULTIPART};

#[test]
fn the_cap_is_eight_mebibytes() {
    assert_eq!(MAX_SIZE, 8_388_608);
}

#[test]
fn a_declared_length_above_the_cap_is_too_large() {
    assert!(!declared_too_large(None));
    assert!(!declared_too_large(Some(0)));
    assert!(!declared_too_large(Some(MAX_SIZE)));
    assert!(declared_too_large(Some(MAX_SIZE + 1)));
    assert!(declared_too_large(Some(u64::MAX)));
}

#[test]
fn chunks_are_counted_in_while_the_count_stays_below_the_cap() {
    assert_eq!(count_in(0, 0), Some(0));
    assert_eq!(count_in(0, 100), Some(100));
    assert_eq!(count_in(100, 23), Some(123));
    assert_eq!(count_in(MAX_SIZE - 2, 1), Some(MAX_SIZE - 1));
}

#[test]
fn a_chunk_that_reaches_the_cap_is_refused() {
    assert_eq!(count_in(MAX_SIZE - 1, 1), None);
    assert_eq!(count_in(0, MAX_SIZE as usize), None);
    assert_eq!(count_in(MAX_SIZE, 0), None);
    assert_eq!(count_in(u64::MAX, usize::MAX), None);
    assert_eq!(count_in(5, usize::MAX), None);
}

#[test]
fn the_prefix_spells_the_content_type_of_a_multipart_form() {
    assert_eq!(&MULTIPART[..], "multipart/form-data".as_bytes());
}

#[test]
fn the_boundary_follows_the_first_equals_sign() {
    let content_type = "multipart/form-data; boundary=----abc=def";
    match boundary(content_type.as_bytes()) {
        Boundary::At(start) => assert_eq!(&content_type[start..], "----abc=def"),
        other => panic!("{:?}", other),
    }
    assert_eq!(
        content_type.split_once("=").map(|(_, rest)| rest),
        Some("----abc=def")
    );
}

#[test]
fn a_boundary_may_be_empty() {
    let content_type = "multipart/form-data; boundary=";
    assert_eq!(boundary(content_type.as_bytes()), Boundary::At(content_type.len()));
}

#[test]
fn a_multipart_form_without_an_equals_sign_names_no_boundary() {
    assert_eq!(boundary("multipart/form-data".as_bytes()), Boundary::Missing);
    assert_eq!(boundary("multipart/form-data; boundary".as_bytes()), Boundary::Missing);
}

#[test]
fn other_content_types_are_not_multipart() {
    assert_eq!(boundary("".as_bytes()), Boundary::NotMultipart);
    assert_eq!(boundary("multipart/form-dat".as_bytes()), Boundary::NotMultipart);
    assert_eq!(boundary("multipart/form-datb=x".as_bytes()), Boundary::NotMultipart);
    assert_eq!(
        boundary("application/x-www-form-urlencoded; a=b".as_bytes()),
        Boundary::NotMultipart
    );
    assert_eq!(boundary("Multipart/form-data; boundary=x".as_bytes()), Boundary::NotMultipart);
}
