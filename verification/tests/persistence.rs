use trailplan::codec::{encode_paths, parse_paths};
use trailplan::labels::{fix_etapp, StageCodeError};
use trailplan::records::Path;

fn path(dist: i32, srcdist: i32, destdist: i32, src: i32, dest: i32, etapp: &str) -> Path {
    Path { dist, srcdist, destdist, src, dest, etapp: etapp.to_string() }
}

#[test]
fn catalogue_round_trips_field_for_field() {
    let cat = vec![
        path(2070, 40, 30, 11, 22, "5_1;5_2"),
        path(39000, 4999, 0, -7, 2147483647, ""),
        path(1000, 0, 0, 0, 1, "a;b c\nd"),
    ];
    let text = encode_paths(&cat);
    let back = parse_paths(&text).expect("a written catalogue reads back");
    assert_eq!(back, cat);
}

#[test]
fn empty_catalogue_round_trips() {
    let text = encode_paths(&Vec::new());
    assert_eq!(text, "");
    assert_eq!(parse_paths(&text), Some(Vec::new()));
}

#[test]
fn record_layout_is_fixed_width() {
    let cat = vec![path(1500, 100, 50, 7, -3, "ab")];
    assert_eq!(
        encode_paths(&cat),
        "+0000001500+0000000100+0000000050+0000000007-000000000300000000000000000002ab\n"
    );
}

#[test]
fn garbage_does_not_parse() {
    assert_eq!(parse_paths("hello"), None);
    assert_eq!(parse_paths("+00000015"), None);
}

#[test]
fn trailing_garbage_does_not_parse() {
    let mut text = encode_paths(&vec![path(1500, 100, 50, 7, -3, "ab")]);
    text.push('x');
    assert_eq!(parse_paths(&text), None);
}

#[test]
fn fix_etapp_expands_codes_to_trail_names() {
    assert_eq!(fix_etapp("5_1;5_2").unwrap(), "Öresundsleden etapp 1, 2");
}

#[test]
fn fix_etapp_groups_by_trail_and_sorts_stage_labels() {
    assert_eq!(
        fix_etapp("1_8;2_4;1_10").unwrap(),
        "Kust-kustleden etapp 10, 8, Nord-sydleden etapp 4"
    );
}

#[test]
fn fix_etapp_keeps_only_the_middle_piece() {
    assert_eq!(fix_etapp("3_2_9").unwrap(), "Ås-åsleden etapp 2");
}

#[test]
fn fix_etapp_skips_empty_labels() {
    assert_eq!(fix_etapp("4_1;;").unwrap(), "Österlenleden etapp 1");
    assert_eq!(fix_etapp("").unwrap(), "");
}

#[test]
fn fix_etapp_rejects_unknown_trail_codes() {
    assert_eq!(fix_etapp("6_1"), Err(StageCodeError::UnknownCode));
    assert_eq!(fix_etapp("59_1"), Err(StageCodeError::UnknownCode));
}

#[test]
fn fix_etapp_rejects_labels_without_a_stage_number() {
    assert_eq!(fix_etapp("5"), Err(StageCodeError::MissingNumber));
}
