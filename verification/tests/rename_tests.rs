use mail_date_rename::rename::make_new_name;
use mail_date_rename::text::chars_to_string;
use mail_date_rename::text::str_to_chars;

#[test]
fn filename_transform() {
    let actual = make_new_name("D:\\temp\\data", "D:\\temp\\data\\Fwd FW report.eml", "20081122");
    assert_eq!("D:\\temp\\data\\20081122_report.eml".to_string(), actual);
}

#[test]
fn filename_transform_keeps_unrelated_names() {
    let actual = make_new_name("D:\\temp\\data", "D:\\temp\\data\\plain.eml", "20120905");
    assert_eq!("D:\\temp\\data\\20120905_plain.eml".to_string(), actual);
}

#[test]
fn filename_transform_removes_every_forward_marker() {
    let actual = make_new_name("r", "r\\Fwd Fwd FW a FW b.eml", "20200101");
    assert_eq!("r\\20200101_a b.eml".to_string(), actual);
}

#[test]
fn string_round_trip_through_chars() {
    let chars = str_to_chars("Sent: 日付 99999999");
    assert_eq!("Sent: 日付 99999999".to_string(), chars_to_string(&chars));
    assert_eq!(17, chars.len());
}
