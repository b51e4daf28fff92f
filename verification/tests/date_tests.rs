use mail_date_rename::extract::get_date;
use mail_date_rename::locale::change_date_en;
use mail_date_rename::locale::change_date_jp;
use mail_date_rename::DateError;

#[test]
fn get_date_test1() {
    let actual = get_date("Sent: Saturday, November 22, 2008 5:02 PM<br>").unwrap();
    let expected = "20081122".to_string();
    assert_eq!(expected, actual);
}

#[test]
fn get_date_test2() {
    let actual = get_date("日付: 2012年9月5日 21:14<br>").unwrap();
    let expected = "20120905".to_string();
    assert_eq!(expected, actual);
}

#[test]
fn get_date_test3() {
    let actual =
        get_date("Sent: Saturday, November 22, 2008 5:02 PM<br>日付: 2012年9月18日 21:14<br>")
            .unwrap();
    let expected = "20081122".to_string();
    assert_eq!(expected, actual);
}

#[test]
fn get_date_test4() {
    let actual =
        get_date("Sent: Saturday, November 22, 2008 5:02 PM<br>日付: 2007年9月18日 21:14<br>")
            .unwrap();
    let expected = "20070918".to_string();
    assert_eq!(expected, actual);
}

#[test]
fn no_fragment_yields_sentinel() {
    assert_eq!("99999999".to_string(), get_date("no date header anywhere").unwrap());
    assert_eq!("99999999".to_string(), get_date("").unwrap());
}

#[test]
fn marker_without_terminator_yields_sentinel() {
    assert_eq!(
        "99999999".to_string(),
        get_date("Sent: Saturday, November 22, 2008 5:02 PM").unwrap()
    );
}

#[test]
fn equal_dates_keep_the_value() {
    let actual =
        get_date("Sent: Saturday, November 22, 2008 5:02 PM<br>日付: 2008年11月22日 1:00<br>")
            .unwrap();
    assert_eq!("20081122".to_string(), actual);
}

#[test]
fn english_parser_normalizes() {
    let actual = change_date_en("Saturday, November 22, 2008 5:02 PM").unwrap();
    assert_eq!("20081122".to_string(), actual);
}

#[test]
fn english_parser_pads_single_digit_day() {
    let actual = change_date_en("Saturday, May 2, 2020 5:02 PM").unwrap();
    assert_eq!("20200502".to_string(), actual);
}

#[test]
fn japanese_parser_normalizes() {
    let actual = change_date_jp("2012年9月5日 21:14").unwrap();
    assert_eq!("20120905".to_string(), actual);
}

#[test]
fn japanese_parser_pads_month_and_day() {
    let actual = change_date_jp("2012年9月5日").unwrap();
    assert_eq!("20120905".to_string(), actual);
}

#[test]
fn unrecognized_month_name_is_reported() {
    let actual = get_date("Sent: Saturday, Novembre 22, 2008 5:02 PM<br>");
    assert_eq!(Err(DateError::UnrecognizedMonthName), actual);
}

#[test]
fn short_english_fragment_is_reported() {
    let actual = get_date("Sent: tomorrow<br>");
    assert_eq!(Err(DateError::MalformedEnglishDate), actual);
}

#[test]
fn japanese_fragment_without_triple_is_reported() {
    let actual = get_date("日付: 年月日がない<br>");
    assert_eq!(Err(DateError::MalformedJapaneseDate), actual);
}

#[test]
fn japanese_parser_rejects_missing_pattern() {
    let actual = change_date_jp("nothing numeric here");
    assert_eq!(Err(DateError::MalformedJapaneseDate), actual);
}
