use wanna::app::Screen;
use wanna::model::Want;
use wanna::ui::{connection_label, done_title_width, pad, popup_area, row_number, row_title, status_help, truncate, Area};

#[test]
fn truncate_fits_or_cuts() {
    assert_eq!(truncate("abc", 3), "abc");
    assert_eq!(truncate("abcdef", 4), "abc…");
    assert_eq!(truncate("あいうえ", 5), "あい…");
    assert_eq!(truncate("abc", 0), "…");
    assert_eq!(truncate("あa", 3), "あa");
    assert_eq!(truncate("あa", 2), "…");
}

#[test]
fn pad_to_width() {
    assert_eq!(pad("ab", 4), "ab  ");
    assert_eq!(pad("あ", 3), "あ ");
    assert_eq!(pad("abcd", 2), "abcd");
    assert_eq!(pad("あa", 5), "あa  ");
}

#[test]
fn row_numbers() {
    assert_eq!(row_number(0), " 1 ");
    assert_eq!(row_number(8), " 9 ");
    assert_eq!(row_number(9), " 0 ");
    assert_eq!(row_number(10), "   ");
}

#[test]
fn row_titles() {
    assert_eq!(row_title("title", false, 20), "title");
    assert_eq!(row_title("title", true, 20), "title …");
    assert_eq!(row_title("a long title", true, 10), "a lon…");
    assert_eq!(row_title("abc", true, 7), "abc");
}

#[test]
fn status_badges() {
    assert_eq!(connection_label(false, Some(true)), " ローカルのみ ");
    assert_eq!(connection_label(true, Some(true)), " 同期 ");
    assert_eq!(connection_label(true, Some(false)), " オフライン ");
    assert_eq!(connection_label(true, None), " 接続中 ");
}

#[test]
fn popups_centre_and_shrink() {
    let a = Area { x: 0, y: 0, width: 100, height: 30 };
    assert_eq!(popup_area(a, 60, 5), Area { x: 20, y: 12, width: 60, height: 5 });
    let small = Area { x: 2, y: 1, width: 10, height: 4 };
    assert_eq!(popup_area(small, 60, 5), Area { x: 3, y: 2, width: 8, height: 2 });
}

#[test]
fn help_per_screen() {
    assert!(status_help(Screen::Wants).starts_with("n:追加"));
    assert!(status_help(Screen::Done).contains("u:やったを取り消す"));
}

#[test]
fn done_title_column_width() {
    let mut a = Want::new("あいう".into(), true, true, "V".into());
    a.done_at = Some("2026-09-18T00:00:00Z".into());
    let b = Want::new("x".repeat(50), true, true, "W".into());
    assert_eq!(done_title_width(&vec![]), 0);
    assert_eq!(done_title_width(&vec![&a]), 6);
    assert_eq!(done_title_width(&vec![&a, &b]), 40);
}
