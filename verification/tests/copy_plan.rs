use bkupeval::copies::{plan_copies, plan_copies_answered};
use bkupeval::updates::Row;

fn row(name: &str, assigned: &str, new_name: &str) -> Row {
    Row {
        name: name.as_bytes().to_vec(),
        origin: b"Date Chg".to_vec(),
        current: b"2024-05-17 08:30:00".to_vec(),
        assigned: assigned.as_bytes().to_vec(),
        new_name: new_name.as_bytes().to_vec(),
    }
}

#[test]
fn copies_for_rows_with_a_date_and_a_new_name() {
    let rows = vec![
        row("a.jpg", "2024:05:18 08:30:00", "2024_05_18_08_30_00_500_a.jpg"),
        row("b.jpg", "-", "b2.jpg"),
        row("c.jpg", "2024:05:18 09:00:00", "-"),
        row("d.jpg", "2024-05-19 10:11:12", "d2.jpg"),
    ];
    let p = plan_copies(&rows, b"/src", b"/out");
    assert_eq!(p.bad_date_at, None);
    assert_eq!(p.copies.len(), 2);
    assert_eq!(p.copies[0].from, b"/src/a.jpg".to_vec());
    assert_eq!(p.copies[0].to, b"/out/2024_05_18_08_30_00_500_a.jpg".to_vec());
    assert_eq!(p.copies[0].date_arg, b"-AllDates=2024:05:18 08:30:00".to_vec());
    assert_eq!(p.copies[1].from, b"/src/d.jpg".to_vec());
    assert_eq!(p.copies[1].to, b"/out/d2.jpg".to_vec());
    assert_eq!(p.copies[1].date_arg, b"-AllDates=2024:05:19 10:11:12".to_vec());
}

#[test]
fn a_date_to_assign_that_is_no_date_stops_the_copies() {
    let rows = vec![
        row("a.jpg", "2024:05:18 08:30:00", "a2.jpg"),
        row("b.jpg", "2024:02:30 08:30:00", "b2.jpg"),
        row("c.jpg", "2024:05:18 08:30:00", "c2.jpg"),
    ];
    let p = plan_copies(&rows, b"/src", b"/out");
    assert_eq!(p.bad_date_at, Some(1));
    assert_eq!(p.copies.len(), 1);
    assert_eq!(p.copies[0].to, b"/out/a2.jpg".to_vec());
}

#[test]
fn nothing_to_copy() {
    let rows = vec![row("a.jpg", "-", "-")];
    let p = plan_copies(&rows, b"/src", b"/out");
    assert_eq!(p.bad_date_at, None);
    assert!(p.copies.is_empty());
}

#[test]
fn copies_with_the_answers_of_chrono() {
    let rows = vec![
        row("a.jpg", "2024:05:18 08:30:00", "a2.jpg"),
        row("b.jpg", "-", "b2.jpg"),
        row("c.jpg", "2024:05:19 08:30:00", "c2.jpg"),
    ];
    let all = plan_copies_answered(&rows, b"/src", b"/out", &vec![true, false, true]);
    assert_eq!(all.bad_date_at, None);
    assert_eq!(all.copies.len(), 2);
    assert_eq!(all.copies[1].date_arg, b"-AllDates=2024:05:19 08:30:00".to_vec());
    let refused = plan_copies_answered(&rows, b"/src", b"/out", &vec![true, false, false]);
    assert_eq!(refused.bad_date_at, Some(2));
    assert_eq!(refused.copies.len(), 1);
    assert_eq!(refused.copies[0].to, b"/out/a2.jpg".to_vec());
}
