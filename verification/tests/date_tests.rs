use a_puzzle_a_day::board::Date;
use a_puzzle_a_day::board::Square;

fn date(month: u8, day: u8) -> Date {
    Date {
        month: Square::from_index(month).unwrap(),
        day: Square::from_index(day).unwrap(),
    }
}

#[test]
fn validity_follows_month_lengths() {
    assert!(date(0, 14).is_valid()); // Jan 1
    assert!(date(0, 44).is_valid()); // Jan 31
    assert!(date(1, 42).is_valid()); // Feb 29
    assert!(!date(1, 43).is_valid()); // Feb 30
    assert!(!date(1, 44).is_valid()); // Feb 31
    assert!(!date(3, 44).is_valid()); // Apr 31
    assert!(!date(5, 44).is_valid()); // Jun 31
    assert!(!date(9, 44).is_valid()); // Sep 31
    assert!(!date(11, 44).is_valid()); // Nov 31
    assert!(date(4, 44).is_valid()); // May 31
    assert!(date(12, 44).is_valid()); // Dec 31
}

#[test]
fn validity_rejects_non_calendar_squares() {
    // A day square used as the month, and a month square used as the day.
    let mixed = Date {
        month: Square::from_index(20).unwrap(),
        day: Square::from_index(3).unwrap(),
    };
    assert!(!mixed.is_valid());
}

#[test]
fn next_steps_through_month_ends() {
    assert_eq!(date(0, 14).next(), date(0, 15)); // Jan 1 -> Jan 2
    assert_eq!(date(0, 44).next(), date(1, 14)); // Jan 31 -> Feb 1
    assert_eq!(date(1, 42).next(), date(2, 14)); // Feb 29 -> Mar 1
    assert_eq!(date(3, 43).next(), date(4, 14)); // Apr 30 -> May 1
    assert_eq!(date(5, 43).next(), date(7, 14)); // Jun 30 -> Jul 1
    assert_eq!(date(12, 44).next(), date(0, 14)); // Dec 31 -> Jan 1
}

#[test]
fn prev_steps_through_month_ends() {
    assert_eq!(date(0, 15).prev(), date(0, 14)); // Jan 2 -> Jan 1
    assert_eq!(date(1, 14).prev(), date(0, 44)); // Feb 1 -> Jan 31
    assert_eq!(date(2, 14).prev(), date(1, 42)); // Mar 1 -> Feb 29
    assert_eq!(date(7, 14).prev(), date(5, 43)); // Jul 1 -> Jun 30
    assert_eq!(date(0, 14).prev(), date(12, 44)); // Jan 1 -> Dec 31
}

#[test]
fn invalid_dates_step_to_january_first() {
    assert_eq!(date(1, 43).next(), date(0, 14));
    assert_eq!(date(1, 43).prev(), date(0, 14));
}

#[test]
fn next_then_prev_is_identity_over_all_dates() {
    // Walk the full cycle of valid dates: 366 of them (February has 29
    // days on this board), wrapping December 31 back to January 1.
    let start = date(0, 14);
    let mut current = start;
    let mut count: usize = 0;
    loop {
        let next = current.next();
        assert!(next.is_valid());
        assert_eq!(next.prev(), current);
        assert_eq!(current.next(), next);
        current = next;
        count += 1;
        if current == start {
            break;
        }
        assert!(count <= 400, "date cycle did not close");
    }
    assert_eq!(count, 366);
}
