use leave_digest::date::Date;
use leave_digest::merge::{current_contiguous_period_per_user, same_or_adjacent_workdays};
use leave_digest::records::TimeOff;

fn d(year: u32, month: u32, day: u32) -> Date {
    Date { year, month, day }
}

fn record(employee_id: u64, name: &str, start: Date, end: Date) -> TimeOff {
    TimeOff { employee_id, name: name.to_string(), start, end }
}

#[test]
fn adjacency_same_day_and_next_day() {
    assert!(same_or_adjacent_workdays(&d(2024, 4, 3), &d(2024, 4, 3)));
    assert!(same_or_adjacent_workdays(&d(2024, 4, 3), &d(2024, 4, 4)));
    assert!(same_or_adjacent_workdays(&d(2024, 4, 4), &d(2024, 4, 3)));
    assert!(!same_or_adjacent_workdays(&d(2024, 4, 1), &d(2024, 4, 3)));
}

#[test]
fn adjacency_across_a_weekend() {
    // 2024-04-05 is a Friday and 2024-04-08 the following Monday.
    assert!(same_or_adjacent_workdays(&d(2024, 4, 5), &d(2024, 4, 8)));
    assert!(same_or_adjacent_workdays(&d(2024, 4, 8), &d(2024, 4, 5)));
    // Three days apart, but not starting on a Friday.
    assert!(!same_or_adjacent_workdays(&d(2024, 4, 3), &d(2024, 4, 6)));
    // A Friday, but four days apart.
    assert!(!same_or_adjacent_workdays(&d(2024, 4, 5), &d(2024, 4, 9)));
}

#[test]
fn merges_fragmented_records_scenario() {
    let records = vec![
        record(1, "Ada Lovelace", d(2024, 4, 1), d(2024, 4, 2)),
        record(1, "Ada Lovelace", d(2024, 4, 3), d(2024, 4, 5)),
    ];
    // Seen from 2024-04-02, both fragments are still relevant and chain
    // into one period.
    let merged = current_contiguous_period_per_user(&records, &d(2024, 4, 2));
    assert_eq!(merged.len(), 1);
    assert_eq!(merged[0].employee_id, 1);
    assert_eq!(merged[0].start, d(2024, 4, 1));
    assert_eq!(merged[0].end, d(2024, 4, 5));
    // The merged period ends on a Friday, so the return date is the Monday.
    assert_eq!(merged[0].return_date(), d(2024, 4, 8));

    // Seen from 2024-04-03, the first fragment already ended and is
    // discarded before merging; the period starts with the second.
    let merged_later = current_contiguous_period_per_user(&records, &d(2024, 4, 3));
    assert_eq!(merged_later.len(), 1);
    assert_eq!(merged_later[0].start, d(2024, 4, 3));
    assert_eq!(merged_later[0].end, d(2024, 4, 5));
    assert_eq!(merged_later[0].return_date(), d(2024, 4, 8));
}

#[test]
fn merges_across_a_weekend() {
    // First run ends Friday 2024-04-05; the next record starts on the
    // following Monday: one contiguous period.
    let records = vec![
        record(7, "Grace Hopper", d(2024, 4, 3), d(2024, 4, 5)),
        record(7, "Grace Hopper", d(2024, 4, 8), d(2024, 4, 9)),
    ];
    let merged = current_contiguous_period_per_user(&records, &d(2024, 4, 4));
    assert_eq!(merged.len(), 1);
    assert_eq!(merged[0].start, d(2024, 4, 3));
    assert_eq!(merged[0].end, d(2024, 4, 9));
}

#[test]
fn a_real_gap_keeps_only_the_first_run() {
    // Ends Wednesday 2024-04-03, resumes Friday 2024-04-05: a working day
    // lies in between, so only the first run is reported.
    let records = vec![
        record(3, "Alan Turing", d(2024, 4, 1), d(2024, 4, 3)),
        record(3, "Alan Turing", d(2024, 4, 5), d(2024, 4, 12)),
    ];
    let merged = current_contiguous_period_per_user(&records, &d(2024, 4, 2));
    assert_eq!(merged.len(), 1);
    assert_eq!(merged[0].start, d(2024, 4, 1));
    assert_eq!(merged[0].end, d(2024, 4, 3));
}

#[test]
fn future_leave_is_not_current() {
    let records = vec![record(2, "Edsger Dijkstra", d(2024, 4, 10), d(2024, 4, 10))];
    let merged = current_contiguous_period_per_user(&records, &d(2024, 4, 9));
    assert_eq!(merged.len(), 0);
}

#[test]
fn finished_leave_is_dropped() {
    let records = vec![record(4, "Eva Perez", d(2024, 3, 25), d(2024, 3, 28))];
    let merged = current_contiguous_period_per_user(&records, &d(2024, 4, 3));
    assert_eq!(merged.len(), 0);
}

#[test]
fn boundary_dates_count_as_current() {
    let p = record(5, "Mo Woods", d(2024, 4, 3), d(2024, 4, 5));
    assert!(p.includes(&d(2024, 4, 3)));
    assert!(p.includes(&d(2024, 4, 5)));
    assert!(!p.includes(&d(2024, 4, 2)));
    assert!(!p.includes(&d(2024, 4, 6)));

    let at_start = current_contiguous_period_per_user(&vec![p.clone()], &d(2024, 4, 3));
    assert_eq!(at_start.len(), 1);
    let at_end = current_contiguous_period_per_user(&vec![p], &d(2024, 4, 5));
    assert_eq!(at_end.len(), 1);
}

#[test]
fn several_employees_are_reported_separately() {
    let records = vec![
        record(1, "Ada Lovelace", d(2024, 4, 1), d(2024, 4, 4)),
        record(2, "Edsger Dijkstra", d(2024, 4, 2), d(2024, 4, 3)),
        record(1, "Ada Lovelace", d(2024, 4, 5), d(2024, 4, 8)),
    ];
    let merged = current_contiguous_period_per_user(&records, &d(2024, 4, 3));
    assert_eq!(merged.len(), 2);
    let ada = merged.iter().find(|m| m.employee_id == 1).unwrap();
    assert_eq!(ada.start, d(2024, 4, 1));
    assert_eq!(ada.end, d(2024, 4, 8));
    let edsger = merged.iter().find(|m| m.employee_id == 2).unwrap();
    assert_eq!(edsger.start, d(2024, 4, 2));
    assert_eq!(edsger.end, d(2024, 4, 3));
}

#[test]
fn return_date_skips_weekends() {
    // Thursday end: back the next day.
    assert_eq!(record(1, "A B", d(2024, 4, 1), d(2024, 4, 4)).return_date(), d(2024, 4, 5));
    // Friday, Saturday, Sunday ends: back on Monday.
    assert_eq!(record(1, "A B", d(2024, 4, 1), d(2024, 4, 5)).return_date(), d(2024, 4, 8));
    assert_eq!(record(1, "A B", d(2024, 4, 1), d(2024, 4, 6)).return_date(), d(2024, 4, 8));
    assert_eq!(record(1, "A B", d(2024, 4, 1), d(2024, 4, 7)).return_date(), d(2024, 4, 8));
    // Re-application lands on working days only: a Monday return stays off
    // the weekend when pushed further.
    let monday_back = record(1, "A B", d(2024, 4, 1), d(2024, 4, 8)).return_date();
    assert_eq!(monday_back, d(2024, 4, 9));
    assert!(monday_back.weekday_from_monday() < 5);
}
