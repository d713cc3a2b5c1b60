use leave_digest::date::Date;
use leave_digest::records::{EmployeeInfo, TimeOff, TimeOffWithEmployeeInfo};
use leave_digest::render::{render, Block};

fn d(year: u32, month: u32, day: u32) -> Date {
    Date { year, month, day }
}

fn entry(
    employee_id: u64,
    raw_name: &str,
    start: Date,
    end: Date,
    info: Option<EmployeeInfo>,
) -> TimeOffWithEmployeeInfo {
    TimeOffWithEmployeeInfo {
        time_off: TimeOff { employee_id, name: raw_name.to_string(), start, end },
        employee_info: info,
    }
}

fn info(
    first: Option<&str>,
    last: Option<&str>,
    preferred: Option<&str>,
    department: Option<&str>,
) -> EmployeeInfo {
    EmployeeInfo {
        first_name: first.map(|s| s.to_string()),
        last_name: last.map(|s| s.to_string()),
        preferred_name: preferred.map(|s| s.to_string()),
        department: department.map(|s| s.to_string()),
    }
}

#[test]
fn empty_input_renders_one_placeholder_block() {
    let blocks = render(Vec::new(), &d(2024, 4, 3));
    assert_eq!(blocks.len(), 1);
    match &blocks[0] {
        Block::Section(text) => assert_eq!(text, "*Nobody is on leave today*"),
        other => panic!("expected a placeholder section, got {:?}", other),
    }
}

#[test]
fn display_name_prefers_the_directory() {
    let with_preferred = entry(
        1,
        "Augusta King",
        d(2024, 4, 1),
        d(2024, 4, 3),
        Some(info(Some("Augusta"), Some("Lovelace"), Some("Ada"), None)),
    );
    assert_eq!(with_preferred.display_name(), "Ada Lovelace");

    let with_first = entry(
        1,
        "Augusta King",
        d(2024, 4, 1),
        d(2024, 4, 3),
        Some(info(Some("Augusta"), Some("Lovelace"), None, None)),
    );
    assert_eq!(with_first.display_name(), "Augusta Lovelace");

    let absent = entry(1, "Augusta King", d(2024, 4, 1), d(2024, 4, 3), None);
    assert_eq!(absent.display_name(), "Augusta King");
    assert_eq!(absent.first_name_from_time_off(), "Augusta");
    assert_eq!(absent.first_display_name(), "Augusta");
    assert_eq!(absent.last_display_name(), "King");
}

#[test]
fn free_text_names_split_at_the_first_space() {
    let single = entry(1, "Plato", d(2024, 4, 1), d(2024, 4, 3), None);
    assert_eq!(single.first_display_name(), "Plato");
    assert_eq!(single.last_display_name(), "");
    assert_eq!(single.display_name(), "Plato ");

    let three = entry(1, "Ada King Lovelace", d(2024, 4, 1), d(2024, 4, 3), None);
    assert_eq!(three.first_display_name(), "Ada");
    assert_eq!(three.last_display_name(), "King Lovelace");
}

#[test]
fn absent_directory_entry_falls_back_scenario() {
    let date = d(2024, 4, 3);
    let entries = vec![
        entry(
            1,
            "Ada Lovelace",
            d(2024, 4, 1),
            d(2024, 4, 10),
            Some(info(Some("Ada"), Some("Lovelace"), None, Some("Engineering"))),
        ),
        entry(2, "Grace Hopper", d(2024, 4, 2), d(2024, 4, 10), None),
    ];
    let blocks = render(entries, &date);
    // Header, then one section and one list per department.
    assert_eq!(blocks.len(), 5);
    match &blocks[0] {
        Block::Header(text) => assert_eq!(text, ":wave: On leave"),
        other => panic!("expected the header, got {:?}", other),
    }
    match &blocks[1] {
        Block::Section(text) => assert_eq!(text, "_Engineering_"),
        other => panic!("expected the Engineering label, got {:?}", other),
    }
    match &blocks[2] {
        Block::Bullets(items) => {
            assert_eq!(items.len(), 1);
            assert_eq!(items[0].name, "Ada Lovelace");
        },
        other => panic!("expected the Engineering list, got {:?}", other),
    }
    match &blocks[3] {
        Block::Section(text) => assert_eq!(text, "_Other departments_"),
        other => panic!("expected the fallback label, got {:?}", other),
    }
    match &blocks[4] {
        Block::Bullets(items) => {
            assert_eq!(items.len(), 1);
            // Named from the raw record's free text.
            assert_eq!(items[0].name, "Grace Hopper");
        },
        other => panic!("expected the fallback list, got {:?}", other),
    }
}

#[test]
fn return_phrases_relative_to_the_reference_date() {
    // Reference: Wednesday 2024-04-03.
    let date = d(2024, 4, 3);
    let cases: Vec<(Date, &str)> = vec![
        // Back the very next day.
        (d(2024, 4, 3), " - back tomorrow"),
        // Within the coming week: the weekday name.
        (d(2024, 4, 4), " - until Friday"),
        // Friday end: back Monday, still within the week.
        (d(2024, 4, 5), " - until Monday"),
        // Exactly one week out: "next" and the weekday name.
        (d(2024, 4, 9), " - until next Wednesday"),
        // Further out: the explicit date.
        (d(2024, 4, 10), " - until 11 April"),
        (d(2024, 4, 26), " - until 29 April"),
    ];
    for (end, expected) in cases {
        let entries = vec![entry(1, "Ada Lovelace", d(2024, 4, 1), end, None)];
        let blocks = render(entries, &date);
        match &blocks[2] {
            Block::Bullets(items) => {
                assert_eq!(items.len(), 1);
                assert_eq!(items[0].note, expected, "for end date {:?}", end);
            },
            other => panic!("expected a list, got {:?}", other),
        }
    }
}

#[test]
fn rendering_is_deterministic_under_input_order() {
    let date = d(2024, 4, 3);
    let a = entry(
        1,
        "Ada Lovelace",
        d(2024, 4, 1),
        d(2024, 4, 10),
        Some(info(Some("Ada"), Some("Lovelace"), None, Some("Engineering"))),
    );
    let b = entry(2, "Grace Hopper", d(2024, 4, 2), d(2024, 4, 12), None);
    let c = entry(
        3,
        "Alan Turing",
        d(2024, 4, 3),
        d(2024, 4, 9),
        Some(info(Some("Alan"), Some("Turing"), None, Some("Engineering"))),
    );
    let one = render(vec![a.clone(), b.clone(), c.clone()], &date);
    let two = render(vec![c.clone(), b.clone(), a.clone()], &date);
    let three = render(vec![b, c, a], &date);
    assert_eq!(one, two);
    assert_eq!(one, three);
    // Within Engineering, entries are ordered by display name.
    match (&one[1], &one[2]) {
        (Block::Section(label), Block::Bullets(items)) => {
            assert_eq!(label, "_Engineering_");
            assert_eq!(items.len(), 2);
            assert_eq!(items[0].name, "Ada Lovelace");
            assert_eq!(items[1].name, "Alan Turing");
        },
        other => panic!("expected the Engineering section first, got {:?}", other),
    }
}

#[test]
fn departments_sort_by_label() {
    let date = d(2024, 4, 3);
    let entries = vec![
        entry(
            1,
            "Zoe Ames",
            d(2024, 4, 1),
            d(2024, 4, 10),
            Some(info(Some("Zoe"), Some("Ames"), None, Some("Zoology"))),
        ),
        entry(2, "Bea Cole", d(2024, 4, 2), d(2024, 4, 10), None),
        entry(
            3,
            "Cal Dunn",
            d(2024, 4, 1),
            d(2024, 4, 10),
            Some(info(Some("Cal"), Some("Dunn"), None, Some("Accounts"))),
        ),
    ];
    let blocks = render(entries, &date);
    let labels: Vec<&String> = blocks
        .iter()
        .filter_map(|b| match b {
            Block::Section(s) => Some(s),
            _ => None,
        })
        .collect();
    assert_eq!(labels, vec!["_Accounts_", "_Other departments_", "_Zoology_"]);
}
