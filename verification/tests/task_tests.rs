use cool_organizer::task::DueDate;
use cool_organizer::task::OrganizerError;
use cool_organizer::task::Task;

#[test]
fn new_task_defaults() {
    let t = Task::new("new task".to_string());
    assert_eq!(t.name, "new task");
    assert_eq!(t.category, "");
    assert_eq!(t.sub_category, "");
    assert!(t.due.is_none());
    assert!(!t.done);
    assert_eq!(t.priority, 0);
}

#[test]
fn formatted_short_is_name() {
    let t = Task::new("Buy milk".to_string());
    assert_eq!(t.formatted(false), "Buy milk");
}

#[test]
fn formatted_full_not_done() {
    let t = Task::new("Buy milk".to_string());
    assert_eq!(t.formatted(true), "[ ] Buy milk !0");
}

#[test]
fn formatted_full_done_with_sub_and_priority() {
    let mut t = Task::new("Call dentist".to_string());
    t.sub_category = "health".to_string();
    t.done = true;
    t.priority = 255;
    assert_eq!(t.formatted(true), "[x] Call dentist (health) !255");
}

#[test]
fn formatted_distinguishes_done() {
    let mut a = Task::new("same".to_string());
    let mut b = Task::new("same".to_string());
    a.done = true;
    b.done = false;
    assert_ne!(a.formatted(true), b.formatted(true));
}

#[test]
fn date_accepts_real_days() {
    assert_eq!(DueDate::new(2024, 2, 29), Ok(DueDate { year: 2024, month: 2, day: 29 }));
    assert_eq!(DueDate::new(2000, 2, 29), Ok(DueDate { year: 2000, month: 2, day: 29 }));
    assert_eq!(DueDate::new(2023, 12, 31), Ok(DueDate { year: 2023, month: 12, day: 31 }));
    assert_eq!(DueDate::new(2023, 4, 30), Ok(DueDate { year: 2023, month: 4, day: 30 }));
}

#[test]
fn date_rejects_invalid_days() {
    assert_eq!(DueDate::new(2023, 2, 29), Err(OrganizerError::InvalidDate));
    assert_eq!(DueDate::new(1900, 2, 29), Err(OrganizerError::InvalidDate));
    assert_eq!(DueDate::new(2023, 4, 31), Err(OrganizerError::InvalidDate));
    assert_eq!(DueDate::new(2023, 13, 1), Err(OrganizerError::InvalidDate));
    assert_eq!(DueDate::new(2023, 0, 1), Err(OrganizerError::InvalidDate));
    assert_eq!(DueDate::new(2023, 6, 0), Err(OrganizerError::InvalidDate));
}
