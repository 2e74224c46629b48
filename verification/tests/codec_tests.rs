use cool_organizer::codec::decode;
use cool_organizer::codec::decode_or_empty;
use cool_organizer::codec::encode;
use cool_organizer::task::DueDate;
use cool_organizer::task::Task;

fn task(name: &str, category: &str, sub: &str, due: Option<DueDate>, done: bool, priority: u8) -> Task {
    Task {
        name: name.to_string(),
        category: category.to_string(),
        sub_category: sub.to_string(),
        due,
        done,
        priority,
    }
}

fn assert_tasks_equal(a: &[Task], b: &[Task]) {
    assert_eq!(a.len(), b.len());
    for (x, y) in a.iter().zip(b.iter()) {
        assert_eq!(x.name, y.name);
        assert_eq!(x.category, y.category);
        assert_eq!(x.sub_category, y.sub_category);
        assert_eq!(x.due, y.due);
        assert_eq!(x.done, y.done);
        assert_eq!(x.priority, y.priority);
    }
}

#[test]
fn round_trip_empty() {
    let tasks: Vec<Task> = Vec::new();
    let text = encode(&tasks);
    let back = decode(&text).expect("well-formed encoding must decode");
    assert!(back.is_empty());
}

#[test]
fn round_trip_all_fields() {
    let date = DueDate::new(2024, 2, 29).expect("leap day is valid");
    let tasks = vec![
        task("Buy milk", "Errands", "", None, false, 0),
        task("Call dentist", "Home", "health", Some(date), true, 255),
        task("weird:name 7:", "with space", "a)b(c", None, false, 42),
        task("", "", "", Some(DueDate::new(1, 1, 1).unwrap()), true, 9),
    ];
    let text = encode(&tasks);
    let back = decode(&text).expect("well-formed encoding must decode");
    assert_tasks_equal(&tasks, &back);
}

#[test]
fn round_trip_unicode() {
    let tasks = vec![task("héllo wörld", "カテゴリ", "søb", None, false, 128)];
    let text = encode(&tasks);
    let back = decode(&text).expect("well-formed encoding must decode");
    assert_tasks_equal(&tasks, &back);
}

#[test]
fn decode_garbage_fails() {
    let garbage: Vec<char> = "this is not an encoding".chars().collect();
    assert!(decode(&garbage).is_none());
    assert!(decode_or_empty(&garbage).is_empty());
}

#[test]
fn decode_empty_text_fails() {
    let empty: Vec<char> = Vec::new();
    assert!(decode(&empty).is_none());
    assert!(decode_or_empty(&empty).is_empty());
}

#[test]
fn decode_truncated_fails() {
    let tasks = vec![task("Buy milk", "Errands", "", None, false, 3)];
    let mut text = encode(&tasks);
    text.truncate(text.len() - 1);
    assert!(decode(&text).is_none());
}

#[test]
fn decode_trailing_garbage_fails() {
    let tasks = vec![task("Buy milk", "Errands", "", None, false, 3)];
    let mut text = encode(&tasks);
    text.push('x');
    assert!(decode(&text).is_none());
}

#[test]
fn encode_is_deterministic() {
    let tasks = vec![task("a", "b", "c", None, true, 7)];
    assert_eq!(encode(&tasks), encode(&tasks));
}
