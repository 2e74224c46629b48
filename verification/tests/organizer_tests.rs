use cool_organizer::organizer::Organizer;
use cool_organizer::task::OrganizerError;
use cool_organizer::task::Task;
use cool_organizer::tree::Signal;

fn task(name: &str, category: &str) -> Task {
    let mut t = Task::new(name.to_string());
    t.category = category.to_string();
    t
}

/// The category-derivation and no-empty-nodes laws, checked concretely:
/// node labels are exactly `categories()`, no node is empty, and every
/// leaf's parent label is its task's current category.
fn check_derived(org: &Organizer) {
    let cats = org.categories();
    let labels: Vec<String> = org.tree.nodes.iter().map(|n| n.label.clone()).collect();
    for c in cats.iter() {
        assert!(labels.contains(c), "category without node: {}", c);
    }
    for l in labels.iter() {
        assert!(cats.contains(l), "node without category: {}", l);
    }
    for node in org.tree.nodes.iter() {
        assert!(!node.leaves.is_empty(), "empty node: {}", node.label);
        for leaf in node.leaves.iter() {
            let entry = org
                .tasks()
                .iter()
                .find(|e| e.id == leaf.id)
                .expect("leaf without task");
            assert_eq!(entry.task.category, node.label);
            assert_eq!(entry.task.formatted(true), leaf.text);
        }
    }
    let leaf_count: usize = org.tree.nodes.iter().map(|n| n.leaves.len()).sum();
    assert_eq!(leaf_count, org.tasks().len());
}

#[test]
fn fresh_store_is_empty() {
    let org = Organizer::from_text(&Vec::new());
    assert!(org.tasks().is_empty());
    assert!(org.categories().is_empty());
    assert!(org.tree.nodes.is_empty());
}

#[test]
fn add_one_task() {
    let mut org = Organizer::new();
    let (id, sig) = org.add_task(task("Buy milk", "Errands"));
    assert_eq!(sig, Signal::Select(id));
    assert_eq!(org.tasks().len(), 1);
    assert_eq!(org.categories(), vec!["Errands".to_string()]);
    assert_eq!(org.tree.nodes.len(), 1);
    assert_eq!(org.tree.nodes[0].label, "Errands");
    assert_eq!(org.tree.nodes[0].leaves.len(), 1);
    assert_eq!(org.tree.nodes[0].leaves[0].id, id);
    check_derived(&org);
}

#[test]
fn edit_moves_between_categories() {
    let mut org = Organizer::new();
    let (id, _) = org.add_task(task("Buy milk", "Errands"));
    let sig = org.edit_task(id, task("Buy milk", "Home")).expect("task exists");
    assert_eq!(sig, Signal::Select(id));
    // the emptied "Errands" node is pruned and "Home" created on demand
    assert_eq!(org.tree.nodes.len(), 1);
    assert_eq!(org.tree.nodes[0].label, "Home");
    assert_eq!(org.tree.nodes[0].leaves.len(), 1);
    assert_eq!(org.tree.nodes[0].leaves[0].id, id);
    check_derived(&org);
}

#[test]
fn edit_same_category_refreshes_text() {
    let mut org = Organizer::new();
    let (id, _) = org.add_task(task("Buy milk", "Errands"));
    let mut edited = task("Buy oat milk", "Errands");
    edited.priority = 3;
    org.edit_task(id, edited).expect("task exists");
    assert_eq!(org.tree.nodes.len(), 1);
    assert_eq!(org.tree.nodes[0].leaves[0].text, "[ ] Buy oat milk !3");
    check_derived(&org);
}

#[test]
fn remove_done_keeps_order_and_prunes() {
    let mut org = Organizer::new();
    let (id1, _) = org.add_task(task("Buy milk", "Errands"));
    org.edit_task(id1, task("Buy milk", "Home")).expect("task exists");
    let (id2, _) = org.add_task(task("Call dentist", "Home"));
    let mut dentist_done = task("Call dentist", "Home");
    dentist_done.done = true;
    org.edit_task(id2, dentist_done).expect("task exists");
    let (_id3, _) = org.add_task(task("Pay rent", "Errands"));
    let sig = org.remove_done();
    assert_eq!(sig, Signal::ClearSelection);
    let names: Vec<String> = org.tasks().iter().map(|e| e.task.name.clone()).collect();
    assert_eq!(names, vec!["Buy milk".to_string(), "Pay rent".to_string()]);
    assert_eq!(org.tasks()[0].task.category, "Home");
    assert_eq!(org.tasks()[1].task.category, "Errands");
    check_derived(&org);
}

#[test]
fn remove_done_keeps_undone_in_relative_order() {
    let mut org = Organizer::new();
    for (name, done) in [("a", true), ("b", false), ("c", true), ("d", false), ("e", false)] {
        let mut t = task(name, "cat");
        t.done = done;
        org.add_task(t);
    }
    org.remove_done();
    let names: Vec<String> = org.tasks().iter().map(|e| e.task.name.clone()).collect();
    assert_eq!(names, vec!["b".to_string(), "d".to_string(), "e".to_string()]);
    check_derived(&org);
}

#[test]
fn remove_done_of_everything_empties_tree() {
    let mut org = Organizer::new();
    for name in ["a", "b"] {
        let mut t = task(name, "cat");
        t.done = true;
        org.add_task(t);
    }
    org.remove_done();
    assert!(org.tasks().is_empty());
    assert!(org.tree.nodes.is_empty());
    check_derived(&org);
}

#[test]
fn save_then_load_reproduces_state() {
    let mut org = Organizer::new();
    let (id1, _) = org.add_task(task("Buy milk", "Errands"));
    org.edit_task(id1, task("Buy milk", "Home")).expect("task exists");
    org.add_task(task("Call dentist", "Home"));
    org.add_task(task("Pay rent", "Errands"));
    let text = org.to_text();
    let loaded = Organizer::from_text(&text);
    assert_eq!(loaded.tasks().len(), 3);
    for (a, b) in org.tasks().iter().zip(loaded.tasks().iter()) {
        assert_eq!(a.task.name, b.task.name);
        assert_eq!(a.task.category, b.task.category);
        assert_eq!(a.task.sub_category, b.task.sub_category);
        assert_eq!(a.task.due, b.task.due);
        assert_eq!(a.task.done, b.task.done);
        assert_eq!(a.task.priority, b.task.priority);
    }
    check_derived(&loaded);
}

#[test]
fn edit_unknown_id_is_not_found() {
    let mut org = Organizer::new();
    let (id, _) = org.add_task(task("Buy milk", "Errands"));
    let before_names: Vec<String> = org.tasks().iter().map(|e| e.task.name.clone()).collect();
    let r = org.edit_task(id + 1, task("x", "y"));
    assert_eq!(r, Err(OrganizerError::NotFound));
    let after_names: Vec<String> = org.tasks().iter().map(|e| e.task.name.clone()).collect();
    assert_eq!(before_names, after_names);
    assert_eq!(org.tree.nodes.len(), 1);
    assert_eq!(org.tree.nodes[0].label, "Errands");
    check_derived(&org);
}

#[test]
fn delete_unknown_id_is_not_found() {
    let mut org = Organizer::new();
    org.add_task(task("Buy milk", "Errands"));
    let r = org.delete_task(9999);
    assert_eq!(r, Err(OrganizerError::NotFound));
    assert_eq!(org.tasks().len(), 1);
    check_derived(&org);
}

#[test]
fn delete_prunes_emptied_node() {
    let mut org = Organizer::new();
    let (id1, _) = org.add_task(task("Buy milk", "Errands"));
    org.add_task(task("Pay rent", "Bills"));
    let sig = org.delete_task(id1).expect("task exists");
    assert_eq!(sig, Signal::ClearSelection);
    assert_eq!(org.tree.nodes.len(), 1);
    assert_eq!(org.tree.nodes[0].label, "Bills");
    check_derived(&org);
}

#[test]
fn categories_first_seen_order() {
    let mut org = Organizer::new();
    org.add_task(task("a", "Z"));
    org.add_task(task("b", "A"));
    org.add_task(task("c", "Z"));
    org.add_task(task("d", "M"));
    assert_eq!(
        org.categories(),
        vec!["Z".to_string(), "A".to_string(), "M".to_string()]
    );
    check_derived(&org);
}

#[test]
fn many_mutations_keep_tree_derived() {
    let mut org = Organizer::new();
    let mut ids = Vec::new();
    for i in 0..10u32 {
        let cat = if i % 3 == 0 { "a" } else if i % 3 == 1 { "b" } else { "c" };
        let (id, _) = org.add_task(task(&format!("t{}", i), cat));
        ids.push(id);
        check_derived(&org);
    }
    org.edit_task(ids[0], task("t0", "b")).expect("exists");
    check_derived(&org);
    org.delete_task(ids[3]).expect("exists");
    check_derived(&org);
    let mut done = task("t6", "a");
    done.done = true;
    org.edit_task(ids[6], done).expect("exists");
    check_derived(&org);
    org.remove_done();
    check_derived(&org);
}
