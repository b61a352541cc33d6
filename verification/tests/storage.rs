use agent_memory::storage::{Entry, Storage, StorageType};

#[test]
fn entry_keeps_its_text() {
    let e = Entry::new("fact".to_string());
    assert_eq!(e.data, "fact");
}

#[test]
fn storage_type_codes() {
    assert_eq!(StorageType::CurrentPrevious.as_u8(), 0);
    assert_eq!(StorageType::Untagged.as_u8(), 1);
    assert_eq!(StorageType::Tagged.as_u8(), 2);
}

#[test]
fn get_type_reports_discipline() {
    let s = Storage::new("facts", StorageType::Tagged);
    assert!(matches!(s.get_type(), StorageType::Tagged));
}

#[test]
fn empty_tagged_store_renders_marker() {
    let s = Storage::new("facts", StorageType::Tagged);
    assert_eq!(s.to_structured_string(), "<facts>\n  no entries yet\n</facts>");
}

#[test]
fn empty_untagged_store_renders_marker() {
    let s = Storage::new("todo", StorageType::Untagged);
    assert_eq!(s.to_structured_string(), "<todo>\n  no entries yet\n</todo>");
}

#[test]
fn ordered_positions_survive_removal() {
    let mut s = Storage::new("todo", StorageType::Untagged);
    s.add_untagged("a");
    s.add_untagged("b");
    // "a" sits at position 1, "b" at position 2
    assert_eq!(s.del_untagged(1), Some("a".to_string()));
    // "b" keeps its tag 2: position 1 is now empty, 2 still answers
    assert_eq!(s.del_untagged(1), None);
    assert_eq!(s.to_structured_string(), "<todo>\n  - b\n</todo>");
    assert_eq!(s.del_untagged(2), Some("b".to_string()));
    assert_eq!(s.to_structured_string(), "<todo>\n  no entries yet\n</todo>");
}

#[test]
fn removed_positions_are_never_reused() {
    let mut s = Storage::new("todo", StorageType::Untagged);
    s.add_untagged("a");
    s.add_untagged("b");
    assert_eq!(s.del_untagged(1), Some("a".to_string()));
    // the next add takes the fresh tag 3, not the freed tag 1 and not the
    // live tag 2: "b" survives untouched
    s.add_untagged("c");
    assert_eq!(s.to_structured_string(), "<todo>\n  - b\n  - c\n</todo>");
    assert_eq!(s.del_untagged(1), None);
    assert_eq!(s.del_untagged(2), Some("b".to_string()));
    assert_eq!(s.del_untagged(3), Some("c".to_string()));
}

#[test]
fn tagged_overwrite_keeps_single_entry() {
    let mut s = Storage::new("facts", StorageType::Tagged);
    s.add_tagged("k", "v1");
    s.add_tagged("k", "v2");
    assert_eq!(s.to_structured_string(), "<facts>\n  - k: v2\n</facts>");
    assert_eq!(s.del_tagged("k"), Some("v2".to_string()));
    assert_eq!(s.del_tagged("k"), None);
    assert_eq!(s.to_structured_string(), "<facts>\n  no entries yet\n</facts>");
}

#[test]
fn tagged_entries_render_in_insertion_order() {
    let mut s = Storage::new("facts", StorageType::Tagged);
    s.add_tagged("first", "1");
    s.add_tagged("second", "2");
    s.add_tagged("first", "one");
    assert_eq!(s.to_structured_string(), "<facts>\n  - first: one\n  - second: 2\n</facts>");
}

#[test]
fn current_previous_rolls_one_slot() {
    let mut s = Storage::new("goal", StorageType::CurrentPrevious);
    assert_eq!(s.to_structured_string(), "");
    s.set_current("x");
    assert_eq!(s.to_structured_string(), "* Current goal: x");
    s.set_current("y");
    assert_eq!(s.to_structured_string(), "* Current goal: y\n* Previous goal: x");
    // a third set discards x entirely
    s.set_current("z");
    assert_eq!(s.to_structured_string(), "* Current goal: z\n* Previous goal: y");
    s.clear();
    assert_eq!(s.to_structured_string(), "");
}

#[test]
fn current_previous_values_are_trimmed_in_render() {
    let mut s = Storage::new("goal", StorageType::CurrentPrevious);
    s.set_current("  spaced out \n");
    assert_eq!(s.to_structured_string(), "* Current goal: spaced out");
    s.set_current("later");
    assert_eq!(s.to_structured_string(), "* Current goal: later\n* Previous goal: spaced out");
}

#[test]
fn clear_empties_every_discipline() {
    let mut t = Storage::new("facts", StorageType::Tagged);
    t.add_tagged("k", "v");
    t.clear();
    assert_eq!(t.to_structured_string(), "<facts>\n  no entries yet\n</facts>");

    let mut u = Storage::new("todo", StorageType::Untagged);
    u.add_untagged("a");
    u.clear();
    assert_eq!(u.to_structured_string(), "<todo>\n  no entries yet\n</todo>");
    // after a clear the position counter restarts from the live count
    u.add_untagged("b");
    assert_eq!(u.del_untagged(1), Some("b".to_string()));
}

#[test]
fn interleaved_tagged_mutations_match_their_serialization() {
    // two callers' operation streams, serialized by the store's lock in
    // one interleaving; the outcome equals replaying that serialization
    let mut live = Storage::new("facts", StorageType::Tagged);
    live.add_tagged("a", "1"); // caller one
    live.add_tagged("b", "2"); // caller two
    live.add_tagged("a", "3"); // caller one
    let removed = live.del_tagged("b"); // caller two
    assert_eq!(removed, Some("2".to_string()));

    let mut replay = Storage::new("facts", StorageType::Tagged);
    replay.add_tagged("a", "1");
    replay.add_tagged("b", "2");
    replay.add_tagged("a", "3");
    replay.del_tagged("b");
    assert_eq!(live.to_structured_string(), replay.to_structured_string());
    assert_eq!(live.to_structured_string(), "<facts>\n  - a: 3\n</facts>");
}
