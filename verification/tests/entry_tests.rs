use seglog::entry::{Entry, RelativeEntry};

#[test]
fn entry_new_sets_fields() {
    let entry = Entry::new(5, 10);
    assert_eq!(entry, Entry { offset: 5, position: 10 });
}

#[test]
fn relative_entry_encodes_against_the_base() {
    let entry = Entry::new(5, 10);
    let relative = RelativeEntry::new(entry, 2);
    assert_eq!(relative, RelativeEntry { offset: 3, position: 10 });
}

#[test]
fn relative_entry_fill_restores_the_entry() {
    let entry = Entry::new(5, 10);
    let mut relative = RelativeEntry::new(entry, 2);
    let mut restored = Entry::new(0, 0);
    relative.fill(&mut restored, 2);
    assert_eq!(restored, entry);
}
