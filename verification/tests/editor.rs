use cv_timeline::editor::{char_is_whitespace, is_blank, subtitle_from_form, Editor};
use cv_timeline::model::{Timeline, TimelineBlock};

fn titled(t: &str) -> TimelineBlock {
    let mut b = TimelineBlock::default();
    b.title = t.to_owned();
    b
}

fn titles(e: &Editor) -> Vec<String> {
    e.timeline.blocks.iter().map(|b| b.title.clone()).collect()
}

#[test]
fn commit_without_edit_appends() {
    let mut e = Editor::new(Timeline::default());
    e.commit(titled("a"));
    e.commit(titled("b"));
    assert_eq!(titles(&e), vec!["a", "b"]);
    assert_eq!(e.editing_index, None);
}

#[test]
fn commit_after_start_edit_replaces_that_block() {
    let mut e = Editor::new(Timeline::default());
    e.commit(titled("a"));
    e.commit(titled("b"));
    e.start_edit(0);
    assert_eq!(titles(&e), vec!["a", "b"]);
    e.commit(titled("z"));
    assert_eq!(titles(&e), vec!["z", "b"]);
    assert_eq!(e.editing_index, None);
}

#[test]
fn deleting_the_edited_block_cancels_the_edit() {
    let mut e = Editor::new(Timeline::default());
    e.commit(titled("a"));
    e.commit(titled("b"));
    e.start_edit(1);
    assert!(!e.delete_block(0));
    // The edit follows block "b", now at index 0.
    assert_eq!(e.editing_index, Some(0));
    assert_eq!(titles(&e), vec!["b"]);
    assert!(e.delete_block(0));
    assert_eq!(e.editing_index, None);
    assert!(e.timeline.blocks.is_empty());
}

#[test]
fn open_replaces_timeline_and_cancels_edit() {
    let mut e = Editor::new(Timeline::default());
    e.commit(titled("a"));
    e.start_edit(0);
    e.open(Timeline::default());
    assert!(e.timeline.blocks.is_empty());
    assert_eq!(e.editing_index, None);
}

#[test]
fn blank_is_trim_is_empty() {
    for s in ["", " ", "\t\n", "\u{3000}\u{2009}", " a ", "x", "\u{200B}"] {
        assert_eq!(is_blank(s), s.trim().is_empty(), "{s:?}");
    }
}

#[test]
fn whitespace_set_is_the_unicode_one() {
    for c in (0u32..=0x10FFFF).filter_map(char::from_u32) {
        let s = c.to_string();
        assert_eq!(char_is_whitespace(c), c.is_whitespace(), "{:x}", c as u32);
        assert_eq!(is_blank(&s), c.is_whitespace(), "{:x}", c as u32);
    }
}

#[test]
fn subtitle_blank_becomes_none() {
    assert_eq!(subtitle_from_form(&"  ".to_owned()), None);
    assert_eq!(subtitle_from_form(&" MSc ".to_owned()), Some(" MSc ".to_owned()));
}

#[test]
fn deleting_a_later_block_keeps_the_edit_index() {
    let mut e = Editor::new(Timeline::default());
    e.commit(titled("a"));
    e.commit(titled("b"));
    e.commit(titled("c"));
    e.start_edit(1);
    assert!(!e.delete_block(2));
    assert_eq!(e.editing_index, Some(1));
    e.commit(titled("z"));
    assert_eq!(titles(&e), vec!["a", "z"]);
}
