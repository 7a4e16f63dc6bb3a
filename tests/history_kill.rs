use line_editor::{Engine, HistoryStore, KillRegister};

fn engine_with(text: &str) -> Engine {
    let mut e = Engine::new();
    e.set_buffer(text.to_string());
    e.move_to_end();
    e
}

#[test]
fn recall_scenario() {
    let mut h = HistoryStore::new();
    assert_eq!(h.capacity(), 100);
    h.submit("a".to_string());
    h.submit("b".to_string());
    h.submit("c".to_string());
    assert_eq!(h.recall_older(), Some("c".to_string()));
    assert_eq!(h.recall_older(), Some("b".to_string()));
    assert_eq!(h.recall_newer(), "c".to_string());
    assert_eq!(h.recall_newer(), "".to_string());
}

#[test]
fn recall_older_stops_at_the_oldest() {
    let mut h = HistoryStore::new();
    assert_eq!(h.recall_older(), None);
    h.submit("only".to_string());
    assert_eq!(h.recall_older(), Some("only".to_string()));
    assert_eq!(h.recall_older(), None);
    assert_eq!(h.recall_newer(), "".to_string());
    assert_eq!(h.recall_newer(), "".to_string());
    assert_eq!(h.recall_older(), Some("only".to_string()));
}

#[test]
fn submit_ends_recall() {
    let mut h = HistoryStore::new();
    h.submit("x".to_string());
    h.submit("y".to_string());
    assert_eq!(h.recall_older(), Some("y".to_string()));
    h.submit("z".to_string());
    assert_eq!(h.recall_older(), Some("z".to_string()));
}

#[test]
fn capacity_keeps_latest() {
    let mut h = HistoryStore::with_capacity(3);
    for line in ["l1", "l2", "l3", "l4", "l5"] {
        h.submit(line.to_string());
    }
    assert_eq!(h.len(), 3);
    assert_eq!(h.entries(), &vec!["l5".to_string(), "l4".to_string(), "l3".to_string()]);
}

#[test]
fn capacity_zero_keeps_nothing() {
    let mut h = HistoryStore::with_capacity(0);
    h.submit("a".to_string());
    assert_eq!(h.len(), 0);
    assert_eq!(h.recall_older(), None);
}

#[test]
fn register_ignores_empty_cuts() {
    let mut k = KillRegister::new();
    assert_eq!(k.get(), "");
    k.set("abc".to_string());
    assert_eq!(k.get(), "abc");
    k.set(String::new());
    assert_eq!(k.get(), "abc");
    assert_eq!(k.get(), "abc");
}

#[test]
fn cut_then_yank_restores() {
    let mut e = engine_with("hello brave world");
    let mut k = KillRegister::new();
    k.cut_range(&mut e, 6, 12).unwrap();
    assert_eq!(e.get_buffer(), "hello world");
    assert_eq!(e.get_insertion_point(), 6);
    assert_eq!(k.get(), "brave ");
    k.yank(&mut e);
    assert_eq!(e.get_buffer(), "hello brave world");
    assert_eq!(e.get_insertion_point(), 12);
    assert_eq!(k.get(), "brave ");
}

#[test]
fn cut_rejects_bad_range() {
    let mut e = engine_with("né");
    let mut k = KillRegister::new();
    assert!(k.cut_range(&mut e, 2, 3).is_err());
    assert!(k.cut_range(&mut e, 1, 0).is_err());
    assert_eq!(e.get_buffer(), "né");
    assert_eq!(k.get(), "");
}

#[test]
fn kill_to_end_and_start() {
    let mut e = engine_with("abc def");
    let mut k = KillRegister::new();
    e.set_insertion_point(3).unwrap();
    k.kill_to_end(&mut e);
    assert_eq!(e.get_buffer(), "abc");
    assert_eq!(k.get(), " def");
    e.set_insertion_point(1).unwrap();
    k.kill_to_start(&mut e);
    assert_eq!(e.get_buffer(), "bc");
    assert_eq!(e.get_insertion_point(), 0);
    assert_eq!(k.get(), "a");
    k.kill_to_start(&mut e);
    assert_eq!(k.get(), "a");
}

#[test]
fn kill_words() {
    let mut e = engine_with("foo bar baz");
    let mut k = KillRegister::new();
    k.kill_word_backward(&mut e);
    assert_eq!(e.get_buffer(), "foo bar ");
    assert_eq!(e.get_insertion_point(), 8);
    assert_eq!(k.get(), "baz");
    e.set_insertion_point(3).unwrap();
    k.kill_word_forward(&mut e);
    assert_eq!(e.get_buffer(), "foo ");
    assert_eq!(e.get_insertion_point(), 3);
    assert_eq!(k.get(), " bar");
    k.yank(&mut e);
    assert_eq!(e.get_buffer(), "foo bar ");
    assert_eq!(e.get_insertion_point(), 7);
}
