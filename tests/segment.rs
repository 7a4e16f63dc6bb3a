use line_editor::segment::{first_word_end, last_word_start, next_piece_start, prev_piece_start};

fn pieces(parts: &[&str]) -> Vec<(usize, String)> {
    let mut offset = 0;
    let mut out = Vec::new();
    for p in parts {
        out.push((offset, p.to_string()));
        offset += p.len();
    }
    out
}

#[test]
fn next_piece_start_steps_over_pieces() {
    let p = pieces(&["a", "🇷🇺", "b"]);
    assert_eq!(next_piece_start(&p, 10, 0), 1);
    assert_eq!(next_piece_start(&p, 10, 1), 9);
    assert_eq!(next_piece_start(&p, 10, 3), 9);
    assert_eq!(next_piece_start(&p, 10, 9), 10);
    assert_eq!(next_piece_start(&p, 10, 10), 10);
    assert_eq!(next_piece_start(&Vec::new(), 0, 0), 0);
}

#[test]
fn prev_piece_start_steps_over_pieces() {
    let p = pieces(&["a", "🇷🇺", "b"]);
    assert_eq!(prev_piece_start(&p, 10, 10), 9);
    assert_eq!(prev_piece_start(&p, 10, 9), 1);
    assert_eq!(prev_piece_start(&p, 10, 5), 1);
    assert_eq!(prev_piece_start(&p, 10, 1), 0);
    assert_eq!(prev_piece_start(&p, 10, 0), 0);
}

#[test]
fn last_word_start_skips_separators() {
    let p = pieces(&["foo", " ", "bar", ", ", "baz"]);
    assert_eq!(last_word_start(&p, 12, 12), 9);
    assert_eq!(last_word_start(&p, 12, 9), 4);
    assert_eq!(last_word_start(&p, 12, 8), 4);
    assert_eq!(last_word_start(&p, 12, 5), 4);
    assert_eq!(last_word_start(&p, 12, 4), 0);
    assert_eq!(last_word_start(&p, 12, 0), 0);
    let q = pieces(&[" ", "!"]);
    assert_eq!(last_word_start(&q, 2, 2), 0);
}

#[test]
fn first_word_end_skips_separators() {
    let p = pieces(&["foo", " ", "bar", ", ", "baz"]);
    assert_eq!(first_word_end(&p, 12, 0), 3);
    assert_eq!(first_word_end(&p, 12, 3), 7);
    assert_eq!(first_word_end(&p, 12, 5), 7);
    assert_eq!(first_word_end(&p, 12, 7), 12);
    assert_eq!(first_word_end(&p, 12, 12), 12);
    let q = pieces(&[" ", "!"]);
    assert_eq!(first_word_end(&q, 2, 0), 2);
}
