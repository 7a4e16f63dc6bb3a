//! Text segmentation: grapheme clusters and word bounds as Unicode defines
//! them, and the cursor targets that editing derives from them.

use crate::text::{
    byte_len, is_boundary, lemma_boundary_facts, lemma_byte_len_concat, lemma_byte_len_single,
    lemma_char_width_pos, text_len,
};
use unicode_segmentation::UnicodeSegmentation;
use vstd::prelude::*;
use vstd::seq_lib::lemma_flatten_concat;

verus! {

/// The extended grapheme clusters of `s`, in order.
pub uninterp spec fn graphemes_of(s: Seq<char>) -> Seq<Seq<char>>;

/// The pieces of `s` between its Unicode word boundaries, in order.
pub uninterp spec fn word_bounds_of(s: Seq<char>) -> Seq<Seq<char>>;

/// The texts of a list of (offset, text) pieces.
pub open spec fn piece_texts(r: Seq<(usize, String)>) -> Seq<Seq<char>> {
    r.map_values(|p: (usize, String)| p.1@)
}

/// Byte offset at which piece `i` of `pieces` starts (for `i == pieces.len()`,
/// where the last one ends).
pub open spec fn piece_start(pieces: Seq<Seq<char>>, i: int) -> nat {
    byte_len(pieces.take(i).flatten())
}

/// `r` splits `s`: its pieces are non-empty, together spell `s`, and each comes
/// with the byte offset at which it starts.
pub open spec fn is_split_of(r: Seq<(usize, String)>, s: Seq<char>) -> bool {
    &&& piece_texts(r).flatten() == s
    &&& forall|i: int| 0 <= i < r.len() ==> (#[trigger] r[i]).1@.len() > 0
    &&& offsets_match(r)
}

/// Relies on UnicodeSegmentation::grapheme_indices with extended clusters: the
/// clusters of `s` in order, each with its byte offset; they are non-empty and
/// together spell `s`.
#[verifier::external_body]
fn grapheme_indices(s: &str) -> (r: Vec<(usize, String)>)
    ensures
        piece_texts(r@) == graphemes_of(s@),
        is_split_of(r@, s@),
{
    s.grapheme_indices(true).map(|(i, g)| (i, g.to_string())).collect()
}

/// Relies on UnicodeSegmentation::split_word_bound_indices: the pieces of `s`
/// between word boundaries in order, each with its byte offset; they are
/// non-empty and together spell `s`.
#[verifier::external_body]
fn word_bound_indices(s: &str) -> (r: Vec<(usize, String)>)
    ensures
        piece_texts(r@) == word_bounds_of(s@),
        is_split_of(r@, s@),
{
    s.split_word_bound_indices().map(|(i, w)| (i, w.to_string())).collect()
}

/// Piece starts never decrease.
pub proof fn lemma_piece_start_mono(pieces: Seq<Seq<char>>, j: int, k: int)
    requires
        0 <= j <= k <= pieces.len(),
    ensures
        piece_start(pieces, j) <= piece_start(pieces, k),
        j < k ==> piece_start(pieces, j) + byte_len(pieces[j]) <= piece_start(pieces, k),
{
    let a = pieces.take(j);
    let b = pieces.subrange(j, k);
    assert(pieces.take(k) =~= a + b);
    lemma_flatten_concat(a, b);
    lemma_byte_len_concat(a.flatten(), b.flatten());
    if j < k {
        assert(b =~= seq![pieces[j]] + b.drop_first());
        lemma_flatten_concat(seq![pieces[j]], b.drop_first());
        assert(seq![pieces[j]].flatten() =~= pieces[j]) by {
            assert(seq![pieces[j]].drop_first() =~= Seq::<Seq<char>>::empty());
        }
        lemma_byte_len_concat(pieces[j], b.drop_first().flatten());
    }
}

/// The start of each piece of a split of `s` is a character boundary of `s`, and
/// the end of the last piece is the end of `s`.
pub proof fn lemma_piece_start_boundary(pieces: Seq<Seq<char>>, s: Seq<char>, i: int)
    requires
        pieces.flatten() == s,
        0 <= i <= pieces.len(),
    ensures
        is_boundary(s, piece_start(pieces, i) as int),
        piece_start(pieces, pieces.len() as int) == byte_len(s),
{
    let a = pieces.take(i);
    let b = pieces.skip(i);
    assert(pieces =~= a + b);
    lemma_flatten_concat(a, b);
    let m = a.flatten().len() as int;
    assert(s.take(m) =~= a.flatten());
    assert(byte_len(s.take(m)) == piece_start(pieces, i));
    assert(pieces.take(pieces.len() as int) =~= pieces);
}

/// Each piece of `r` comes with the byte offset at which it starts.
pub open spec fn offsets_match(r: Seq<(usize, String)>) -> bool {
    forall|i: int| 0 <= i < r.len() ==> (#[trigger] r[i]).0 == piece_start(piece_texts(r), i)
}

/// `b` is a boundary of the split `pieces` of a text `total` bytes long: its
/// start, its end, or the start or end of a piece that lies within it.
pub open spec fn split_boundary(pieces: Seq<Seq<char>>, total: int, b: int) -> bool {
    &&& 0 <= b <= total
    &&& (b == 0 || b == total || exists|i: int|
        0 <= i <= pieces.len() && #[trigger] piece_start(pieces, i) == b)
}

/// `b` is the first boundary of the split after `pos`.
pub open spec fn first_boundary_after(pieces: Seq<Seq<char>>, total: int, pos: int, b: int) -> bool {
    &&& pos < b
    &&& split_boundary(pieces, total, b)
    &&& forall|x: int| pos < x < b ==> !#[trigger] split_boundary(pieces, total, x)
}

/// `b` is the last boundary of the split before `pos`.
pub open spec fn last_boundary_before(pieces: Seq<Seq<char>>, total: int, pos: int, b: int) -> bool {
    &&& b < pos
    &&& split_boundary(pieces, total, b)
    &&& forall|x: int| b < x < pos ==> !#[trigger] split_boundary(pieces, total, x)
}

/// The first boundary of the split after `pos`; from the end, the end.
pub open spec fn next_boundary(pieces: Seq<Seq<char>>, total: int, pos: int) -> int {
    if pos >= total {
        total
    } else {
        choose|b: int| first_boundary_after(pieces, total, pos, b)
    }
}

/// The last boundary of the split before `pos`; from the start, the start.
pub open spec fn prev_boundary(pieces: Seq<Seq<char>>, total: int, pos: int) -> int {
    if pos <= 0 {
        0
    } else {
        choose|b: int| last_boundary_before(pieces, total, pos, b)
    }
}

/// `b` is a cluster boundary of `s`: a boundary of its split into grapheme
/// clusters.
pub open spec fn cluster_boundary(s: Seq<char>, b: int) -> bool {
    split_boundary(graphemes_of(s), byte_len(s) as int, b)
}

/// Where a step right from byte offset `pos` of `s` lands: the next cluster
/// boundary; at the end it stays at the end.
pub open spec fn next_grapheme(s: Seq<char>, pos: int) -> int {
    next_boundary(graphemes_of(s), byte_len(s) as int, pos)
}

/// Where a step left from byte offset `pos` of `s` lands: the previous cluster
/// boundary; at the start it stays at the start.
pub open spec fn prev_grapheme(s: Seq<char>, pos: int) -> int {
    prev_boundary(graphemes_of(s), byte_len(s) as int, pos)
}

proof fn lemma_first_boundary_scan(pieces: Seq<Seq<char>>, total: int, pos: int, x: int)
    requires
        0 <= pos < x <= total,
        forall|y: int| pos < y < x ==> !#[trigger] split_boundary(pieces, total, y),
    ensures
        exists|b: int| first_boundary_after(pieces, total, pos, b),
    decreases total - x,
{
    if split_boundary(pieces, total, x) {
        assert(first_boundary_after(pieces, total, pos, x));
    } else {
        lemma_first_boundary_scan(pieces, total, pos, x + 1);
    }
}

proof fn lemma_last_boundary_scan(pieces: Seq<Seq<char>>, total: int, pos: int, x: int)
    requires
        0 <= x < pos <= total,
        forall|y: int| x < y < pos ==> !#[trigger] split_boundary(pieces, total, y),
    ensures
        exists|b: int| last_boundary_before(pieces, total, pos, b),
    decreases x,
{
    if split_boundary(pieces, total, x) {
        assert(last_boundary_before(pieces, total, pos, x));
    } else {
        lemma_last_boundary_scan(pieces, total, pos, x - 1);
    }
}

/// From a position before the end, the next boundary is the first one after
/// it, and only that one is.
pub proof fn lemma_next_boundary(pieces: Seq<Seq<char>>, total: int, pos: int, b: int)
    requires
        0 <= pos < total,
    ensures
        first_boundary_after(pieces, total, pos, next_boundary(pieces, total, pos)),
        first_boundary_after(pieces, total, pos, b) ==> b == next_boundary(pieces, total, pos),
{
    lemma_first_boundary_scan(pieces, total, pos, pos + 1);
    let n = next_boundary(pieces, total, pos);
    if first_boundary_after(pieces, total, pos, b) {
        if b < n {
            assert(!split_boundary(pieces, total, b));
        } else if n < b {
            assert(!split_boundary(pieces, total, n));
        }
    }
}

/// From a position after the start, the previous boundary is the last one
/// before it, and only that one is.
pub proof fn lemma_prev_boundary(pieces: Seq<Seq<char>>, total: int, pos: int, b: int)
    requires
        0 < pos <= total,
    ensures
        last_boundary_before(pieces, total, pos, prev_boundary(pieces, total, pos)),
        last_boundary_before(pieces, total, pos, b) ==> b == prev_boundary(pieces, total, pos),
{
    lemma_last_boundary_scan(pieces, total, pos, pos - 1);
    let p = prev_boundary(pieces, total, pos);
    if last_boundary_before(pieces, total, pos, b) {
        if b < p {
            assert(!split_boundary(pieces, total, p));
        } else if p < b {
            assert(!split_boundary(pieces, total, b));
        }
    }
}

/// The first boundary after `pos` of a split of a text `len` bytes long, given
/// its pieces with their offsets; from the end, the end.
pub fn next_piece_start(pieces: &Vec<(usize, String)>, len: usize, pos: usize) -> (r: usize)
    requires
        offsets_match(pieces@),
        piece_start(piece_texts(pieces@), pieces@.len() as int) == len,
        pos <= len,
    ensures
        r == next_boundary(piece_texts(pieces@), len as int, pos as int),
{
    let ghost g = piece_texts(pieces@);
    let n = pieces.len();
    let mut i: usize = 0;
    while i < n && pieces[i].0 <= pos
        invariant
            0 <= i <= n,
            n == pieces@.len() == g.len(),
            g == piece_texts(pieces@),
            offsets_match(pieces@),
            forall|j: int| 0 <= j < i ==> piece_start(g, j) <= pos,
        decreases n - i,
    {
        i += 1;
    }
    let r = if i < n {
        pieces[i].0
    } else {
        len
    };
    proof {
        lemma_piece_start_mono(g, i as int, n as int);
        assert(r == piece_start(g, i as int));
        if pos < len {
            assert forall|x: int| pos < x < r implies !#[trigger] split_boundary(
                g,
                len as int,
                x,
            ) by {
                if split_boundary(g, len as int, x) && x != 0 && x != len {
                    let j = choose|j: int|
                        0 <= j <= g.len() && #[trigger] piece_start(g, j) == x;
                    if j >= i {
                        lemma_piece_start_mono(g, i as int, j);
                    }
                }
            }
            assert(split_boundary(g, len as int, r as int));
            lemma_next_boundary(g, len as int, pos as int, r as int);
        }
    }
    r
}

/// The last boundary before `pos` of a split of a text `len` bytes long, given
/// its pieces with their offsets; from the start, the start.
pub fn prev_piece_start(pieces: &Vec<(usize, String)>, len: usize, pos: usize) -> (r: usize)
    requires
        offsets_match(pieces@),
        piece_start(piece_texts(pieces@), pieces@.len() as int) == len,
        pos <= len,
    ensures
        r == prev_boundary(piece_texts(pieces@), len as int, pos as int),
{
    let ghost g = piece_texts(pieces@);
    let n = pieces.len();
    let mut i: usize = 0;
    let mut prev: usize = 0;
    while i < n && pieces[i].0 < pos
        invariant
            0 <= i <= n,
            n == pieces@.len() == g.len(),
            g == piece_texts(pieces@),
            offsets_match(pieces@),
            forall|j: int| 0 <= j < i ==> piece_start(g, j) < pos,
            i == 0 ==> prev == 0,
            i > 0 ==> prev == piece_start(g, i - 1),
        decreases n - i,
    {
        prev = pieces[i].0;
        i += 1;
    }
    proof {
        if pos > 0 {
            assert(split_boundary(g, len as int, prev as int));
            assert forall|x: int| prev < x < pos implies !#[trigger] split_boundary(
                g,
                len as int,
                x,
            ) by {
                if split_boundary(g, len as int, x) && x != 0 && x != len {
                    let j = choose|j: int|
                        0 <= j <= g.len() && #[trigger] piece_start(g, j) == x;
                    if j < i {
                        lemma_piece_start_mono(g, j, i - 1);
                    } else if i < n {
                        lemma_piece_start_mono(g, i as int, j);
                    }
                }
            }
            lemma_prev_boundary(g, len as int, pos as int, prev as int);
        }
    }
    prev
}

/// A boundary of a split of `s` is a character boundary of `s`.
proof fn lemma_split_boundary_is_char_boundary(pieces: Seq<Seq<char>>, s: Seq<char>, b: int)
    requires
        pieces.flatten() == s,
        split_boundary(pieces, byte_len(s) as int, b),
    ensures
        is_boundary(s, b),
{
    lemma_piece_start_boundary(pieces, s, 0);
    lemma_piece_start_boundary(pieces, s, pieces.len() as int);
    assert(pieces.take(0) =~= Seq::<Seq<char>>::empty());
    if b != 0 && b != byte_len(s) {
        let j = choose|j: int| 0 <= j <= pieces.len() && #[trigger] piece_start(pieces, j) == b;
        lemma_piece_start_boundary(pieces, s, j);
    }
}

/// Byte offset of the next cluster boundary of `s` after `pos`, or the end.
pub(crate) fn next_grapheme_start(s: &String, pos: usize) -> (r: usize)
    requires
        is_boundary(s@, pos as int),
    ensures
        r == next_grapheme(s@, pos as int),
        is_boundary(s@, r as int),
{
    let pieces = grapheme_indices(s.as_str());
    let len = text_len(s);
    proof {
        lemma_boundary_facts(s@, pos as int);
        lemma_piece_start_boundary(graphemes_of(s@), s@, 0);
    }
    let r = next_piece_start(&pieces, len, pos);
    proof {
        if pos < len {
            lemma_next_boundary(graphemes_of(s@), len as int, pos as int, 0);
            lemma_split_boundary_is_char_boundary(graphemes_of(s@), s@, r as int);
        } else {
            lemma_split_boundary_is_char_boundary(graphemes_of(s@), s@, len as int);
        }
    }
    r
}

/// Byte offset of the previous cluster boundary of `s` before `pos`, or the start.
pub(crate) fn prev_grapheme_start(s: &String, pos: usize) -> (r: usize)
    requires
        is_boundary(s@, pos as int),
    ensures
        r == prev_grapheme(s@, pos as int),
        is_boundary(s@, r as int),
{
    let pieces = grapheme_indices(s.as_str());
    let len = text_len(s);
    proof {
        lemma_boundary_facts(s@, pos as int);
        lemma_piece_start_boundary(graphemes_of(s@), s@, 0);
    }
    let r = prev_piece_start(&pieces, len, pos);
    proof {
        if pos > 0 {
            lemma_prev_boundary(graphemes_of(s@), len as int, pos as int, 0);
            lemma_split_boundary_is_char_boundary(graphemes_of(s@), s@, r as int);
        } else {
            lemma_split_boundary_is_char_boundary(graphemes_of(s@), s@, 0);
        }
    }
    r
}

/// Whether `c` is alphabetic or numeric by its Unicode properties.
pub uninterp spec fn alphanumeric(c: char) -> bool;

/// Relies on char::is_alphanumeric: whether `c` has the Alphabetic property or
/// a Number general category.
#[verifier::external_body]
fn is_alphanumeric(c: char) -> (r: bool)
    ensures
        r == alphanumeric(c),
{
    c.is_alphanumeric()
}

/// `t` holds no alphanumeric character: it is punctuation or white space that
/// stands between words.
pub open spec fn separates_words(t: Seq<char>) -> bool {
    forall|j: int| 0 <= j < t.len() ==> !#[trigger] alphanumeric(t[j])
}

/// Whether `s` holds no alphanumeric character.
pub fn is_word_boundary(s: &str) -> (r: bool)
    ensures
        r == separates_words(s@),
{
    for c in it: s.chars()
        invariant
            it.seq() == s@,
            forall|j: int| 0 <= j < it.index() ==> !#[trigger] alphanumeric(s@[j]),
    {
        if is_alphanumeric(c) {
            return false;
        }
    }
    true
}

/// Piece `i` of the split `pieces` of a text `total` bytes long is a word: it
/// holds an alphanumeric character and lies within the text.
pub open spec fn is_word_at(pieces: Seq<Seq<char>>, total: int, i: int) -> bool {
    &&& 0 <= i < pieces.len()
    &&& !separates_words(pieces[i])
    &&& piece_start(pieces, i + 1) <= total
}

/// Index of the last word among the first `n` pieces that starts before byte
/// offset `pos`; -1 if there is none.
pub open spec fn last_word_before(pieces: Seq<Seq<char>>, total: int, pos: int, n: int) -> int
    decreases n,
{
    if n <= 0 {
        -1
    } else if is_word_at(pieces, total, n - 1) && piece_start(pieces, n - 1) < pos {
        n - 1
    } else {
        last_word_before(pieces, total, pos, n - 1)
    }
}

/// Index of the first word, from piece `i` on, that ends after byte offset
/// `pos`; the number of pieces if there is none.
pub open spec fn first_word_after(pieces: Seq<Seq<char>>, total: int, pos: int, i: int) -> int
    decreases pieces.len() - i,
{
    if i < 0 || i >= pieces.len() {
        pieces.len() as int
    } else if is_word_at(pieces, total, i) && piece_start(pieces, i + 1) > pos {
        i
    } else {
        first_word_after(pieces, total, pos, i + 1)
    }
}

/// Where a word move left from byte offset `pos` lands, given the word split
/// of a text `total` bytes long: the start of the last word that starts before
/// `pos`, or the start of the text.
pub open spec fn word_left_in(pieces: Seq<Seq<char>>, total: int, pos: int) -> int {
    let i = last_word_before(pieces, total, pos, pieces.len() as int);
    if i >= 0 {
        piece_start(pieces, i) as int
    } else {
        0
    }
}

/// Where a word move right from byte offset `pos` lands, given the word split
/// of a text `total` bytes long: just past the end of the first word that ends
/// after `pos`, or the end of the text.
pub open spec fn word_right_in(pieces: Seq<Seq<char>>, total: int, pos: int) -> int {
    let i = first_word_after(pieces, total, pos, 0);
    if i < pieces.len() {
        piece_start(pieces, i + 1) as int
    } else {
        total
    }
}

/// Where a word move left from byte offset `pos` of `s` lands.
pub open spec fn word_left(s: Seq<char>, pos: int) -> int {
    word_left_in(word_bounds_of(s), byte_len(s) as int, pos)
}

/// Where a word move right from byte offset `pos` of `s` lands.
pub open spec fn word_right(s: Seq<char>, pos: int) -> int {
    word_right_in(word_bounds_of(s), byte_len(s) as int, pos)
}

/// The start of the last word that starts before `pos`, or 0, given the word
/// split of a text `len` bytes long with the offsets of its pieces.
pub fn last_word_start(pieces: &Vec<(usize, String)>, len: usize, pos: usize) -> (r: usize)
    requires
        offsets_match(pieces@),
        piece_start(piece_texts(pieces@), pieces@.len() as int) == len,
    ensures
        r == word_left_in(piece_texts(pieces@), len as int, pos as int),
{
    let ghost w = piece_texts(pieces@);
    let n = pieces.len();
    let mut i: usize = n;
    while i > 0
        invariant
            0 <= i <= n,
            n == pieces@.len() == w.len(),
            w == piece_texts(pieces@),
            offsets_match(pieces@),
            piece_start(w, n as int) == len,
            last_word_before(w, len as int, pos as int, n as int) == last_word_before(
                w,
                len as int,
                pos as int,
                i as int,
            ),
        decreases i,
    {
        let k = i - 1;
        proof {
            lemma_piece_start_mono(w, k as int + 1, n as int);
            assert(w[k as int] == pieces@[k as int].1@);
        }
        if pieces[k].0 < pos && !is_word_boundary(pieces[k].1.as_str()) {
            assert(is_word_at(w, len as int, k as int));
            return pieces[k].0;
        }
        i = k;
    }
    0
}

/// The end of the first word that ends after `pos`, or `len`, given the word
/// split of a text `len` bytes long with the offsets of its pieces.
pub fn first_word_end(pieces: &Vec<(usize, String)>, len: usize, pos: usize) -> (r: usize)
    requires
        offsets_match(pieces@),
        piece_start(piece_texts(pieces@), pieces@.len() as int) == len,
    ensures
        r == word_right_in(piece_texts(pieces@), len as int, pos as int),
{
    let ghost w = piece_texts(pieces@);
    let n = pieces.len();
    let mut i: usize = 0;
    while i < n
        invariant
            0 <= i <= n,
            n == pieces@.len() == w.len(),
            w == piece_texts(pieces@),
            offsets_match(pieces@),
            piece_start(w, n as int) == len,
            first_word_after(w, len as int, pos as int, 0) == first_word_after(
                w,
                len as int,
                pos as int,
                i as int,
            ),
        decreases n - i,
    {
        let end = if i + 1 < n {
            pieces[i + 1].0
        } else {
            len
        };
        proof {
            lemma_piece_start_mono(w, i + 1, n as int);
            assert(w[i as int] == pieces@[i as int].1@);
            if i + 1 < n {
                assert(pieces@[i + 1].0 == piece_start(w, i + 1));
            }
        }
        if end > pos && !is_word_boundary(pieces[i].1.as_str()) {
            assert(is_word_at(w, len as int, i as int));
            return end;
        }
        i += 1;
    }
    len
}

proof fn lemma_last_word_before(pieces: Seq<Seq<char>>, total: int, pos: int, n: int)
    ensures
        last_word_before(pieces, total, pos, n) == -1 || (0 <= last_word_before(
            pieces,
            total,
            pos,
            n,
        ) < n && is_word_at(pieces, total, last_word_before(pieces, total, pos, n))
            && piece_start(pieces, last_word_before(pieces, total, pos, n)) < pos),
    decreases n,
{
    if n > 0 {
        lemma_last_word_before(pieces, total, pos, n - 1);
    }
}

proof fn lemma_first_word_after(pieces: Seq<Seq<char>>, total: int, pos: int, i: int)
    requires
        0 <= i,
    ensures
        first_word_after(pieces, total, pos, i) == pieces.len() || (i <= first_word_after(
            pieces,
            total,
            pos,
            i,
        ) < pieces.len() && is_word_at(pieces, total, first_word_after(pieces, total, pos, i))
            && piece_start(pieces, first_word_after(pieces, total, pos, i) + 1) > pos),
    decreases pieces.len() - i,
{
    if i < pieces.len() {
        lemma_first_word_after(pieces, total, pos, i + 1);
    }
}

/// Byte offset of the start of the last word of `s` that starts before `pos`, or 0.
pub(crate) fn word_start_before(s: &String, pos: usize) -> (r: usize)
    ensures
        r == word_left(s@, pos as int),
        is_boundary(s@, r as int),
{
    let pieces = word_bound_indices(s.as_str());
    let len = text_len(s);
    let ghost w = word_bounds_of(s@);
    proof {
        lemma_piece_start_boundary(w, s@, 0);
        lemma_piece_start_boundary(w, s@, w.len() as int);
        assert(w.take(0) =~= Seq::<Seq<char>>::empty());
    }
    let r = last_word_start(&pieces, len, pos);
    proof {
        let i = last_word_before(w, len as int, pos as int, w.len() as int);
        lemma_last_word_before(w, len as int, pos as int, w.len() as int);
        if i >= 0 {
            lemma_piece_start_boundary(w, s@, i);
        }
    }
    r
}

/// Byte offset just past the end of the first word of `s` that ends after
/// `pos`, or the end of `s`.
pub(crate) fn word_end_after(s: &String, pos: usize) -> (r: usize)
    ensures
        r == word_right(s@, pos as int),
        is_boundary(s@, r as int),
{
    let pieces = word_bound_indices(s.as_str());
    let len = text_len(s);
    let ghost w = word_bounds_of(s@);
    proof {
        lemma_piece_start_boundary(w, s@, w.len() as int);
    }
    let r = first_word_end(&pieces, len, pos);
    proof {
        let i = first_word_after(w, len as int, pos as int, 0);
        lemma_first_word_after(w, len as int, pos as int, 0);
        if i < w.len() {
            lemma_piece_start_boundary(w, s@, i + 1);
        }
    }
    r
}

/// A piece ends where the next one starts.
pub proof fn lemma_piece_start_next(pieces: Seq<Seq<char>>, i: int)
    requires
        0 <= i < pieces.len(),
    ensures
        piece_start(pieces, i + 1) == piece_start(pieces, i) + byte_len(pieces[i]),
{
    assert(pieces.take(i + 1) =~= pieces.take(i).push(pieces[i]));
    pieces.take(i).lemma_flatten_push(pieces[i]);
    lemma_byte_len_concat(pieces.take(i).flatten(), pieces[i]);
}

/// From any cluster boundary but the start of the text, a step left and then a
/// step right come back to it.
pub proof fn lemma_left_then_right(s: Seq<char>, pos: int)
    requires
        cluster_boundary(s, pos),
        0 < pos,
    ensures
        next_grapheme(s, prev_grapheme(s, pos)) == pos,
{
    let g = graphemes_of(s);
    let total = byte_len(s) as int;
    lemma_prev_boundary(g, total, pos, 0);
    let d = prev_grapheme(s, pos);
    lemma_next_boundary(g, total, d, pos);
}

/// A step right from the start of a grapheme cluster of the text crosses the
/// whole cluster, and a step left from its end crosses it back: no step lands
/// inside a cluster, however many code points it has.
pub proof fn lemma_step_crosses_cluster(s: Seq<char>, i: int)
    requires
        0 <= i < graphemes_of(s).len(),
        graphemes_of(s)[i].len() > 0,
        piece_start(graphemes_of(s), i + 1) <= byte_len(s),
    ensures
        next_grapheme(s, piece_start(graphemes_of(s), i) as int) == piece_start(graphemes_of(s), i)
            + byte_len(graphemes_of(s)[i]),
        prev_grapheme(s, piece_start(graphemes_of(s), i + 1) as int) == piece_start(
            graphemes_of(s),
            i,
        ),
{
    let g = graphemes_of(s);
    let a = piece_start(g, i) as int;
    let b = piece_start(g, i + 1) as int;
    lemma_piece_start_next(g, i);
    assert(byte_len(g[i]) > 0) by {
        assert(g[i] =~= seq![g[i][0]] + g[i].drop_first());
        lemma_byte_len_concat(seq![g[i][0]], g[i].drop_first());
        lemma_byte_len_single(g[i][0]);
        lemma_char_width_pos(g[i][0]);
    }
    let total = byte_len(s) as int;
    assert(split_boundary(g, total, a));
    assert(split_boundary(g, total, b));
    assert forall|x: int| a < x < b implies !#[trigger] split_boundary(g, total, x) by {
        if split_boundary(g, total, x) && x != 0 && x != total {
            let j = choose|j: int| 0 <= j <= g.len() && #[trigger] piece_start(g, j) == x;
            if j <= i {
                lemma_piece_start_mono(g, j, i);
            } else {
                lemma_piece_start_mono(g, i + 1, j);
            }
        }
    }
    lemma_next_boundary(g, byte_len(s) as int, a, b);
    lemma_prev_boundary(g, byte_len(s) as int, b, a);
}

/// A word move left from any position after the start lands strictly left of
/// it, and from the start stays there.
pub proof fn lemma_word_left_descends(s: Seq<char>, pos: int)
    requires
        0 <= pos,
    ensures
        0 <= word_left(s, pos) <= pos,
        pos > 0 ==> word_left(s, pos) < pos,
{
    lemma_last_word_before(word_bounds_of(s), byte_len(s) as int, pos, word_bounds_of(s).len() as int);
}

/// A word move right from any position before the end lands strictly right of
/// it and no further than the end, and from the end stays there.
pub proof fn lemma_word_right_ascends(s: Seq<char>, pos: int)
    requires
        pos <= byte_len(s),
    ensures
        pos <= word_right(s, pos) <= byte_len(s),
        pos < byte_len(s) ==> pos < word_right(s, pos),
{
    lemma_first_word_after(word_bounds_of(s), byte_len(s) as int, pos, 0);
}

/// The position reached from `pos` by `n` word moves left.
pub open spec fn word_left_times(s: Seq<char>, pos: int, n: nat) -> int
    decreases n,
{
    if n == 0 {
        pos
    } else {
        word_left_times(s, word_left(s, pos), (n - 1) as nat)
    }
}

/// The position reached from `pos` by `n` word moves right.
pub open spec fn word_right_times(s: Seq<char>, pos: int, n: nat) -> int
    decreases n,
{
    if n == 0 {
        pos
    } else {
        word_right_times(s, word_right(s, pos), (n - 1) as nat)
    }
}

/// Repeated word moves left from any position reach the start of the text and
/// stay there: after `n` moves, for any `n` at least the starting offset, the
/// position is 0.
pub proof fn lemma_word_left_reaches_start(s: Seq<char>, pos: int, n: nat)
    requires
        0 <= pos <= n,
    ensures
        word_left_times(s, pos, n) == 0,
    decreases n,
{
    if n > 0 {
        lemma_word_left_descends(s, pos);
        lemma_word_left_reaches_start(s, word_left(s, pos), (n - 1) as nat);
    }
}

/// Repeated word moves right from any position reach the end of the text and
/// stay there: after `n` moves, for any `n` at least the distance to the end,
/// the position is the text's length.
pub proof fn lemma_word_right_reaches_end(s: Seq<char>, pos: int, n: nat)
    requires
        0 <= pos <= byte_len(s),
        byte_len(s) - pos <= n,
    ensures
        word_right_times(s, pos, n) == byte_len(s),
    decreases n,
{
    if n > 0 {
        lemma_word_right_ascends(s, pos);
        lemma_word_right_reaches_end(s, word_right(s, pos), (n - 1) as nat);
    }
}

} // verus!
