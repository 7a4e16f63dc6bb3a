//! The text buffer: the characters of the line being edited and the insertion
//! point, a byte offset that always falls between two characters.

use crate::segment::{
    next_grapheme, next_grapheme_start, prev_grapheme, prev_grapheme_start, word_end_after,
    word_left, word_right, word_start_before,
};
use crate::text::{
    byte_len, byte_range, char_boundary, char_index, char_width, cursor_after_insert,
    cursor_after_removal, insert_at, is_boundary, lemma_boundary_facts,
    lemma_byte_len_single, lemma_byte_len_take_mono, lemma_byte_len_take_step, lemma_char_index_of,
    lemma_char_index_order, lemma_encode_len,
    lemma_insert_keeps_boundary, lemma_removal_keeps_boundary,
    remove_bytes, string_drain, string_insert, string_insert_str, string_pop, string_remove,
    string_truncate, text_len, utf8_width,
};
use vstd::prelude::*;

verus! {

/// A byte offset that is out of range or falls inside a character.
#[derive(Debug, Clone, Copy, PartialEq, Eq, Structural)]
pub struct InvalidPosition {
    pub pos: usize,
}

/// The line being edited and its insertion point.
pub struct LineBuffer {
    buffer: String,
    insertion_point: usize,
}

impl LineBuffer {
    /// The characters of the line.
    pub closed spec fn text(&self) -> Seq<char> {
        self.buffer@
    }

    /// The insertion point, as a byte offset into the line.
    pub closed spec fn cursor(&self) -> int {
        self.insertion_point as int
    }

    /// The insertion point falls between two characters, or at an end.
    pub open spec fn wf(&self) -> bool {
        is_boundary(self.text(), self.cursor())
    }

    /// An empty line with the insertion point at its start.
    pub fn new() -> (r: LineBuffer)
        ensures
            r.wf(),
            r.text() == Seq::<char>::empty(),
            r.cursor() == 0,
    {
        let r = LineBuffer { buffer: String::new(), insertion_point: 0 };
        proof {
            lemma_char_index_of(r.text(), 0);
            assert(r.text().take(0) =~= Seq::<char>::empty());
        }
        r
    }

    /// Moves the insertion point to byte offset `pos`, which must fall between
    /// two characters or at an end of the line.
    pub fn set_insertion_point(&mut self, pos: usize) -> (r: Result<(), InvalidPosition>)
        requires
            old(self).wf(),
        ensures
            final(self).wf(),
            final(self).text() == old(self).text(),
            r is Ok <==> is_boundary(old(self).text(), pos as int),
            r is Ok ==> final(self).cursor() == pos,
            r is Err ==> final(self).cursor() == old(self).cursor() && r == Err::<(), _>(
                InvalidPosition { pos },
            ),
    {
        if char_boundary(&self.buffer, pos) {
            self.insertion_point = pos;
            Ok(())
        } else {
            Err(InvalidPosition { pos })
        }
    }

    /// The insertion point.
    pub fn get_insertion_point(&self) -> (r: usize)
        ensures
            r == self.cursor(),
    {
        self.insertion_point
    }

    /// The text of the line.
    pub fn get_buffer(&self) -> (r: &str)
        ensures
            r@ == self.text(),
    {
        self.buffer.as_str()
    }

    /// Replaces the text of the line. The insertion point stays where it was
    /// if it still falls between two characters of the new text, and goes to
    /// its end otherwise; callers usually move it to the end themselves.
    pub fn set_buffer(&mut self, buffer: String)
        ensures
            final(self).wf(),
            final(self).text() == buffer@,
            final(self).cursor() == if is_boundary(buffer@, old(self).cursor()) {
                old(self).cursor()
            } else {
                byte_len(buffer@) as int
            },
    {
        self.buffer = buffer;
        if !char_boundary(&self.buffer, self.insertion_point) {
            self.insertion_point = text_len(&self.buffer);
            proof {
                lemma_char_index_of(self.text(), self.text().len() as int);
                assert(self.text().take(self.text().len() as int) =~= self.text());
            }
        }
    }

    /// Moves the insertion point to the end of the line and returns it.
    pub fn move_to_end(&mut self) -> (r: usize)
        requires
            old(self).wf(),
        ensures
            final(self).wf(),
            final(self).text() == old(self).text(),
            final(self).cursor() == byte_len(old(self).text()),
            r == final(self).cursor(),
    {
        self.insertion_point = text_len(&self.buffer);
        proof {
            lemma_char_index_of(self.text(), self.text().len() as int);
            assert(self.text().take(self.text().len() as int) =~= self.text());
        }
        self.insertion_point
    }

    /// Moves the insertion point right to the next grapheme cluster boundary;
    /// at the end of the line it stays.
    pub fn inc_insertion_point(&mut self)
        requires
            old(self).wf(),
        ensures
            final(self).wf(),
            final(self).text() == old(self).text(),
            final(self).cursor() == next_grapheme(old(self).text(), old(self).cursor()),
    {
        self.insertion_point = next_grapheme_start(&self.buffer, self.insertion_point);
    }

    /// Moves the insertion point left to the previous grapheme cluster
    /// boundary; at the start of the line it stays.
    pub fn dec_insertion_point(&mut self)
        requires
            old(self).wf(),
        ensures
            final(self).wf(),
            final(self).text() == old(self).text(),
            final(self).cursor() == prev_grapheme(old(self).text(), old(self).cursor()),
    {
        self.insertion_point = prev_grapheme_start(&self.buffer, self.insertion_point);
    }

    /// Puts `c` in at byte offset `pos`, which must fall between two
    /// characters or at an end. An insertion point after `pos` moves right with
    /// the text it stands before; one at `pos` stays.
    pub fn insert_char(&mut self, pos: usize, c: char) -> (r: Result<(), InvalidPosition>)
        requires
            old(self).wf(),
        ensures
            final(self).wf(),
            r is Ok <==> is_boundary(old(self).text(), pos as int),
            r is Ok ==> final(self).text() == insert_at(old(self).text(), pos as int, seq![c])
                && final(self).cursor() == cursor_after_insert(
                old(self).cursor(),
                pos as int,
                char_width(c) as int,
            ),
            r is Err ==> final(self).text() == old(self).text() && final(self).cursor() == old(
                self,
            ).cursor() && r == Err::<(), _>(InvalidPosition { pos }),
    {
        if !char_boundary(&self.buffer, pos) {
            return Err(InvalidPosition { pos });
        }
        let ghost s = self.text();
        proof {
            lemma_insert_keeps_boundary(s, pos as int, seq![c], self.cursor());
            lemma_byte_len_single(c);
            lemma_boundary_facts(s, pos as int);
            assert(s.insert(char_index(s, pos as int), c) =~= insert_at(s, pos as int, seq![c]));
        }
        string_insert(&mut self.buffer, pos, c);
        if pos < self.insertion_point {
            proof {
                lemma_boundary_facts(self.text(), cursor_after_insert(self.cursor(), pos as int, char_width(c) as int));
            }
            self.insertion_point = self.insertion_point + utf8_width(c);
        }
        Ok(())
    }

    /// Puts `string` in at byte offset `idx`, which must fall between two
    /// characters or at an end. An insertion point after `idx` moves right with
    /// the text it stands before; one at `idx` stays.
    pub fn insert_str(&mut self, idx: usize, string: &str) -> (r: Result<(), InvalidPosition>)
        requires
            old(self).wf(),
        ensures
            final(self).wf(),
            r is Ok <==> is_boundary(old(self).text(), idx as int),
            r is Ok ==> final(self).text() == insert_at(old(self).text(), idx as int, string@)
                && final(self).cursor() == cursor_after_insert(
                old(self).cursor(),
                idx as int,
                byte_len(string@) as int,
            ),
            r is Err ==> final(self).text() == old(self).text() && final(self).cursor() == old(
                self,
            ).cursor() && r == Err::<(), _>(InvalidPosition { pos: idx }),
    {
        if !char_boundary(&self.buffer, idx) {
            return Err(InvalidPosition { pos: idx });
        }
        let ghost s = self.text();
        proof {
            lemma_insert_keeps_boundary(s, idx as int, string@, self.cursor());
        }
        string_insert_str(&mut self.buffer, idx, string);
        if idx < self.insertion_point {
            proof {
                let n = cursor_after_insert(old(self).cursor(), idx as int, byte_len(string@) as int);
                lemma_boundary_facts(self.text(), n);
                lemma_encode_len(string@);
            }
            self.insertion_point = self.insertion_point + string.len();
        }
        Ok(())
    }

    /// Takes out and returns the character that starts at byte offset `pos`,
    /// which must fall between two characters and before the end. An insertion
    /// point after it moves left with the text it stands before.
    pub fn remove_char(&mut self, pos: usize) -> (r: Result<char, InvalidPosition>)
        requires
            old(self).wf(),
        ensures
            final(self).wf(),
            r is Ok <==> is_boundary(old(self).text(), pos as int) && pos < byte_len(old(self).text()),
            r matches Ok(c) ==> {
                let k = char_index(old(self).text(), pos as int);
                &&& c == old(self).text()[k]
                &&& final(self).text() == old(self).text().remove(k)
                &&& final(self).cursor() == cursor_after_removal(
                    old(self).cursor(),
                    pos as int,
                    pos + char_width(c),
                )
            },
            r is Err ==> final(self).text() == old(self).text() && final(self).cursor() == old(
                self,
            ).cursor() && r == Err::<char, _>(InvalidPosition { pos }),
    {
        if pos >= text_len(&self.buffer) || !char_boundary(&self.buffer, pos) {
            return Err(InvalidPosition { pos });
        }
        let ghost s = self.text();
        let ghost k = char_index(s, pos as int);
        proof {
            lemma_boundary_facts(s, pos as int);
            if k == s.len() {
                assert(s.take(k) =~= s);
            }
        }
        let ghost end = pos + char_width(s[k]);
        proof {
            lemma_byte_len_take_step(s, k);
            if pos < self.cursor() {
                lemma_char_index_order(s, pos as int, self.cursor());
                lemma_boundary_facts(s, self.cursor());
                lemma_byte_len_take_mono(s, k + 1, char_index(s, self.cursor()));
            }
            lemma_char_index_of(s, k + 1);
            lemma_removal_keeps_boundary(s, pos as int, end, self.cursor());
            assert(s.remove(k) =~= remove_bytes(s, pos as int, end));
        }
        let c = string_remove(&mut self.buffer, pos);
        if pos < self.insertion_point {
            self.insertion_point = self.insertion_point - utf8_width(c);
        }
        Ok(c)
    }

    /// Takes out and returns the last character of the line, if any, and puts
    /// the insertion point at the new end.
    pub fn pop(&mut self) -> (r: Option<char>)
        requires
            old(self).wf(),
        ensures
            final(self).wf(),
            old(self).text().len() == 0 ==> r is None && final(self).text() == old(self).text(),
            old(self).text().len() > 0 ==> r == Some(old(self).text().last()) && final(self).text()
                == old(self).text().drop_last(),
            final(self).cursor() == byte_len(final(self).text()),
    {
        let r = string_pop(&mut self.buffer);
        self.insertion_point = text_len(&self.buffer);
        proof {
            lemma_char_index_of(self.text(), self.text().len() as int);
            assert(self.text().take(self.text().len() as int) =~= self.text());
        }
        r
    }

    /// Empties the line.
    pub fn clear(&mut self)
        ensures
            final(self).wf(),
            final(self).text() == Seq::<char>::empty(),
            final(self).cursor() == 0,
    {
        self.buffer = String::new();
        self.insertion_point = 0;
        proof {
            lemma_char_index_of(self.text(), 0);
            assert(self.text().take(0) =~= Seq::<char>::empty());
        }
    }

    /// Takes out the text from the insertion point to the end of the line.
    pub fn clear_to_end(&mut self)
        requires
            old(self).wf(),
        ensures
            final(self).wf(),
            final(self).text() == old(self).text().take(char_index(old(self).text(), old(self).cursor())),
            final(self).cursor() == old(self).cursor(),
    {
        let ghost s = self.text();
        proof {
            let m = char_index(s, self.cursor());
            lemma_boundary_facts(s, self.cursor());
            assert(s.take(m).take(m) =~= s.take(m));
            lemma_char_index_of(s.take(m), m);
        }
        string_truncate(&mut self.buffer, self.insertion_point);
    }

    /// Takes out the text from the start of the line to the insertion point,
    /// and puts the insertion point at the start.
    pub fn clear_to_insertion_point(&mut self)
        requires
            old(self).wf(),
        ensures
            final(self).wf(),
            final(self).text() == old(self).text().skip(char_index(old(self).text(), old(self).cursor())),
            final(self).cursor() == 0,
    {
        let ghost s = self.text();
        proof {
            lemma_char_index_of(s, 0);
            assert(s.take(0) =~= Seq::<char>::empty());
            lemma_boundary_facts(s, self.cursor());
        }
        let _ = string_drain(&mut self.buffer, 0, self.insertion_point);
        self.insertion_point = 0;
        proof {
            assert(self.text() =~= s.skip(char_index(s, old(self).cursor())));
            lemma_char_index_of(self.text(), 0);
            assert(self.text().take(0) =~= Seq::<char>::empty());
        }
    }

    /// Takes out the text between byte offsets `range.start` and `range.end`,
    /// which must be in order and each fall between two characters or at an
    /// end. An insertion point after the range moves left with the text it
    /// stands before; one inside it goes to its start.
    pub fn clear_range(&mut self, range: std::ops::Range<usize>) -> (r: Result<
        (),
        InvalidPosition,
    >)
        requires
            old(self).wf(),
        ensures
            final(self).wf(),
            r is Ok <==> range.start <= range.end && is_boundary(old(self).text(), range.start as int)
                && is_boundary(old(self).text(), range.end as int),
            r is Ok ==> final(self).text() == remove_bytes(
                old(self).text(),
                range.start as int,
                range.end as int,
            ) && final(self).cursor() == cursor_after_removal(
                old(self).cursor(),
                range.start as int,
                range.end as int,
            ),
            r is Err ==> final(self).text() == old(self).text() && final(self).cursor() == old(
                self,
            ).cursor(),
            r matches Err(e) ==> (e.pos == range.start && !(is_boundary(old(self).text(), range.start as int))) || (e.pos == range.end && !(range.start <= range.end && is_boundary(old(self).text(), range.end as int))),
    {
        let start = range.start;
        let end = range.end;
        if !char_boundary(&self.buffer, start) {
            return Err(InvalidPosition { pos: start });
        }
        if start > end || !char_boundary(&self.buffer, end) {
            return Err(InvalidPosition { pos: end });
        }
        proof {
            lemma_removal_keeps_boundary(self.text(), start as int, end as int, self.cursor());
        }
        let _ = string_drain(&mut self.buffer, start, end);
        if end <= self.insertion_point {
            self.insertion_point = self.insertion_point - (end - start);
        } else if start < self.insertion_point {
            self.insertion_point = start;
        }
        Ok(())
    }

    /// A copy of the text between byte offsets `start` and `end`, which must be
    /// in order and each fall between two characters or at an end.
    pub fn get_range(&self, start: usize, end: usize) -> (r: Result<String, InvalidPosition>)
        ensures
            r is Ok <==> start <= end && is_boundary(self.text(), start as int) && is_boundary(
                self.text(),
                end as int,
            ),
            r matches Ok(t) ==> t@ == byte_range(self.text(), start as int, end as int),
    {
        if !char_boundary(&self.buffer, start) {
            return Err(InvalidPosition { pos: start });
        }
        if start > end || !char_boundary(&self.buffer, end) {
            return Err(InvalidPosition { pos: end });
        }
        let mut copy = self.buffer.clone();
        Ok(string_drain(&mut copy, start, end))
    }

    /// The length of the line in bytes.
    pub fn get_buffer_len(&self) -> (r: usize)
        ensures
            r == byte_len(self.text()),
    {
        text_len(&self.buffer)
    }

    /// Whether the line is empty.
    pub fn is_empty(&self) -> (r: bool)
        ensures
            r == (self.text().len() == 0),
    {
        self.buffer.as_str().is_empty()
    }

    /// Moves the insertion point to the start of the word it stands in or, from
    /// between words, of the previous word; with no word before it, to the
    /// start of the line. Returns the new insertion point.
    pub fn move_word_left(&mut self) -> (r: usize)
        requires
            old(self).wf(),
        ensures
            final(self).wf(),
            final(self).text() == old(self).text(),
            final(self).cursor() == word_left(old(self).text(), old(self).cursor()),
            r == final(self).cursor(),
    {
        self.insertion_point = word_start_before(&self.buffer, self.insertion_point);
        self.insertion_point
    }

    /// Moves the insertion point just past the end of the word it stands in or,
    /// from between words, of the next word; with no word after it, to the end
    /// of the line. Returns the new insertion point.
    pub fn move_word_right(&mut self) -> (r: usize)
        requires
            old(self).wf(),
        ensures
            final(self).wf(),
            final(self).text() == old(self).text(),
            final(self).cursor() == word_right(old(self).text(), old(self).cursor()),
            r == final(self).cursor(),
    {
        self.insertion_point = word_end_after(&self.buffer, self.insertion_point);
        self.insertion_point
    }
}

} // verus!
