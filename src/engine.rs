//! The edit engine: a closed set of edit commands applied in order to the line
//! buffer it owns, with a fixed policy at the edges of the line.

use crate::line_buffer::{InvalidPosition, LineBuffer};
use crate::segment::{
    graphemes_of, lemma_prev_boundary, next_grapheme, prev_grapheme, word_left, word_right,
};
use crate::text::{
    byte_len, byte_range, char_index, char_width, cursor_after_insert, cursor_after_removal,
    insert_at, is_boundary, lemma_char_index_of, remove_bytes,
};
use vstd::prelude::*;

verus! {

/// One edit, as a front end decodes it from a key.
#[derive(Debug, Clone, Copy, PartialEq, Eq, Structural)]
pub enum EditCommand {
    MoveToStart,
    MoveToEnd,
    MoveLeft,
    MoveRight,
    MoveWordLeft,
    MoveWordRight,
    InsertChar(char),
    Backspace,
    Delete,
}

/// The text and insertion point after `cmd` is applied to text `s` with the
/// insertion point at byte offset `cur`.
pub open spec fn apply_command(s: Seq<char>, cur: int, cmd: EditCommand) -> (Seq<char>, int) {
    match cmd {
        EditCommand::MoveToStart => (s, 0),
        EditCommand::MoveToEnd => (s, byte_len(s) as int),
        EditCommand::MoveLeft => (s, prev_grapheme(s, cur)),
        EditCommand::MoveRight => (s, next_grapheme(s, cur)),
        EditCommand::MoveWordLeft => (s, word_left(s, cur)),
        EditCommand::MoveWordRight => (s, word_right(s, cur)),
        EditCommand::InsertChar(c) => (insert_at(s, cur, seq![c]), cur),
        EditCommand::Backspace => {
            if cur == byte_len(s) && s.len() > 0 {
                (s.drop_last(), byte_len(s.drop_last()) as int)
            } else if 0 < cur < byte_len(s) {
                let p = prev_grapheme(s, cur);
                (s.remove(char_index(s, p)), p)
            } else {
                (s, cur)
            }
        },
        EditCommand::Delete => {
            if cur < byte_len(s) && s.len() > 0 {
                (s.remove(char_index(s, cur)), cur)
            } else {
                (s, cur)
            }
        },
    }
}

/// The text and insertion point after `cmds` are applied in order, each to
/// what the one before it left.
pub open spec fn run_commands(s: Seq<char>, cur: int, cmds: Seq<EditCommand>) -> (Seq<char>, int)
    decreases cmds.len(),
{
    if cmds.len() == 0 {
        (s, cur)
    } else {
        let (s1, c1) = run_commands(s, cur, cmds.drop_last());
        apply_command(s1, c1, cmds.last())
    }
}

/// Owns the line buffer and applies edit commands to it.
pub struct Engine {
    line_buffer: LineBuffer,
}

impl Engine {
    /// The characters of the line.
    pub closed spec fn text(&self) -> Seq<char> {
        self.line_buffer.text()
    }

    /// The insertion point, as a byte offset into the line.
    pub closed spec fn cursor(&self) -> int {
        self.line_buffer.cursor()
    }

    /// The insertion point falls between two characters, or at an end.
    pub open spec fn wf(&self) -> bool {
        is_boundary(self.text(), self.cursor())
    }

    /// An engine over an empty line.
    pub fn new() -> (r: Engine)
        ensures
            r.wf(),
            r.text() == Seq::<char>::empty(),
            r.cursor() == 0,
    {
        Engine { line_buffer: LineBuffer::new() }
    }

    fn apply(&mut self, command: EditCommand)
        requires
            old(self).wf(),
        ensures
            final(self).wf(),
            (final(self).text(), final(self).cursor()) == apply_command(
                old(self).text(),
                old(self).cursor(),
                command,
            ),
    {
        let ghost s = self.text();
        match command {
            EditCommand::MoveToStart => {
                proof {
                    lemma_char_index_of(s, 0);
                    assert(s.take(0) =~= Seq::<char>::empty());
                    assert(byte_len(Seq::<char>::empty()) == 0);
                    assert(is_boundary(s, 0));
                }
                let _ = self.line_buffer.set_insertion_point(0);
            },
            EditCommand::MoveToEnd => {
                self.line_buffer.move_to_end();
            },
            EditCommand::MoveLeft => self.line_buffer.dec_insertion_point(),
            EditCommand::MoveRight => self.line_buffer.inc_insertion_point(),
            EditCommand::MoveWordLeft => {
                self.line_buffer.move_word_left();
            },
            EditCommand::MoveWordRight => {
                self.line_buffer.move_word_right();
            },
            EditCommand::InsertChar(c) => {
                let insertion_point = self.line_buffer.get_insertion_point();
                let _ = self.line_buffer.insert_char(insertion_point, c);
            },
            EditCommand::Backspace => {
                let insertion_point = self.line_buffer.get_insertion_point();
                let len = self.line_buffer.get_buffer_len();
                if insertion_point == len && !self.line_buffer.is_empty() {
                    self.line_buffer.pop();
                } else if insertion_point < len && insertion_point > 0
                    && !self.line_buffer.is_empty() {
                    proof {
                        lemma_prev_boundary(graphemes_of(s), byte_len(s) as int, old(self).cursor(), 0);
                    }
                    self.line_buffer.dec_insertion_point();
                    let insertion_point = self.line_buffer.get_insertion_point();
                    let _ = self.line_buffer.remove_char(insertion_point);
                }
            },
            EditCommand::Delete => {
                let insertion_point = self.line_buffer.get_insertion_point();
                if insertion_point < self.line_buffer.get_buffer_len()
                    && !self.line_buffer.is_empty() {
                    let _ = self.line_buffer.remove_char(insertion_point);
                }
            },
        }
    }

    /// Applies `commands` in order, each to the state the one before it left.
    pub fn run_edit_commands(&mut self, commands: &[EditCommand])
        requires
            old(self).wf(),
        ensures
            final(self).wf(),
            (final(self).text(), final(self).cursor()) == run_commands(
                old(self).text(),
                old(self).cursor(),
                commands@,
            ),
    {
        let n = commands.len();
        let mut i: usize = 0;
        while i < n
            invariant
                0 <= i <= n,
                n == commands@.len(),
                self.wf(),
                (self.text(), self.cursor()) == run_commands(
                    old(self).text(),
                    old(self).cursor(),
                    commands@.take(i as int),
                ),
            decreases n - i,
        {
            proof {
                assert(commands@.take(i + 1).drop_last() =~= commands@.take(i as int));
            }
            self.apply(commands[i]);
            i += 1;
        }
        proof {
            assert(commands@.take(n as int) =~= commands@);
        }
    }

    /// Moves the insertion point to byte offset `pos`, which must fall between
    /// two characters or at an end of the line.
    pub fn set_insertion_point(&mut self, pos: usize) -> (r: Result<(), InvalidPosition>)
        requires
            old(self).wf(),
        ensures
            final(self).wf(),
            final(self).text() == old(self).text(),
            r is Ok <==> is_boundary(old(self).text(), pos as int),
            r is Ok ==> final(self).cursor() == pos,
            r is Err ==> final(self).cursor() == old(self).cursor() && r == Err::<(), _>(
                InvalidPosition { pos },
            ),
    {
        self.line_buffer.set_insertion_point(pos)
    }

    /// The insertion point.
    pub fn get_insertion_point(&self) -> (r: usize)
        ensures
            r == self.cursor(),
    {
        self.line_buffer.get_insertion_point()
    }

    /// The text of the line.
    pub fn get_buffer(&self) -> (r: &str)
        ensures
            r@ == self.text(),
    {
        self.line_buffer.get_buffer()
    }

    /// Replaces the text of the line. The insertion point stays where it was
    /// if it still falls between two characters of the new text, and goes to
    /// its end otherwise.
    pub fn set_buffer(&mut self, buffer: String)
        ensures
            final(self).wf(),
            final(self).text() == buffer@,
            final(self).cursor() == if is_boundary(buffer@, old(self).cursor()) {
                old(self).cursor()
            } else {
                byte_len(buffer@) as int
            },
    {
        self.line_buffer.set_buffer(buffer)
    }

    /// Moves the insertion point to the end of the line and returns it.
    pub fn move_to_end(&mut self) -> (r: usize)
        requires
            old(self).wf(),
        ensures
            final(self).wf(),
            final(self).text() == old(self).text(),
            final(self).cursor() == byte_len(old(self).text()),
            r == final(self).cursor(),
    {
        self.line_buffer.move_to_end()
    }

    /// Moves the insertion point right to the next grapheme cluster boundary;
    /// at the end of the line it stays.
    pub fn inc_insertion_point(&mut self)
        requires
            old(self).wf(),
        ensures
            final(self).wf(),
            final(self).text() == old(self).text(),
            final(self).cursor() == next_grapheme(old(self).text(), old(self).cursor()),
    {
        self.line_buffer.inc_insertion_point()
    }

    /// Moves the insertion point left to the previous grapheme cluster
    /// boundary; at the start of the line it stays.
    pub fn dec_insertion_point(&mut self)
        requires
            old(self).wf(),
        ensures
            final(self).wf(),
            final(self).text() == old(self).text(),
            final(self).cursor() == prev_grapheme(old(self).text(), old(self).cursor()),
    {
        self.line_buffer.dec_insertion_point()
    }

    /// The length of the line in bytes.
    pub fn get_buffer_len(&self) -> (r: usize)
        ensures
            r == byte_len(self.text()),
    {
        self.line_buffer.get_buffer_len()
    }

    /// Puts `c` in at byte offset `pos`, which must fall between two
    /// characters or at an end. An insertion point after `pos` moves right with
    /// the text it stands before; one at `pos` stays.
    pub fn insert_char(&mut self, pos: usize, c: char) -> (r: Result<(), InvalidPosition>)
        requires
            old(self).wf(),
        ensures
            final(self).wf(),
            r is Ok <==> is_boundary(old(self).text(), pos as int),
            r is Ok ==> final(self).text() == insert_at(old(self).text(), pos as int, seq![c])
                && final(self).cursor() == cursor_after_insert(
                old(self).cursor(),
                pos as int,
                char_width(c) as int,
            ),
            r is Err ==> final(self).text() == old(self).text() && final(self).cursor() == old(
                self,
            ).cursor() && r == Err::<(), _>(InvalidPosition { pos }),
    {
        self.line_buffer.insert_char(pos, c)
    }

    /// Takes out and returns the character that starts at byte offset `pos`,
    /// which must fall between two characters and before the end. An insertion
    /// point after it moves left with the text it stands before.
    pub fn remove_char(&mut self, pos: usize) -> (r: Result<char, InvalidPosition>)
        requires
            old(self).wf(),
        ensures
            final(self).wf(),
            r is Ok <==> is_boundary(old(self).text(), pos as int) && pos < byte_len(old(self).text()),
            r matches Ok(c) ==> {
                let k = char_index(old(self).text(), pos as int);
                &&& c == old(self).text()[k]
                &&& final(self).text() == old(self).text().remove(k)
                &&& final(self).cursor() == cursor_after_removal(
                    old(self).cursor(),
                    pos as int,
                    pos + char_width(c),
                )
            },
            r is Err ==> final(self).text() == old(self).text() && final(self).cursor() == old(
                self,
            ).cursor() && r == Err::<char, _>(InvalidPosition { pos }),
    {
        self.line_buffer.remove_char(pos)
    }

    /// Puts `string` in at byte offset `idx`, which must fall between two
    /// characters or at an end. An insertion point after `idx` moves right with
    /// the text it stands before; one at `idx` stays.
    pub fn insert_str(&mut self, idx: usize, string: &str) -> (r: Result<(), InvalidPosition>)
        requires
            old(self).wf(),
        ensures
            final(self).wf(),
            r is Ok <==> is_boundary(old(self).text(), idx as int),
            r is Ok ==> final(self).text() == insert_at(old(self).text(), idx as int, string@)
                && final(self).cursor() == cursor_after_insert(
                old(self).cursor(),
                idx as int,
                byte_len(string@) as int,
            ),
            r is Err ==> final(self).text() == old(self).text() && final(self).cursor() == old(
                self,
            ).cursor() && r == Err::<(), _>(InvalidPosition { pos: idx }),
    {
        self.line_buffer.insert_str(idx, string)
    }

    /// Whether the line is empty.
    pub fn is_empty(&self) -> (r: bool)
        ensures
            r == (self.text().len() == 0),
    {
        self.line_buffer.is_empty()
    }

    /// Takes out and returns the last character of the line, if any, and puts
    /// the insertion point at the new end.
    pub fn pop(&mut self) -> (r: Option<char>)
        requires
            old(self).wf(),
        ensures
            final(self).wf(),
            old(self).text().len() == 0 ==> r is None && final(self).text() == old(self).text(),
            old(self).text().len() > 0 ==> r == Some(old(self).text().last()) && final(self).text()
                == old(self).text().drop_last(),
            final(self).cursor() == byte_len(final(self).text()),
    {
        self.line_buffer.pop()
    }

    /// Empties the line.
    pub fn clear(&mut self)
        ensures
            final(self).wf(),
            final(self).text() == Seq::<char>::empty(),
            final(self).cursor() == 0,
    {
        self.line_buffer.clear()
    }

    /// Takes out the text from the insertion point to the end of the line.
    pub fn clear_to_end(&mut self)
        requires
            old(self).wf(),
        ensures
            final(self).wf(),
            final(self).text() == old(self).text().take(char_index(old(self).text(), old(self).cursor())),
            final(self).cursor() == old(self).cursor(),
    {
        self.line_buffer.clear_to_end()
    }

    /// Takes out the text from the start of the line to the insertion point,
    /// and puts the insertion point at the start.
    pub fn clear_to_insertion_point(&mut self)
        requires
            old(self).wf(),
        ensures
            final(self).wf(),
            final(self).text() == old(self).text().skip(char_index(old(self).text(), old(self).cursor())),
            final(self).cursor() == 0,
    {
        self.line_buffer.clear_to_insertion_point()
    }

    /// Takes out the text between byte offsets `range.start` and `range.end`,
    /// which must be in order and each fall between two characters or at an
    /// end. An insertion point after the range moves left with the text it
    /// stands before; one inside it goes to its start.
    pub fn clear_range(&mut self, range: std::ops::Range<usize>) -> (r: Result<
        (),
        InvalidPosition,
    >)
        requires
            old(self).wf(),
        ensures
            final(self).wf(),
            r is Ok <==> range.start <= range.end && is_boundary(old(self).text(), range.start as int)
                && is_boundary(old(self).text(), range.end as int),
            r is Ok ==> final(self).text() == remove_bytes(
                old(self).text(),
                range.start as int,
                range.end as int,
            ) && final(self).cursor() == cursor_after_removal(
                old(self).cursor(),
                range.start as int,
                range.end as int,
            ),
            r is Err ==> final(self).text() == old(self).text() && final(self).cursor() == old(
                self,
            ).cursor(),
            r matches Err(e) ==> (e.pos == range.start && !(is_boundary(old(self).text(), range.start as int))) || (e.pos == range.end && !(range.start <= range.end && is_boundary(old(self).text(), range.end as int))),
    {
        self.line_buffer.clear_range(range)
    }

    /// A copy of the text between byte offsets `start` and `end`, which must be
    /// in order and each fall between two characters or at an end.
    pub fn get_range(&self, start: usize, end: usize) -> (r: Result<String, InvalidPosition>)
        ensures
            r is Ok <==> start <= end && is_boundary(self.text(), start as int) && is_boundary(
                self.text(),
                end as int,
            ),
            r matches Ok(t) ==> t@ == byte_range(self.text(), start as int, end as int),
    {
        self.line_buffer.get_range(start, end)
    }

    /// Moves the insertion point to the start of the word it stands in or, from
    /// between words, of the previous word; with no word before it, to the
    /// start of the line. Returns the new insertion point.
    pub fn move_word_left(&mut self) -> (r: usize)
        requires
            old(self).wf(),
        ensures
            final(self).wf(),
            final(self).text() == old(self).text(),
            final(self).cursor() == word_left(old(self).text(), old(self).cursor()),
            r == final(self).cursor(),
    {
        self.line_buffer.move_word_left()
    }

    /// Moves the insertion point just past the end of the word it stands in or,
    /// from between words, of the next word; with no word after it, to the end
    /// of the line. Returns the new insertion point.
    pub fn move_word_right(&mut self) -> (r: usize)
        requires
            old(self).wf(),
        ensures
            final(self).wf(),
            final(self).text() == old(self).text(),
            final(self).cursor() == word_right(old(self).text(), old(self).cursor()),
            r == final(self).cursor(),
    {
        self.line_buffer.move_word_right()
    }
}

} // verus!
