//! The kill register: one slot that holds the text most recently cut from the
//! line, and the cut and yank operations that use it.

use crate::engine::Engine;
use crate::line_buffer::InvalidPosition;
use crate::segment::{lemma_word_left_descends, lemma_word_right_ascends, word_left, word_right};
use crate::text::{
    byte_len, byte_range, char_index, insert_at, is_boundary, lemma_boundary_facts,
    lemma_byte_len_subrange, lemma_char_index_of, lemma_char_index_order, lemma_encode_len,
    lemma_removal_keeps_boundary, lemma_splice_prefix, remove_bytes,
};
use vstd::prelude::*;

verus! {

/// The text most recently cut.
pub struct KillRegister {
    contents: String,
}

/// What the register holds after a cut of `span` when it held `held`: an
/// empty cut leaves it as it was.
pub open spec fn after_cut(held: Seq<char>, span: Seq<char>) -> Seq<char> {
    if span.len() > 0 {
        span
    } else {
        held
    }
}

impl KillRegister {
    /// The text held.
    pub closed spec fn held(&self) -> Seq<char> {
        self.contents@
    }

    /// An empty register.
    pub fn new() -> (r: KillRegister)
        ensures
            r.held() == Seq::<char>::empty(),
    {
        KillRegister { contents: String::new() }
    }

    /// Holds `span` from now on, unless it is empty: an empty cut never
    /// overwrites what was cut before.
    pub fn set(&mut self, span: String)
        ensures
            final(self).held() == after_cut(old(self).held(), span@),
    {
        if !span.as_str().is_empty() {
            self.contents = span;
        }
    }

    /// The text held; reading it leaves it in place.
    pub fn get(&self) -> (r: &str)
        ensures
            r@ == self.held(),
    {
        self.contents.as_str()
    }

    /// Cuts the text between byte offsets `start` and `end` out of the line
    /// into the register, and puts the insertion point at `start`. Both must
    /// fall between two characters or at an end, in order; otherwise nothing
    /// changes.
    pub fn cut_range(&mut self, engine: &mut Engine, start: usize, end: usize) -> (r: Result<
        (),
        InvalidPosition,
    >)
        requires
            old(engine).wf(),
        ensures
            final(engine).wf(),
            r is Ok <==> start <= end && is_boundary(old(engine).text(), start as int) && is_boundary(
                old(engine).text(),
                end as int,
            ),
            r is Ok ==> {
                &&& final(engine).text() == remove_bytes(old(engine).text(), start as int, end as int)
                &&& final(engine).cursor() == start
                &&& final(self).held() == after_cut(
                    old(self).held(),
                    byte_range(old(engine).text(), start as int, end as int),
                )
            },
            r is Err ==> final(engine).text() == old(engine).text() && final(engine).cursor() == old(
                engine,
            ).cursor() && final(self).held() == old(self).held(),
    {
        let span = match engine.get_range(start, end) {
            Ok(span) => span,
            Err(e) => {
                return Err(e);
            },
        };
        proof {
            lemma_removal_keeps_boundary(engine.text(), start as int, end as int, start as int);
        }
        let _ = engine.clear_range(start..end);
        let _ = engine.set_insertion_point(start);
        self.set(span);
        Ok(())
    }

    /// Puts the text held in at the insertion point and moves the insertion
    /// point past it. The register keeps the text.
    pub fn yank(&self, engine: &mut Engine)
        requires
            old(engine).wf(),
        ensures
            final(engine).wf(),
            final(engine).text() == insert_at(old(engine).text(), old(engine).cursor(), self.held()),
            final(engine).cursor() == old(engine).cursor() + byte_len(self.held()),
    {
        let ghost s = engine.text();
        let pos = engine.get_insertion_point();
        let _ = engine.insert_str(pos, self.contents.as_str());
        let ghost t = self.held();
        proof {
            let k = char_index(s, pos as int);
            lemma_boundary_facts(s, pos as int);
            lemma_splice_prefix(s, k, k, t, k);
            assert(s.subrange(k, k) =~= Seq::<char>::empty());
            assert(byte_len(Seq::<char>::empty()) == 0);
            lemma_char_index_of(engine.text(), k + t.len());
            lemma_encode_len(t);
        }
        let len = engine.get_buffer_len();
        proof {
            // the new insertion point lies within the line, so it fits in a usize
            lemma_boundary_facts(engine.text(), pos + byte_len(t));
            assert(pos + byte_len(t) <= len);
        }
        let _ = engine.set_insertion_point(pos + self.contents.as_str().len());
    }

    /// Cuts the text from the insertion point to the end of the line.
    pub fn kill_to_end(&mut self, engine: &mut Engine)
        requires
            old(engine).wf(),
        ensures
            final(engine).wf(),
            final(engine).text() == remove_bytes(
                old(engine).text(),
                old(engine).cursor(),
                byte_len(old(engine).text()) as int,
            ),
            final(engine).cursor() == old(engine).cursor(),
            final(self).held() == after_cut(
                old(self).held(),
                byte_range(old(engine).text(), old(engine).cursor(), byte_len(old(engine).text()) as int),
            ),
    {
        let ghost s = engine.text();
        let start = engine.get_insertion_point();
        let end = engine.get_buffer_len();
        proof {
            lemma_end_boundary(s);
            lemma_boundary_facts(s, start as int);
        }
        let _ = self.cut_range(engine, start, end);
    }

    /// Cuts the text from the start of the line to the insertion point.
    pub fn kill_to_start(&mut self, engine: &mut Engine)
        requires
            old(engine).wf(),
        ensures
            final(engine).wf(),
            final(engine).text() == remove_bytes(old(engine).text(), 0, old(engine).cursor()),
            final(engine).cursor() == 0,
            final(self).held() == after_cut(
                old(self).held(),
                byte_range(old(engine).text(), 0, old(engine).cursor()),
            ),
    {
        let ghost s = engine.text();
        let end = engine.get_insertion_point();
        proof {
            lemma_char_index_of(s, 0);
            assert(s.take(0) =~= Seq::<char>::empty());
            assert(byte_len(Seq::<char>::empty()) == 0);
            lemma_boundary_facts(s, end as int);
        }
        let _ = self.cut_range(engine, 0, end);
    }

    /// Cuts the text from where a word move left would land to the insertion
    /// point, which goes to the start of the cut.
    pub fn kill_word_backward(&mut self, engine: &mut Engine)
        requires
            old(engine).wf(),
        ensures
            final(engine).wf(),
            final(engine).text() == remove_bytes(
                old(engine).text(),
                word_left(old(engine).text(), old(engine).cursor()),
                old(engine).cursor(),
            ),
            final(engine).cursor() == word_left(old(engine).text(), old(engine).cursor()),
            final(self).held() == after_cut(
                old(self).held(),
                byte_range(
                    old(engine).text(),
                    word_left(old(engine).text(), old(engine).cursor()),
                    old(engine).cursor(),
                ),
            ),
    {
        let ghost s = engine.text();
        let end = engine.get_insertion_point();
        proof {
            lemma_boundary_facts(s, end as int);
            lemma_word_left_descends(s, end as int);
        }
        let start = engine.move_word_left();
        let _ = self.cut_range(engine, start, end);
    }

    /// Cuts the text from the insertion point to where a word move right would
    /// land; the insertion point stays at the start of the cut.
    pub fn kill_word_forward(&mut self, engine: &mut Engine)
        requires
            old(engine).wf(),
        ensures
            final(engine).wf(),
            final(engine).text() == remove_bytes(
                old(engine).text(),
                old(engine).cursor(),
                word_right(old(engine).text(), old(engine).cursor()),
            ),
            final(engine).cursor() == old(engine).cursor(),
            final(self).held() == after_cut(
                old(self).held(),
                byte_range(
                    old(engine).text(),
                    old(engine).cursor(),
                    word_right(old(engine).text(), old(engine).cursor()),
                ),
            ),
    {
        let ghost s = engine.text();
        let start = engine.get_insertion_point();
        proof {
            lemma_boundary_facts(s, start as int);
            lemma_word_right_ascends(s, start as int);
        }
        let end = engine.move_word_right();
        let _ = self.cut_range(engine, start, end);
    }
}

proof fn lemma_end_boundary(s: Seq<char>)
    ensures
        is_boundary(s, byte_len(s) as int),
{
    lemma_char_index_of(s, s.len() as int);
    assert(s.take(s.len() as int) =~= s);
}

/// Cutting a non-empty span out of a text and yanking it straight back, with
/// the insertion point where the cut left it, gives the text as it was, with
/// the insertion point at the end of the span.
pub proof fn lemma_cut_then_yank(s: Seq<char>, start: int, end: int)
    requires
        is_boundary(s, start),
        is_boundary(s, end),
        start < end,
    ensures
        after_cut(Seq::empty(), byte_range(s, start, end)) == byte_range(s, start, end),
        insert_at(remove_bytes(s, start, end), start, byte_range(s, start, end)) == s,
        start + byte_len(byte_range(s, start, end)) == end,
{
    let a = char_index(s, start);
    let b = char_index(s, end);
    lemma_boundary_facts(s, start);
    lemma_boundary_facts(s, end);
    lemma_char_index_order(s, start, end);
    lemma_byte_len_subrange(s, a, b);
    let r = remove_bytes(s, start, end);
    assert(r.take(a) =~= s.take(a));
    lemma_char_index_of(r, a);
    assert(r.skip(a) =~= s.skip(b));
    assert(r.take(a) + s.subrange(a, b) + r.skip(a) =~= s);
}

} // verus!
