//! The history of submitted lines: a bounded list, newest first, with a
//! recall position for stepping through it.

use vstd::prelude::*;

verus! {

/// How many lines a history made by `HistoryStore::new` keeps.
pub const DEFAULT_CAPACITY: usize = 100;

/// The lines a history with room for `cap` holds after `line` is submitted to
/// one that held `lines`: `line` first, then the older ones, the oldest
/// dropped when there is no room for it.
pub open spec fn submitted(lines: Seq<Seq<char>>, cap: nat, line: Seq<char>) -> Seq<Seq<char>> {
    if cap == 0 {
        lines
    } else if lines.len() < cap {
        seq![line] + lines
    } else {
        seq![line] + lines.take(cap - 1)
    }
}

/// The lines a history with room for `cap` holds after `inputs` are submitted
/// in order to one that held `lines`.
pub open spec fn submit_all(lines: Seq<Seq<char>>, cap: nat, inputs: Seq<Seq<char>>) -> Seq<
    Seq<char>,
>
    decreases inputs.len(),
{
    if inputs.len() == 0 {
        lines
    } else {
        submitted(submit_all(lines, cap, inputs.drop_last()), cap, inputs.last())
    }
}

/// Submitted lines, newest first, and the position of the line being recalled.
pub struct HistoryStore {
    entries: Vec<String>,
    capacity: usize,
    recall: Option<usize>,
}

impl HistoryStore {
    /// The lines held, newest first.
    pub closed spec fn lines(&self) -> Seq<Seq<char>> {
        self.entries@.map_values(|e: String| e@)
    }

    /// How many lines the history keeps at most.
    pub closed spec fn cap(&self) -> nat {
        self.capacity as nat
    }

    /// The index in `lines()` of the line being recalled; -1 when none is.
    pub closed spec fn recall_index(&self) -> int {
        match self.recall {
            Some(i) => i as int,
            None => -1,
        }
    }

    /// The history holds no more than its capacity, and the recall position
    /// is -1 or an index of a line.
    pub open spec fn wf(&self) -> bool {
        &&& self.lines().len() <= self.cap()
        &&& -1 <= self.recall_index() < self.lines().len()
    }

    /// An empty history that keeps the last `DEFAULT_CAPACITY` lines.
    pub fn new() -> (r: HistoryStore)
        ensures
            r.wf(),
            r.lines() == Seq::<Seq<char>>::empty(),
            r.cap() == DEFAULT_CAPACITY,
            r.recall_index() == -1,
    {
        Self::with_capacity(DEFAULT_CAPACITY)
    }

    /// An empty history that keeps the last `capacity` lines.
    pub fn with_capacity(capacity: usize) -> (r: HistoryStore)
        ensures
            r.wf(),
            r.lines() == Seq::<Seq<char>>::empty(),
            r.cap() == capacity,
            r.recall_index() == -1,
    {
        let r = HistoryStore { entries: Vec::new(), capacity, recall: None };
        proof {
            assert(r.lines() =~= Seq::<Seq<char>>::empty());
        }
        r
    }

    /// Puts `line` at the front, first dropping the oldest line if the
    /// history is full, and ends any recall.
    pub fn submit(&mut self, line: String)
        requires
            old(self).wf(),
        ensures
            final(self).wf(),
            final(self).lines() == submitted(old(self).lines(), old(self).cap(), line@),
            final(self).cap() == old(self).cap(),
            final(self).recall_index() == -1,
    {
        let ghost old_lines = self.lines();
        self.recall = None;
        if self.capacity == 0 {
            return;
        }
        if self.entries.len() == self.capacity {
            self.entries.pop();
        }
        self.entries.insert(0, line);
        proof {
            if old_lines.len() < self.cap() {
                assert(self.lines() =~= seq![line@] + old_lines);
            } else {
                assert(self.lines() =~= seq![line@] + old_lines.take(self.cap() - 1));
            }
        }
    }

    /// Steps the recall one line older and returns that line; when the oldest
    /// line is already recalled, or the history is empty, nothing changes and
    /// nothing is returned.
    pub fn recall_older(&mut self) -> (r: Option<String>)
        requires
            old(self).wf(),
        ensures
            final(self).wf(),
            final(self).lines() == old(self).lines(),
            final(self).cap() == old(self).cap(),
            old(self).recall_index() + 1 < old(self).lines().len() ==> {
                &&& final(self).recall_index() == old(self).recall_index() + 1
                &&& r matches Some(line) && line@ == old(self).lines()[final(self).recall_index()]
            },
            old(self).recall_index() + 1 >= old(self).lines().len() ==> r is None
                && final(self).recall_index() == old(self).recall_index(),
    {
        let next: usize = match self.recall {
            Some(i) => i + 1,
            None => 0,
        };
        if next < self.entries.len() {
            self.recall = Some(next);
            Some(self.entries[next].clone())
        } else {
            None
        }
    }

    /// Steps the recall one line newer and returns that line; stepping past
    /// the newest line ends the recall and returns the empty line.
    pub fn recall_newer(&mut self) -> (r: String)
        requires
            old(self).wf(),
        ensures
            final(self).wf(),
            final(self).lines() == old(self).lines(),
            final(self).cap() == old(self).cap(),
            old(self).recall_index() >= 1 ==> final(self).recall_index() == old(self).recall_index()
                - 1 && r@ == old(self).lines()[final(self).recall_index()],
            old(self).recall_index() < 1 ==> final(self).recall_index() == -1 && r@
                == Seq::<char>::empty(),
    {
        match self.recall {
            Some(i) if i >= 1 => {
                self.recall = Some(i - 1);
                self.entries[i - 1].clone()
            },
            _ => {
                self.recall = None;
                String::new()
            },
        }
    }

    /// The lines held, newest first.
    pub fn entries(&self) -> (r: &Vec<String>)
        ensures
            r@.map_values(|e: String| e@) == self.lines(),
    {
        &self.entries
    }

    /// How many lines are held.
    pub fn len(&self) -> (r: usize)
        ensures
            r == self.lines().len(),
    {
        self.entries.len()
    }

    /// How many lines the history keeps at most.
    pub fn capacity(&self) -> (r: usize)
        ensures
            r == self.cap(),
    {
        self.capacity
    }
}

/// After any run of submissions to an empty history, it holds the latest of
/// them, newest first, as many as its capacity allows: once more lines than
/// that have been submitted, it is full and holds exactly the latest
/// `cap` of them.
pub proof fn lemma_history_keeps_latest(cap: nat, inputs: Seq<Seq<char>>)
    ensures
        submit_all(Seq::empty(), cap, inputs) == inputs.reverse().take(
            if inputs.len() < cap { inputs.len() as int } else { cap as int },
        ),
        inputs.len() >= cap ==> submit_all(Seq::empty(), cap, inputs).len() == cap,
    decreases inputs.len(),
{
    if inputs.len() > 0 {
        let d = inputs.drop_last();
        lemma_history_keeps_latest(cap, d);
        if cap > 0 {
            let n = inputs.len() as int;
            let m = if n < cap { n } else { cap as int };
            let prev = submit_all(Seq::empty(), cap, d);
            assert(inputs.reverse() =~= seq![inputs.last()] + d.reverse());
            assert(submitted(prev, cap, inputs.last()) =~= inputs.reverse().take(m));
        } else {
            assert(inputs.reverse().take(0) =~= Seq::<Seq<char>>::empty());
        }
    } else {
        assert(inputs.reverse().take(0) =~= Seq::<Seq<char>>::empty());
    }
}

} // verus!
