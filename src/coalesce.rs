//! Single-flight coalescing: at most one leader asks upstream for a question
//! at a time; later askers of the same question wait for it.
//!
//! Each in-flight question carries a latch of the caller's choosing, which
//! waiters wait on and the leader releases when it is done.

use vstd::prelude::*;

use crate::dns::{Question, QuestionV};

verus! {

/// What a caller of `join` is.
pub enum Role<T> {
    /// No one is asking: the caller asks upstream and must `leave` afterwards.
    Leader,
    /// Someone is asking: wait on this latch, then read the cache again.
    Waiter(T),
}

/// The questions being asked upstream, each with its latch.
pub struct InFlight<T> {
    entries: Vec<(Question, T)>,
}

pub open spec fn questions_of<T>(v: Seq<(Question, T)>) -> Seq<QuestionV> {
    v.map_values(|e: (Question, T)| e.0@)
}

/// The in-flight questions after `join(q)`, and whether the caller leads.
pub open spec fn join_spec(s: Seq<QuestionV>, q: QuestionV) -> (Seq<QuestionV>, bool) {
    if s.contains(q) {
        (s, false)
    } else {
        (s.push(q), true)
    }
}

impl<T: Clone> InFlight<T> {
    /// The questions being asked, oldest first.
    pub closed spec fn view(&self) -> Seq<QuestionV> {
        questions_of(self.entries@)
    }

    pub closed spec fn wf(&self) -> bool {
        self.view().no_duplicates()
    }

    pub fn new() -> (r: InFlight<T>)
        ensures
            r.wf(),
            r.view() == Seq::<QuestionV>::empty(),
    {
        let r = InFlight { entries: Vec::new() };
        assert(r.view() =~= Seq::<QuestionV>::empty());
        r
    }

    fn position(&self, q: &Question) -> (r: Option<usize>)
        ensures
            match r {
                Some(i) => i < self.view().len() && self.view()[i as int] == q@,
                None => !self.view().contains(q@),
            },
    {
        let mut i: usize = 0;
        while i < self.entries.len()
            invariant
                i <= self.entries@.len(),
                forall|j: int| 0 <= j < i ==> self.view()[j] != q@,
            decreases self.entries@.len() - i,
        {
            if self.entries[i].0.same(q) {
                return Some(i);
            }
            i = i + 1;
        }
        None
    }

    /// Whether `q` is being asked.
    pub fn is_in_flight(&self, q: &Question) -> (r: bool)
        ensures
            r == self.view().contains(q@),
    {
        self.position(q).is_some()
    }

    /// Enters `q`: the first caller becomes its leader and leaves `latch`
    /// for the others; while it leads, every other caller is a waiter.
    pub fn join(&mut self, q: &Question, latch: T) -> (r: Role<T>)
        requires
            old(self).wf(),
        ensures
            final(self).wf(),
            (final(self).view(), r is Leader) == join_spec(old(self).view(), q@),
    {
        match self.position(q) {
            Some(i) => Role::Waiter(self.entries[i].1.clone()),
            None => {
                let ghost before = self.view();
                self.entries.push((q.copy(), latch));
                assert(self.view() =~= before.push(q@));
                Role::Leader
            },
        }
    }

    /// Removes `q`, returning its latch for release.
    pub fn leave(&mut self, q: &Question) -> (r: Option<T>)
        requires
            old(self).wf(),
        ensures
            final(self).wf(),
            r is Some == old(self).view().contains(q@),
            final(self).view() == old(self).view().remove_value(q@),
            !final(self).view().contains(q@),
    {
        match self.position(q) {
            Some(i) => {
                let ghost before = self.view();
                let e = self.entries.remove(i);
                proof {
                    before.index_of_first_ensures(q@);
                    let k = before.index_of_first(q@).unwrap();
                    assert(k == i as int);
                    assert(self.view() =~= before.remove(i as int));
                    assert forall|j: int| 0 <= j < self.view().len() implies self.view()[j] != q@ by {
                        if j < i {
                            assert(self.view()[j] == before[j]);
                        } else {
                            assert(self.view()[j] == before[j + 1]);
                        }
                    }
                }
                Some(e.1)
            },
            None => {
                proof {
                    self.view().index_of_first_ensures(q@);
                }
                None
            },
        }
    }
}

/// While a question's leader is in flight, no other caller of `join` for it
/// becomes a leader: after one caller leads, every later caller waits until
/// the question is left.
pub proof fn one_leader_per_question(s: Seq<QuestionV>, q: QuestionV)
    ensures
        ({
            let (s1, _) = join_spec(s, q);
            let (s2, lead) = join_spec(s1, q);
            &&& s1.contains(q)
            &&& !lead
            &&& s2 == s1
        }),
{
    if !s.contains(q) {
        assert(s.push(q)[s.len() as int] == q);
    }
}

} // verus!
