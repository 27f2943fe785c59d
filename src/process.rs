//! The request processor's decisions: which queries it handles, how a query
//! is cleaned before the rules see it, and the walk through rule lists with
//! its cycle check.

use vstd::prelude::*;

use crate::dns::{Packet, PacketKind, OP_QUERY, RCODE_NO_ERROR, RRC_IN};

verus! {

/// Whether a query is handled: a standard query of class IN. Others get no response.
pub fn accepts(query: &Packet) -> (r: bool)
    ensures
        r == (query.kind == PacketKind::Query && query.op_kind == OP_QUERY && query.question.class
            == RRC_IN),
{
    query.kind == PacketKind::Query && query.op_kind == OP_QUERY && query.question.class == RRC_IN
}

/// Clears what a query may not carry into the rules: the answer flags, the
/// response code and every record section.
pub fn prepare(query: &mut Packet)
    ensures
        final(query).id == old(query).id,
        final(query).kind == old(query).kind,
        final(query).op_kind == old(query).op_kind,
        final(query).recursion_desired == old(query).recursion_desired,
        final(query).question@ == old(query).question@,
        !final(query).authoritative,
        !final(query).truncated,
        !final(query).recursion_available,
        final(query).response_code == RCODE_NO_ERROR,
        final(query).answers@.len() == 0,
        final(query).authorities@.len() == 0,
        final(query).additional_rrs@.len() == 0,
{
    query.authoritative = false;
    query.truncated = false;
    query.recursion_available = false;
    query.response_code = RCODE_NO_ERROR;
    query.answers.clear();
    query.authorities.clear();
    query.additional_rrs.clear();
}

/// A jump to a rule list that was already entered.
#[derive(Clone, Copy, Debug, PartialEq, Eq, Structural)]
pub struct RuleCycle;

/// Where the processor is among the rule lists: the current list, the index
/// of the next rule in it, and the lists entered so far, in order.
pub struct RuleWalk {
    list: String,
    index: usize,
    seen: Vec<String>,
}

pub open spec fn strings_view(v: Seq<String>) -> Seq<Seq<char>> {
    v.map_values(|s: String| s@)
}

impl RuleWalk {
    pub closed spec fn list(&self) -> Seq<char> {
        self.list@
    }

    pub closed spec fn index(&self) -> nat {
        self.index as nat
    }

    /// The lists entered so far, in order.
    pub closed spec fn seen(&self) -> Seq<Seq<char>> {
        strings_view(self.seen@)
    }

    /// A walk that starts at the first rule of `list`.
    pub fn new(list: String) -> (r: RuleWalk)
        ensures
            r.list() == list@,
            r.index() == 0,
            r.seen() == seq![list@],
    {
        let first = list.clone();
        let mut seen: Vec<String> = Vec::new();
        seen.push(first);
        let r = RuleWalk { list, index: 0, seen };
        assert(r.seen() =~= seq![list@]);
        r
    }

    /// The current list.
    pub fn current_list(&self) -> (r: &String)
        ensures
            r@ == self.list(),
    {
        &self.list
    }

    /// The index of the next rule in the current list.
    pub fn current_index(&self) -> (r: usize)
        ensures
            r == self.index(),
    {
        self.index
    }

    /// Moves on to the next rule of the current list.
    pub fn next_rule(&mut self)
        requires
            old(self).index() < usize::MAX,
        ensures
            final(self).list() == old(self).list(),
            final(self).index() == old(self).index() + 1,
            final(self).seen() == old(self).seen(),
    {
        self.index = self.index + 1;
    }

    /// Continues at the first rule of `to`, unless `to` was entered before:
    /// then the walk is left as it is and the cycle is reported.
    pub fn jump(&mut self, to: String) -> (r: Result<(), RuleCycle>)
        ensures
            r is Err == old(self).seen().contains(to@),
            r is Err ==> final(self).list() == old(self).list() && final(self).index()
                == old(self).index() && final(self).seen() == old(self).seen(),
            r is Ok ==> final(self).list() == to@ && final(self).index() == 0 && final(self).seen()
                == old(self).seen().push(to@),
    {
        let mut i: usize = 0;
        while i < self.seen.len()
            invariant
                i <= self.seen@.len(),
                forall|j: int| 0 <= j < i ==> self.seen@[j]@ != to@,
            decreases self.seen@.len() - i,
        {
            if self.seen[i] == to {
                assert(self.seen()[i as int] == to@);
                return Err(RuleCycle);
            }
            i = i + 1;
        }
        let ghost before = self.seen();
        self.seen.push(to.clone());
        assert(self.seen() =~= before.push(to@));
        self.list = to;
        self.index = 0;
        Ok(())
    }
}

} // verus!
