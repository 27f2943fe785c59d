//! The upstream pool's decisions: which server to try, what counts as a
//! usable answer, and how the sticky preferred server moves.

use vstd::prelude::*;

use crate::dns::{
    Packet, PacketKind, Question, ResponseCode, OP_QUERY, RCODE_NO_ERROR, RCODE_NX_DOMAIN,
    RCODE_SERVER_FAILURE,
};

verus! {

/// Whether an upstream's answer ends the search: `NO_ERROR` or `NX_DOMAIN`.
pub fn is_usable(code: ResponseCode) -> (r: bool)
    ensures
        r == (code == RCODE_NO_ERROR || code == RCODE_NX_DOMAIN),
{
    code == RCODE_NO_ERROR || code == RCODE_NX_DOMAIN
}

/// A response with only a code, for when no upstream could answer.
pub fn err_response(code: ResponseCode, question: Question) -> (r: Packet)
    ensures
        r.id == 0,
        r.kind == PacketKind::Response,
        r.op_kind == OP_QUERY,
        r.response_code == code,
        r.question@ == question@,
        r.answers@.len() == 0 && r.authorities@.len() == 0 && r.additional_rrs@.len() == 0,
{
    let mut r = Packet::new(0, PacketKind::Response, OP_QUERY, question);
    r.response_code = code;
    r
}

/// The query sent upstream for `question`, with recursion desired.
pub fn upstream_query(id: u16, question: &Question) -> (r: Packet)
    ensures
        r.id == id,
        r.kind == PacketKind::Query,
        r.op_kind == OP_QUERY,
        r.recursion_desired,
        !r.authoritative && !r.truncated && !r.recursion_available,
        r.response_code == RCODE_NO_ERROR,
        r.question@ == question@,
        r.answers@.len() == 0 && r.authorities@.len() == 0 && r.additional_rrs@.len() == 0,
{
    let mut r = Packet::new(id, PacketKind::Query, OP_QUERY, question.copy());
    r.recursion_desired = true;
    r
}

/// Hands out packet ids: each call returns the current one and moves on,
/// wrapping from 65535 to 0.
pub struct PacketIds {
    pub next: u16,
}

impl PacketIds {
    /// Ids starting at 1.
    pub fn new() -> (r: PacketIds)
        ensures
            r.next == 1,
    {
        PacketIds { next: 1 }
    }

    pub fn take(&mut self) -> (r: u16)
        ensures
            r == old(self).next,
            final(self).next == (if old(self).next == u16::MAX {
                0
            } else {
                old(self).next + 1
            }),
    {
        let r = self.next;
        self.next = if self.next == u16::MAX {
            0
        } else {
            self.next + 1
        };
        r
    }
}

/// Why an upstream's reply was not taken.
#[derive(Clone, Copy, Debug, PartialEq, Eq, Structural)]
pub enum ReplyError {
    /// The reply's id is not the query's.
    MismatchedId { expected: u16, got: u16 },
}

/// Takes a decoded reply only if it answers the query with id `query_id`.
pub fn check_reply(query_id: u16, reply: Packet) -> (r: Result<Packet, ReplyError>)
    ensures
        reply.id == query_id ==> r == Ok::<Packet, ReplyError>(reply),
        reply.id != query_id ==> r == Err::<Packet, ReplyError>(
            ReplyError::MismatchedId { expected: query_id, got: reply.id },
        ),
{
    if reply.id != query_id {
        let got = reply.id;
        Err(ReplyError::MismatchedId { expected: query_id, got })
    } else {
        Ok(reply)
    }
}

/// The sticky preferred server: its index, and a version that counts the
/// races won since the last time every server failed (0: none preferred).
#[derive(Clone, Copy, Debug, PartialEq, Eq, Structural)]
pub struct Preferred {
    pub idx: usize,
    pub version: usize,
}

impl Preferred {
    pub fn new() -> (r: Preferred)
        ensures
            r.idx == 0 && r.version == 0,
    {
        Preferred { idx: 0, version: 0 }
    }

    /// The server to try first, if one is preferred.
    pub fn first_choice(&self, n_servers: usize) -> (r: Option<usize>)
        ensures
            r == (if self.version > 0 && self.idx < n_servers {
                Some(self.idx)
            } else {
                None::<usize>
            }),
    {
        if self.version > 0 && self.idx < n_servers {
            Some(self.idx)
        } else {
            None
        }
    }

    /// Whether to race all servers: only if no one moved the pointer since
    /// `seen_version` was read. Otherwise the caller tries the new preferred one.
    pub fn should_race(&self, seen_version: usize) -> (r: bool)
        ensures
            r == (self.version == seen_version),
    {
        self.version == seen_version
    }

    /// Records a race's outcome: the winner becomes preferred under a new
    /// version; when every server failed, none is preferred.
    pub fn record_race(&mut self, winner: Option<usize>)
        ensures
            winner is None ==> final(self).version == 0 && final(self).idx == old(self).idx,
            winner matches Some(i) ==> final(self).idx == i && final(self).version > 0
                && final(self).version != old(self).version,
            winner matches Some(i) && old(self).version < usize::MAX ==> final(self).version
                == old(self).version + 1,
    {
        match winner {
            Some(i) => {
                self.idx = i;
                self.version = if self.version == usize::MAX {
                    1
                } else {
                    self.version + 1
                };
            },
            None => {
                self.version = 0;
            },
        }
    }
}

/// What the pool does next for a lookup.
pub enum PoolStep {
    /// There is no server: answer `SERVER_FAILURE`.
    Unavailable,
    /// Try the preferred server with this index first.
    TryPreferred(usize),
    /// No server is preferred: race them all.
    Race,
}

impl Preferred {
    /// The first step of a lookup among `n_servers` servers, given the
    /// pointer as it was read.
    pub fn step(&self, n_servers: usize) -> (r: PoolStep)
        ensures
            n_servers == 0 ==> r is Unavailable,
            n_servers > 0 && self.version > 0 && self.idx < n_servers ==> r
                == PoolStep::TryPreferred(self.idx),
            n_servers > 0 && !(self.version > 0 && self.idx < n_servers) ==> r is Race,
    {
        if n_servers == 0 {
            PoolStep::Unavailable
        } else {
            match self.first_choice(n_servers) {
                Some(i) => PoolStep::TryPreferred(i),
                None => PoolStep::Race,
            }
        }
    }

    /// Ends a race: the first usable answer (with its server's index) becomes
    /// the result and that server the preferred one; with none, every server
    /// failed, none is preferred and the result is `SERVER_FAILURE`.
    pub fn finish_race(&mut self, winner: Option<(usize, Packet)>, question: &Question) -> (r: Packet)
        ensures
            winner matches Some((i, p)) ==> r == p && final(self).idx == i && final(self).version
                > 0 && final(self).version != old(self).version,
            winner is None ==> final(self).version == 0 && r.response_code == RCODE_SERVER_FAILURE
                && r.kind == PacketKind::Response && r.question@ == question@ && r.answers@.len()
                == 0 && r.authorities@.len() == 0 && r.additional_rrs@.len() == 0,
    {
        match winner {
            Some((i, p)) => {
                self.record_race(Some(i));
                p
            },
            None => {
                self.record_race(None);
                err_response(RCODE_SERVER_FAILURE, question.copy())
            },
        }
    }
}

} // verus!
