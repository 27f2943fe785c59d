//! The forwarder's work on the cache: answering a query from cached records,
//! assembling CNAME chains, and storing what an upstream answered.

use vstd::prelude::*;

use crate::cache::{cached_items, clamp_ttl, inserted, Cache, Item, ItemV, items_view, uncachable};
use crate::dns::{
    parent_of, records_view, Name, Packet, PacketKind, QuestionV, RRClass, RRDataV, RRKind,
    RecordV, ResourceRecord, ResponseCode, RCODE_NO_ERROR, RCODE_SERVER_FAILURE, RRK_A, RRK_AAAA,
    RRK_CNAME, RRK_SOA, RCODE_NX_DOMAIN,
};
use crate::coalesce::{join_spec, InFlight, Role};
use crate::lru::{lemma_scan_same_set, Entry};
use crate::time::Instant;

verus! {

/// What a fresh (not stale) read of the cache returns.
pub open spec fn fresh(
    s: Seq<Entry>,
    name: Seq<u8>,
    kind: RRKind,
    class: RRClass,
    now: u64,
    st: u64,
    sttl: u32,
) -> Seq<ItemV> {
    cached_items(s, name, kind, class, now, false, st, sttl)
}

/// The response code, the answers, and whether a positive item was seen,
/// after taking in `items` in order: a negative item sets the code, a
/// positive one is appended to the answers.
pub open spec fn absorb(items: Seq<ItemV>, code: ResponseCode, answers: Seq<RecordV>) -> (
    ResponseCode,
    Seq<RecordV>,
    bool,
)
    decreases items.len(),
{
    if items.len() == 0 {
        (code, answers, false)
    } else {
        let (c, a, p) = absorb(items.drop_last(), code, answers);
        match items.last() {
            ItemV::Negative { response_code, .. } => (response_code, a, p),
            ItemV::Positive(rr) => (c, a.push(rr), true),
        }
    }
}

/// The records of the positive items.
pub open spec fn positives(items: Seq<ItemV>) -> Seq<RecordV>
    decreases items.len(),
{
    if items.len() == 0 {
        Seq::empty()
    } else {
        let p = positives(items.drop_last());
        match items.last() {
            ItemV::Positive(rr) => p.push(rr),
            _ => p,
        }
    }
}

/// Where following CNAMEs ends.
pub enum ChainEnd {
    /// A name came back (or the hops ran out): the chain loops.
    Cycle { answers: Seq<RecordV> },
    /// The chain stops at `name` after visiting `visited` names.
    End { name: Seq<u8>, code: ResponseCode, answers: Seq<RecordV>, visited: nat },
}

/// Follows cached CNAMEs from `name`, appending each to `answers`, at most `fuel` steps.
pub open spec fn follow(
    s: Seq<Entry>,
    class: RRClass,
    now: u64,
    st: u64,
    sttl: u32,
    name: Seq<u8>,
    seen: Seq<Seq<u8>>,
    code: ResponseCode,
    answers: Seq<RecordV>,
    fuel: nat,
) -> ChainEnd
    decreases fuel,
{
    if fuel == 0 || seen.contains(name) {
        ChainEnd::Cycle { answers }
    } else {
        let items = fresh(s, name, RRK_CNAME, class, now, st, sttl);
        let visited = seen.len() + 1;
        if items.len() == 0 {
            ChainEnd::End { name, code, answers, visited }
        } else {
            match items[0] {
                ItemV::Negative { response_code, .. } => ChainEnd::End {
                    name,
                    code: if code == RCODE_NO_ERROR {
                        response_code
                    } else {
                        code
                    },
                    answers,
                    visited,
                },
                ItemV::Positive(rr) => match rr.data {
                    RRDataV::Name(target) => follow(
                        s,
                        class,
                        now,
                        st,
                        sttl,
                        target,
                        seen.push(name),
                        code,
                        answers.push(rr),
                        (fuel - 1) as nat,
                    ),
                    _ => ChainEnd::End { name, code, answers, visited },
                },
            }
        }
    }
}

/// The response code, answers and authorities once related records have been
/// added: for an A or AAAA question without answers, the CNAME chain from the
/// question's name, then the asked kind at its end, then (without a positive
/// answer there) the SOA of the end's parent as an authority.
pub open spec fn related(
    s: Seq<Entry>,
    q: QuestionV,
    now: u64,
    st: u64,
    sttl: u32,
    code: ResponseCode,
    answers: Seq<RecordV>,
    authorities: Seq<RecordV>,
) -> (ResponseCode, Seq<RecordV>, Seq<RecordV>) {
    if !(q.kind == RRK_A || q.kind == RRK_AAAA) || answers.len() > 0 {
        (code, answers, authorities)
    } else {
        match follow(s, q.class, now, st, sttl, q.name, Seq::empty(), code, answers, s.len() + 1) {
            ChainEnd::Cycle { answers } => (RCODE_SERVER_FAILURE, answers, authorities),
            ChainEnd::End { name, code, answers, visited } => {
                let (c2, a2, specific) = if code == RCODE_NO_ERROR && visited > 1 {
                    absorb(fresh(s, name, q.kind, q.class, now, st, sttl), code, answers)
                } else {
                    (code, answers, false)
                };
                let auth = if specific {
                    authorities
                } else {
                    authorities + positives(
                        fresh(s, parent_of(name), RRK_SOA, q.class, now, st, sttl),
                    )
                };
                (c2, a2, auth)
            },
        }
    }
}

/// A packet that differs from `b` at most in its code, answers and authorities.
pub open spec fn same_frame(a: Packet, b: Packet) -> bool {
    &&& a.id == b.id
    &&& a.kind == b.kind
    &&& a.op_kind == b.op_kind
    &&& a.authoritative == b.authoritative
    &&& a.truncated == b.truncated
    &&& a.recursion_desired == b.recursion_desired
    &&& a.recursion_available == b.recursion_available
    &&& a.question@ == b.question@
    &&& records_view(a.additional_rrs@) == records_view(b.additional_rrs@)
}

/// A cache read that keeps the cache's entries (only their recency moves).
fn read(cache: &mut Cache, name: &Name, kind: RRKind, class: RRClass, now: Instant) -> (r: Vec<Item>)
    requires
        old(cache).wf(),
    ensures
        final(cache).wf(),
        final(cache).same_config(old(cache)),
        final(cache).entries().to_set() == old(cache).entries().to_set(),
        final(cache).entries().len() == old(cache).entries().len(),
        items_view(r@) == fresh(
            old(cache).entries(),
            name@,
            kind,
            class,
            now.nanos,
            old(cache).staleness(),
            old(cache).stale_ttl(),
        ),
        (exists|i: int| 0 <= i < r@.len() && r@[i]@ is Negative) ==> r@.len() == 1,
{
    let ghost s0 = cache.entries();
    let r = cache.get(name, kind, class, now, false);
    proof {
        crate::lru::lemma_touch_all_same_set(
            s0,
            crate::lru::scan_keys(crate::lru::prefix_scan(s0, name@, kind, class), name@, kind, class),
        );
    }
    r
}

/// A fresh read gives the same items from any order of the same entries.
proof fn lemma_fresh_same_set(
    s: Seq<Entry>,
    t: Seq<Entry>,
    name: Seq<u8>,
    kind: RRKind,
    class: RRClass,
    now: u64,
    st: u64,
    sttl: u32,
)
    requires
        s.to_set() == t.to_set(),
    ensures
        fresh(s, name, kind, class, now, st, sttl) == fresh(t, name, kind, class, now, st, sttl),
{
    lemma_scan_same_set(s, t, name, kind, class);
}

/// Takes in `items`: a negative item sets the response code, a positive one
/// is appended to the answers. Returns whether a positive item was seen.
fn absorb_items(r: &mut Packet, items: Vec<Item>) -> (p: bool)
    ensures
        same_frame(*final(r), *old(r)),
        records_view(final(r).authorities@) == records_view(old(r).authorities@),
        (final(r).response_code, records_view(final(r).answers@), p) == absorb(
            items_view(items@),
            old(r).response_code,
            records_view(old(r).answers@),
        ),
{
    let ghost iv = items_view(items@);
    let ghost code0 = r.response_code;
    let ghost ans0 = records_view(r.answers@);
    let mut positive = false;
    let mut j: usize = 0;
    let mut items = items;
    let ghost all = items@;
    assert(all.len() == items.len());
    while items.len() > 0
        invariant
            same_frame(*r, *old(r)),
            records_view(r.authorities@) == records_view(old(r).authorities@),
            j <= all.len(),
            all.len() <= usize::MAX,
            items@ =~= all.subrange(j as int, all.len() as int),
            iv == items_view(all),
            (r.response_code, records_view(r.answers@), positive) == absorb(
                iv.subrange(0, j as int),
                code0,
                ans0,
            ),
        decreases items@.len(),
    {
        let ghost before = iv.subrange(0, j as int);
        let it = items.remove(0);
        proof {
            assert(all.subrange(j as int, all.len() as int)[0] == all[j as int]);
            assert(iv.subrange(0, j + 1).drop_last() =~= before);
            assert(iv.subrange(0, j + 1).last() == all[j as int]@);
        }
        match it {
            Item::Negative { response_code, .. } => {
                r.response_code = response_code;
            },
            Item::Positive(rr) => {
                let ghost prev = r.answers@;
                let ghost rv = rr@;
                r.answers.push(rr);
                positive = true;
                assert(records_view(r.answers@) =~= records_view(prev).push(rv));
            },
        }
        j = j + 1;
        assert(items@ =~= all.subrange(j as int, all.len() as int));
    }
    assert(iv.subrange(0, j as int) =~= iv);
    positive
}

/// Appends the records of the positive items to the authorities.
fn absorb_authorities(r: &mut Packet, items: Vec<Item>)
    ensures
        same_frame(*final(r), *old(r)),
        final(r).response_code == old(r).response_code,
        records_view(final(r).answers@) == records_view(old(r).answers@),
        records_view(final(r).authorities@) == records_view(old(r).authorities@) + positives(
            items_view(items@),
        ),
{
    let ghost iv = items_view(items@);
    let ghost auth0 = records_view(r.authorities@);
    let mut j: usize = 0;
    let mut items = items;
    let ghost all = items@;
    assert(all.len() == items.len());
    assert(auth0 + positives(iv.subrange(0, 0)) =~= auth0);
    while items.len() > 0
        invariant
            same_frame(*r, *old(r)),
            r.response_code == old(r).response_code,
            records_view(r.answers@) == records_view(old(r).answers@),
            j <= all.len(),
            all.len() <= usize::MAX,
            items@ =~= all.subrange(j as int, all.len() as int),
            iv == items_view(all),
            records_view(r.authorities@) == auth0 + positives(iv.subrange(0, j as int)),
        decreases items@.len(),
    {
        let ghost before = iv.subrange(0, j as int);
        let it = items.remove(0);
        proof {
            assert(all.subrange(j as int, all.len() as int)[0] == all[j as int]);
            assert(iv.subrange(0, j + 1).drop_last() =~= before);
            assert(iv.subrange(0, j + 1).last() == all[j as int]@);
        }
        match it {
            Item::Negative { .. } => {},
            Item::Positive(rr) => {
                let ghost prev = r.authorities@;
                let ghost rv = rr@;
                r.authorities.push(rr);
                assert(records_view(r.authorities@) =~= records_view(prev).push(rv));
                assert(auth0 + positives(before).push(rv) =~= (auth0 + positives(before)).push(rv));
            },
        }
        j = j + 1;
        assert(items@ =~= all.subrange(j as int, all.len() as int));
    }
    assert(iv.subrange(0, j as int) =~= iv);
}

proof fn lemma_follow_same_set(
    s: Seq<Entry>,
    t: Seq<Entry>,
    class: RRClass,
    now: u64,
    st: u64,
    sttl: u32,
    name: Seq<u8>,
    seen: Seq<Seq<u8>>,
    code: ResponseCode,
    answers: Seq<RecordV>,
    fuel: nat,
)
    requires
        s.to_set() == t.to_set(),
    ensures
        follow(s, class, now, st, sttl, name, seen, code, answers, fuel) == follow(
            t,
            class,
            now,
            st,
            sttl,
            name,
            seen,
            code,
            answers,
            fuel,
        ),
    decreases fuel,
{
    lemma_fresh_same_set(s, t, name, RRK_CNAME, class, now, st, sttl);
    if fuel > 0 && !seen.contains(name) {
        let items = fresh(s, name, RRK_CNAME, class, now, st, sttl);
        if items.len() > 0 {
            if let ItemV::Positive(rr) = items[0] {
                if let RRDataV::Name(target) = rr.data {
                    lemma_follow_same_set(
                        s,
                        t,
                        class,
                        now,
                        st,
                        sttl,
                        target,
                        seen.push(name),
                        code,
                        answers.push(rr),
                        (fuel - 1) as nat,
                    );
                }
            }
        }
    }
}

proof fn lemma_related_same_set(
    s: Seq<Entry>,
    t: Seq<Entry>,
    q: QuestionV,
    now: u64,
    st: u64,
    sttl: u32,
    code: ResponseCode,
    answers: Seq<RecordV>,
    authorities: Seq<RecordV>,
)
    requires
        s.to_set() == t.to_set(),
        s.len() == t.len(),
    ensures
        related(s, q, now, st, sttl, code, answers, authorities) == related(
            t,
            q,
            now,
            st,
            sttl,
            code,
            answers,
            authorities,
        ),
{
    lemma_follow_same_set(s, t, q.class, now, st, sttl, q.name, Seq::empty(), code, answers, s.len() + 1);
    match follow(s, q.class, now, st, sttl, q.name, Seq::empty(), code, answers, s.len() + 1) {
        ChainEnd::End { name, .. } => {
            lemma_fresh_same_set(s, t, name, q.kind, q.class, now, st, sttl);
            lemma_fresh_same_set(s, t, parent_of(name), RRK_SOA, q.class, now, st, sttl);
        },
        _ => {},
    }
}

pub open spec fn names_view(v: Seq<Name>) -> Seq<Seq<u8>> {
    v.map_values(|n: Name| n@)
}

fn name_in(v: &Vec<Name>, n: &Name) -> (r: bool)
    ensures
        r == names_view(v@).contains(n@),
{
    let mut i: usize = 0;
    while i < v.len()
        invariant
            i <= v@.len(),
            forall|j: int| 0 <= j < i ==> v@[j]@ != n@,
        decreases v@.len() - i,
    {
        if v[i].same(n) {
            assert(names_view(v@)[i as int] == n@);
            return true;
        }
        i = i + 1;
    }
    false
}

/// Adds to `r` the records related to its question (see `related`), read
/// from the cache at `now`.
pub fn lookup_related(r: &mut Packet, cache: &mut Cache, now: Instant)
    requires
        old(cache).wf(),
    ensures
        final(cache).wf(),
        final(cache).same_config(old(cache)),
        final(cache).entries().to_set() == old(cache).entries().to_set(),
        final(cache).entries().len() == old(cache).entries().len(),
        same_frame(*final(r), *old(r)),
        !(old(r).question.kind == RRK_A || old(r).question.kind == RRK_AAAA)
            || old(r).answers@.len() > 0 ==> *final(cache) == *old(cache) && *final(r) == *old(r),
        (final(r).response_code, records_view(final(r).answers@), records_view(final(r).authorities@))
            == related(
            old(cache).entries(),
            old(r).question@,
            now.nanos,
            old(cache).staleness(),
            old(cache).stale_ttl(),
            old(r).response_code,
            records_view(old(r).answers@),
            records_view(old(r).authorities@),
        ),
{
    if !(r.question.kind == RRK_A || r.question.kind == RRK_AAAA) {
        return;
    }
    if r.answers.len() > 0 {
        return;
    }
    let ghost s0 = cache.entries();
    let ghost st = cache.staleness();
    let ghost sttl = cache.stale_ttl();
    let ghost q = r.question@;
    let ghost auth0 = records_view(r.authorities@);
    let ghost start = follow(
        s0,
        q.class,
        now.nanos,
        st,
        sttl,
        q.name,
        Seq::empty(),
        r.response_code,
        records_view(r.answers@),
        s0.len() + 1,
    );
    let class = r.question.class;
    let mut seen: Vec<Name> = Vec::new();
    let mut name = r.question.name.copy();
    let mut fuel: u128 = cache.len() as u128 + 1;
    assert(names_view(seen@) =~= Seq::<Seq<u8>>::empty());
    loop
        invariant_except_break
            start == follow(
                s0,
                q.class,
                now.nanos,
                st,
                sttl,
                name@,
                names_view(seen@),
                r.response_code,
                records_view(r.answers@),
                fuel as nat,
            ),
        invariant
            s0 == old(cache).entries(),
            q == old(r).question@,
            q.kind == RRK_A || q.kind == RRK_AAAA,
            old(r).answers@.len() == 0,
            auth0 == records_view(old(r).authorities@),
            start == follow(
                s0,
                q.class,
                now.nanos,
                st,
                sttl,
                q.name,
                Seq::empty(),
                old(r).response_code,
                records_view(old(r).answers@),
                s0.len() + 1,
            ),
            cache.wf(),
            cache.same_config(old(cache)),
            cache.entries().to_set() == s0.to_set(),
            cache.entries().len() == s0.len(),
            st == cache.staleness(),
            sttl == cache.stale_ttl(),
            q == r.question@,
            class == q.class,
            same_frame(*r, *old(r)),
            records_view(r.authorities@) == auth0,
        ensures
            start == (ChainEnd::End {
                name: name@,
                code: r.response_code,
                answers: records_view(r.answers@),
                visited: seen@.len() as nat,
            }),
        decreases fuel,
    {
        if fuel == 0 || name_in(&seen, &name) {
            r.response_code = RCODE_SERVER_FAILURE;
            return;
        }
        let ghost seen0 = names_view(seen@);
        seen.push(name.copy());
        assert(names_view(seen@) =~= seen0.push(name@));
        let ghost before = cache.entries();
        let mut cnames = read(cache, &name, RRK_CNAME, class, now);
        proof {
            lemma_fresh_same_set(before, s0, name@, RRK_CNAME, class, now.nanos, st, sttl);
        }
        if cnames.len() == 0 {
            break;
        }
        let first = cnames.remove(0);
        match first {
            Item::Negative { response_code, .. } => {
                if r.response_code == RCODE_NO_ERROR {
                    r.response_code = response_code;
                }
                break;
            },
            Item::Positive(rr) => {
                let target = match rr.data.as_name() {
                    Some(t) => t.copy(),
                    None => {
                        break;
                    },
                };
                let ghost prev = r.answers@;
                let ghost rv = rr@;
                r.answers.push(rr);
                assert(records_view(r.answers@) =~= records_view(prev).push(rv));
                name = target;
                fuel = fuel - 1;
            },
        }
    }
    let ghost code1 = r.response_code;
    let ghost ans1 = records_view(r.answers@);
    let mut has_specific = false;
    if r.response_code == RCODE_NO_ERROR && seen.len() > 1 {
        let ghost before = cache.entries();
        let items = read(cache, &name, r.question.kind, class, now);
        proof {
            lemma_fresh_same_set(before, s0, name@, q.kind, class, now.nanos, st, sttl);
        }
        has_specific = absorb_items(r, items);
    }
    if !has_specific {
        let p = name.parent();
        let ghost before = cache.entries();
        let items = read(cache, &p, RRK_SOA, class, now);
        proof {
            lemma_fresh_same_set(before, s0, p@, RRK_SOA, class, now.nanos, st, sttl);
        }
        absorb_authorities(r, items);
    }
}

/// The response code, answers and authorities a query gets from the cache:
/// the cached items of its question, then the related records.
pub open spec fn cache_answer(s: Seq<Entry>, q: QuestionV, now: u64, st: u64, sttl: u32) -> (
    ResponseCode,
    Seq<RecordV>,
    Seq<RecordV>,
) {
    let (c1, a1, _) = absorb(
        fresh(s, q.name, q.kind, q.class, now, st, sttl),
        RCODE_NO_ERROR,
        Seq::empty(),
    );
    related(s, q, now, st, sttl, c1, a1, Seq::empty())
}

/// A response to `query` built from the cache, or `None` when the cache has
/// nothing to say (no error code, no answer, no authority).
pub fn lookup_cache(cache: &mut Cache, query: &Packet, now: Instant) -> (r: Option<Packet>)
    requires
        old(cache).wf(),
    ensures
        answered_from(*old(cache), *final(cache), *query, now.nanos, r),
{
    let ghost s0 = cache.entries();
    let mut r = query.to_response();
    assert(records_view(r.answers@) =~= Seq::<RecordV>::empty());
    assert(records_view(r.authorities@) =~= Seq::<RecordV>::empty());
    let items = read(cache, &query.question.name, query.question.kind, query.question.class, now);
    absorb_items(&mut r, items);
    let ghost s1 = cache.entries();
    let ghost c1 = r.response_code;
    let ghost a1 = records_view(r.answers@);
    proof {
        lemma_fresh_same_set(
            s0,
            s1,
            query.question.name@,
            query.question.kind,
            query.question.class,
            now.nanos,
            cache.staleness(),
            cache.stale_ttl(),
        );
        lemma_related_same_set(
            s1,
            s0,
            query.question@,
            now.nanos,
            cache.staleness(),
            cache.stale_ttl(),
            c1,
            a1,
            Seq::empty(),
        );
    }
    lookup_related(&mut r, cache, now);
    proof {
        assert(records_view(r.additional_rrs@).len() == r.additional_rrs@.len());
        assert((r.response_code, records_view(r.answers@), records_view(r.authorities@))
            == cache_answer(s0, query.question@, now.nanos, cache.staleness(), cache.stale_ttl()));
    }
    if r.response_code == RCODE_NO_ERROR && r.answers.len() == 0 && r.authorities.len() == 0 {
        return None;
    }
    Some(r)
}

/// The entries after storing each record of `recs` in turn as a positive item.
pub open spec fn store_records(
    s: Seq<Entry>,
    cap: nat,
    positive_floor: u32,
    max: u32,
    recs: Seq<RecordV>,
    now: u64,
) -> Seq<Entry>
    decreases recs.len(),
{
    if recs.len() == 0 {
        s
    } else {
        let t = store_records(s, cap, positive_floor, max, recs.drop_last(), now);
        let r = recs.last();
        inserted(
            t,
            cap,
            r.name,
            r.kind,
            r.class,
            clamp_ttl(r.ttl_secs, positive_floor, max),
            now,
            ItemV::Positive(r),
        )
    }
}

/// An SOA record of the class, holding an SOA value.
pub open spec fn soa_of_class(r: RecordV, class: RRClass) -> bool {
    r.kind == RRK_SOA && r.class == class && r.data is Soa
}

/// The first SOA record of the class in `a`.
pub open spec fn first_soa(a: Seq<RecordV>, class: RRClass) -> Option<RecordV>
    decreases a.len(),
{
    if a.len() == 0 {
        None
    } else if soa_of_class(a[0], class) {
        Some(a[0])
    } else {
        first_soa(a.drop_first(), class)
    }
}

/// How long a negative answer is kept, before clamping: the smaller of the
/// SOA record's TTL and its minimum TTL; zero without an SOA.
pub open spec fn negative_ttl(soa: Option<RecordV>) -> u32 {
    match soa {
        Some(r) => match r.data {
            RRDataV::Soa(v) => if r.ttl_secs < v.min_ttl_secs {
                r.ttl_secs
            } else {
                v.min_ttl_secs
            },
            _ => 0,
        },
        None => 0,
    }
}

/// The negative item stored for a failed answer.
pub open spec fn negative_item(code: ResponseCode, soa: Option<RecordV>) -> ItemV {
    ItemV::Negative {
        response_code: code,
        soa: match soa {
            Some(r) => Some(r.name),
            None => None,
        },
    }
}

fn find_soa(a: &Vec<ResourceRecord>, class: RRClass) -> (r: Option<usize>)
    ensures
        match r {
            Some(i) => i < a@.len() && first_soa(records_view(a@), class) == Some(a@[i as int]@),
            None => first_soa(records_view(a@), class) is None,
        },
{
    let ghost all = records_view(a@);
    let mut i: usize = 0;
    assert(all.subrange(0, all.len() as int) =~= all);
    while i < a.len()
        invariant
            i <= a@.len(),
            all == records_view(a@),
            first_soa(all, class) == first_soa(all.subrange(i as int, all.len() as int), class),
        decreases a@.len() - i,
    {
        let ghost rest = all.subrange(i as int, all.len() as int);
        if a[i].kind == RRK_SOA && a[i].class == class && a[i].data.as_soa().is_some() {
            return Some(i);
        }
        assert(rest.drop_first() =~= all.subrange(i + 1, all.len() as int));
        i = i + 1;
    }
    None
}

/// The cache's entries once `update_cache` has stored `pkt` at `now`.
pub open spec fn updated(c: Cache, pkt: Packet, now: u64) -> Seq<Entry> {
    let stored = store_records(
        c.entries(),
        c.capacity(),
        c.min_positive_ttl(),
        c.max_ttl(),
        records_view(pkt.answers@ + pkt.authorities@ + pkt.additional_rrs@),
        now,
    );
    let soa = first_soa(records_view(pkt.authorities@), pkt.question.class);
    if (pkt.response_code == RCODE_SERVER_FAILURE || pkt.response_code == RCODE_NX_DOMAIN)
        && soa is Some {
        inserted(
            stored,
            c.capacity(),
            pkt.question.name@,
            pkt.question.kind,
            pkt.question.class,
            clamp_ttl(negative_ttl(soa), c.floor(pkt.response_code), c.max_ttl()),
            now,
            negative_item(pkt.response_code, soa),
        )
    } else {
        stored
    }
}

/// Whether the cache has something to say about `q` at `now`: an error code,
/// an answer or an authority.
pub open spec fn cache_has_answer(c: Cache, q: QuestionV, now: u64) -> bool {
    let (code, a, au) = cache_answer(c.entries(), q, now, c.staleness(), c.stale_ttl());
    code != RCODE_NO_ERROR || a.len() > 0 || au.len() > 0
}

/// What `lookup_cache` promises: `r` is the response `cache` gives `query`
/// at `now`, and `after` holds the same entries.
pub open spec fn answered_from(cache: Cache, after: Cache, query: Packet, now: u64, r: Option<Packet>) -> bool {
    let (c, a, au) = cache_answer(
        cache.entries(),
        query.question@,
        now,
        cache.staleness(),
        cache.stale_ttl(),
    );
    &&& after.wf()
    &&& after.same_config(&cache)
    &&& after.entries().to_set() == cache.entries().to_set()
    &&& after.entries().len() == cache.entries().len()
    &&& r is Some <==> cache_has_answer(cache, query.question@, now)
    &&& r is Some ==> {
        let p = r.unwrap();
        &&& p.id == query.id
        &&& p.kind == PacketKind::Response
        &&& p.op_kind == query.op_kind
        &&& !p.authoritative && !p.truncated && !p.recursion_desired && !p.recursion_available
        &&& p.question@ == query.question@
        &&& p.response_code == c
        &&& records_view(p.answers@) == a
        &&& records_view(p.authorities@) == au
        &&& p.additional_rrs@.len() == 0
    }
}

/// Stores what an upstream answered: every record of the packet as a
/// positive item, then, for `SERVER_FAILURE` and `NX_DOMAIN`, a negative item
/// for the question, kept as long as the first SOA authority of the question's
/// class says. Without such an SOA no negative item is stored.
pub fn update_cache(cache: &mut Cache, pkt: &Packet, now: Instant)
    requires
        old(cache).wf(),
    ensures
        final(cache).wf(),
        final(cache).same_config(old(cache)),
        final(cache).entries() == updated(*old(cache), *pkt, now.nanos),
{
    let ghost s0 = cache.entries();
    let ghost all = records_view(pkt.answers@ + pkt.authorities@ + pkt.additional_rrs@);
    let recs = pkt.resource_records();
    assert(all.subrange(0, 0) =~= Seq::<RecordV>::empty());
    let mut j: usize = 0;
    while j < recs.len()
        invariant
            j <= recs@.len(),
            recs@.len() == all.len(),
            forall|k: int| 0 <= k < recs@.len() ==> (*recs@[k])@ == #[trigger] all[k],
            cache.wf(),
            cache.same_config(old(cache)),
            cache.entries() == store_records(
                s0,
                cache.capacity(),
                cache.min_positive_ttl(),
                cache.max_ttl(),
                all.subrange(0, j as int),
                now.nanos,
            ),
        decreases recs@.len() - j,
    {
        let rr = recs[j];
        let ghost rv = rr@;
        assert(rv == all[j as int]);
        let _ = cache.insert(
            rr.name.copy(),
            rr.kind,
            rr.class,
            rr.ttl_secs,
            now,
            Item::Positive(rr.copy()),
        );
        assert(all.subrange(0, j + 1).drop_last() =~= all.subrange(0, j as int));
        j = j + 1;
    }
    assert(all.subrange(0, j as int) =~= all);
    if pkt.response_code == RCODE_SERVER_FAILURE || pkt.response_code == RCODE_NX_DOMAIN {
        match find_soa(&pkt.authorities, pkt.question.class) {
            Some(i) => {
                let rr = &pkt.authorities[i];
                let min = match rr.data.as_soa() {
                    Some(v) => v.min_ttl_secs,
                    None => 0,
                };
                let ttl = if rr.ttl_secs < min {
                    rr.ttl_secs
                } else {
                    min
                };
                let _ = cache.insert(
                    pkt.question.name.copy(),
                    pkt.question.kind,
                    pkt.question.class,
                    ttl,
                    now,
                    Item::Negative { response_code: pkt.response_code, soa: Some(rr.name.copy()) },
                );
            },
            None => {},
        }
    }
}

/// A cached chain `a → b → c` with no A record at `a` or `c` answers an A
/// query for `a` with both CNAMEs, `NO_ERROR`, and as authorities the cached
/// SOA records of `c`'s parent.
pub proof fn cname_chain_answered(
    s: Seq<Entry>,
    a: Seq<u8>,
    b: Seq<u8>,
    c: Seq<u8>,
    class: RRClass,
    now: u64,
    st: u64,
    sttl: u32,
    ra: RecordV,
    rb: RecordV,
    ea: Entry,
    eb: Entry,
)
    requires
        a != b && b != c && a != c,
        s.contains(ea) && ea.0.name == a,
        s.contains(eb) && eb.0.name == b,
        ra.data == RRDataV::Name(b),
        rb.data == RRDataV::Name(c),
        fresh(s, a, RRK_A, class, now, st, sttl).len() == 0,
        fresh(s, a, RRK_CNAME, class, now, st, sttl) == seq![ItemV::Positive(ra)],
        fresh(s, b, RRK_CNAME, class, now, st, sttl) == seq![ItemV::Positive(rb)],
        fresh(s, c, RRK_CNAME, class, now, st, sttl).len() == 0,
        fresh(s, c, RRK_A, class, now, st, sttl).len() == 0,
    ensures
        cache_answer(s, QuestionV { name: a, kind: RRK_A, class }, now, st, sttl) == (
            RCODE_NO_ERROR,
            seq![ra, rb],
            positives(fresh(s, parent_of(c), RRK_SOA, class, now, st, sttl)),
        ),
{
    let q = QuestionV { name: a, kind: RRK_A, class };
    let e = Seq::<RecordV>::empty();
    assert(absorb(fresh(s, a, RRK_A, class, now, st, sttl), RCODE_NO_ERROR, e) == (
        RCODE_NO_ERROR,
        e,
        false,
    ));
    let ia = choose|i: int| 0 <= i < s.len() && s[i] == ea;
    let ib = choose|i: int| 0 <= i < s.len() && s[i] == eb;
    assert(ia != ib);
    assert(s.len() >= 2);
    let n = (s.len() + 1) as nat;
    let seen1 = Seq::<Seq<u8>>::empty().push(a);
    let seen2 = seen1.push(b);
    assert(!seen2.contains(c)) by {
        if seen2.contains(c) {
            let i = choose|i: int| 0 <= i < seen2.len() && seen2[i] == c;
            assert(i == 0 || i == 1);
        }
    }
    assert(!seen1.contains(b)) by {
        if seen1.contains(b) {
            let i = choose|i: int| 0 <= i < seen1.len() && seen1[i] == b;
        }
    }
    let end = ChainEnd::End { name: c, code: RCODE_NO_ERROR, answers: e.push(ra).push(rb), visited: 3 };
    assert(follow(s, class, now, st, sttl, c, seen2, RCODE_NO_ERROR, e.push(ra).push(rb), (n - 2) as nat) == end);
    assert(follow(s, class, now, st, sttl, b, seen1, RCODE_NO_ERROR, e.push(ra), (n - 1) as nat) == end);
    assert(follow(s, class, now, st, sttl, a, Seq::empty(), RCODE_NO_ERROR, e, n) == end);
    assert(absorb(fresh(s, c, RRK_A, class, now, st, sttl), RCODE_NO_ERROR, e.push(ra).push(rb))
        == (RCODE_NO_ERROR, e.push(ra).push(rb), false));
    assert(e.push(ra).push(rb) =~= seq![ra, rb]);
    assert(e + positives(fresh(s, parent_of(c), RRK_SOA, class, now, st, sttl)) =~= positives(
        fresh(s, parent_of(c), RRK_SOA, class, now, st, sttl),
    ));
}

// ---------------------------------------------------------------------------
// The forwarder's decisions around an upstream lookup. The caller performs the
// lookup and the waiting; these steps decide what comes before and after.

/// What to do with a query once it has been seen.
pub enum Begin<T> {
    /// Answer with this packet; nothing is asked upstream.
    Respond(Packet),
    /// Ask upstream as the question's leader; `finish_leading` afterwards.
    Lead,
    /// Wait on this latch, then call `after_wait`.
    Wait(T),
    /// Ask upstream (no cache, so no coalescing).
    Ask,
}

/// The forwarder's own state: the cache, if any, and the questions in flight.
pub struct Forward<T> {
    cache: Option<Cache>,
    in_flight: InFlight<T>,
}

/// `p` is the `SERVER_FAILURE` response to `query`: same id, operation and
/// question, no records.
pub open spec fn servfail_reply(query: Packet, p: Packet) -> bool {
    &&& p.id == query.id
    &&& p.kind == PacketKind::Response
    &&& p.op_kind == query.op_kind
    &&& !p.authoritative && !p.truncated && !p.recursion_desired && !p.recursion_available
    &&& p.question@ == query.question@
    &&& p.response_code == RCODE_SERVER_FAILURE
    &&& p.answers@.len() == 0 && p.authorities@.len() == 0 && p.additional_rrs@.len() == 0
}

/// The packet `v` with its id replaced.
pub open spec fn with_id(v: crate::dns::PacketV, id: u16) -> crate::dns::PacketV {
    crate::dns::PacketV {
        id,
        kind: v.kind,
        op_kind: v.op_kind,
        authoritative: v.authoritative,
        truncated: v.truncated,
        recursion_desired: v.recursion_desired,
        recursion_available: v.recursion_available,
        response_code: v.response_code,
        question: v.question,
        answers: v.answers,
        authorities: v.authorities,
        additional_rrs: v.additional_rrs,
    }
}

/// The response a step hands back, if it hands one back.
pub open spec fn responded<T>(r: Begin<T>) -> Option<Packet> {
    match r {
        Begin::Respond(p) => Some(p),
        _ => None,
    }
}

/// A `SERVER_FAILURE` response to `query` when it does not ask for recursion.
pub fn refuse_without_recursion(query: &Packet) -> (r: Option<Packet>)
    ensures
        r is Some == !query.recursion_desired,
        r matches Some(p) ==> servfail_reply(*query, p),
{
    if !query.recursion_desired {
        Some(query.to_response_with_code(RCODE_SERVER_FAILURE))
    } else {
        None
    }
}

impl<T: Clone> Forward<T> {
    pub closed spec fn cache(&self) -> Option<Cache> {
        self.cache
    }

    /// The questions in flight.
    pub closed spec fn in_flight(&self) -> Seq<QuestionV> {
        self.in_flight.view()
    }

    pub closed spec fn wf(&self) -> bool {
        &&& self.in_flight.wf()
        &&& self.cache matches Some(c) ==> c.wf()
    }

    pub fn new(cache: Option<Cache>) -> (r: Forward<T>)
        requires
            cache matches Some(c) ==> c.wf(),
        ensures
            r.wf(),
            r.cache() == cache,
            r.in_flight() == Seq::<QuestionV>::empty(),
    {
        Forward { cache, in_flight: InFlight::new() }
    }

    /// The cache's answer to `query`; `None` without a cache.
    pub fn lookup_cache(&mut self, query: &Packet, now: Instant) -> (r: Option<Packet>)
        requires
            old(self).wf(),
        ensures
            final(self).wf(),
            final(self).in_flight() == old(self).in_flight(),
            old(self).cache() is None ==> r is None && final(self).cache() is None,
            old(self).cache() matches Some(c) ==> final(self).cache() matches Some(d)
                && answered_from(c, d, *query, now.nanos, r),
    {
        match &mut self.cache {
            Some(c) => lookup_cache(c, query, now),
            None => None,
        }
    }

    /// With a cache: its answer to `query`, or else a place in the question's
    /// flight, as its leader or as a waiter.
    fn lookup_or_join(&mut self, query: &Packet, now: Instant, latch: T) -> (r: Begin<T>)
        requires
            old(self).wf(),
            old(self).cache() is Some,
        ensures
            final(self).wf(),
            !(r is Ask),
            final(self).cache() matches Some(d) && answered_from(
                old(self).cache()->Some_0,
                d,
                *query,
                now.nanos,
                responded(r),
            ),
            r is Respond ==> final(self).in_flight() == old(self).in_flight(),
            !(r is Respond) ==> (final(self).in_flight(), r is Lead) == join_spec(
                old(self).in_flight(),
                query.question@,
            ),
    {
        match self.lookup_cache(query, now) {
            Some(p) => Begin::Respond(p),
            None => match self.in_flight.join(&query.question, latch) {
                Role::Leader => Begin::Lead,
                Role::Waiter(l) => Begin::Wait(l),
            },
        }
    }

    /// The first step for a query: refuse it without recursion, ask upstream
    /// when there is no cache, else answer from the cache or join the
    /// question's flight (as its leader when no one leads it).
    pub fn begin(&mut self, query: &Packet, now: Instant, latch: T) -> (r: Begin<T>)
        requires
            old(self).wf(),
        ensures
            final(self).wf(),
            !query.recursion_desired ==> (r matches Begin::Respond(p) && servfail_reply(*query, p)
                && final(self).cache() == old(self).cache() && final(self).in_flight()
                == old(self).in_flight()),
            query.recursion_desired && old(self).cache() is None ==> r is Ask && final(self).cache()
                is None && final(self).in_flight() == old(self).in_flight(),
            r is Ask ==> old(self).cache() is None,
            query.recursion_desired ==> (old(self).cache() matches Some(c) ==> {
                &&& final(self).cache() matches Some(d) && answered_from(
                    c,
                    d,
                    *query,
                    now.nanos,
                    responded(r),
                )
                &&& r is Respond ==> final(self).in_flight() == old(self).in_flight()
                &&& !(r is Respond) ==> (final(self).in_flight(), r is Lead) == join_spec(
                    old(self).in_flight(),
                    query.question@,
                )
            }),
    {
        match refuse_without_recursion(query) {
            Some(p) => {
                return Begin::Respond(p);
            },
            None => {},
        }
        if self.cache.is_none() {
            return Begin::Ask;
        }
        self.lookup_or_join(query, now, latch)
    }

    /// After waiting on a leader: the cache's answer now, or else a place in
    /// the question's flight again; with no leader left, the caller leads.
    pub fn after_wait(&mut self, query: &Packet, now: Instant, latch: T) -> (r: Begin<T>)
        requires
            old(self).wf(),
        ensures
            final(self).wf(),
            r is Ask <==> old(self).cache() is None,
            old(self).cache() is None ==> final(self).cache() is None && final(self).in_flight()
                == old(self).in_flight(),
            old(self).cache() matches Some(c) ==> {
                &&& final(self).cache() matches Some(d) && answered_from(
                    c,
                    d,
                    *query,
                    now.nanos,
                    responded(r),
                )
                &&& r is Respond ==> final(self).in_flight() == old(self).in_flight()
                &&& !(r is Respond) ==> (final(self).in_flight(), r is Lead) == join_spec(
                    old(self).in_flight(),
                    query.question@,
                )
            },
    {
        if self.cache.is_none() {
            return Begin::Ask;
        }
        self.lookup_or_join(query, now, latch)
    }

    /// What the upstream answered, with the query's id, stored in the cache.
    pub fn complete(&mut self, query: &Packet, answer: Option<Packet>, now: Instant) -> (r: Option<Packet>)
        requires
            old(self).wf(),
        ensures
            final(self).wf(),
            final(self).in_flight() == old(self).in_flight(),
            r is Some == answer is Some,
            answer is None || old(self).cache() is None ==> final(self).cache() == old(self).cache(),
            answer matches Some(a) ==> (old(self).cache() matches Some(c) ==> final(self).cache()
                matches Some(d) && d.entries() == updated(c, r.unwrap(), now.nanos) && d.same_config(
                &c,
            )),
            r matches Some(p) ==> p@ == with_id(answer.unwrap()@, query.id),
    {
        match answer {
            Some(mut p) => {
                p.id = query.id;
                match &mut self.cache {
                    Some(c) => update_cache(c, &p, now),
                    None => {},
                }
                Some(p)
            },
            None => None,
        }
    }

    /// The leader is done with `question`: it leaves the flight, and its latch
    /// is handed back for release.
    pub fn finish_leading(&mut self, question: &crate::dns::Question) -> (r: Option<T>)
        requires
            old(self).wf(),
        ensures
            final(self).wf(),
            r is Some == old(self).in_flight().contains(question@),
            final(self).in_flight() == old(self).in_flight().remove_value(question@),
            !final(self).in_flight().contains(question@),
            final(self).cache() == old(self).cache(),
    {
        self.in_flight.leave(question)
    }
}

} // verus!
