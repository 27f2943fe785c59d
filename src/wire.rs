//! The DNS wire format: names with compression pointers, questions, resource
//! records and whole packets, as functions on bytes.

use vstd::prelude::*;
use vstd::string::StringSliceAdditionalSpecFns;

use crate::dns::{
    records_view, Name, Packet, PacketKind, PacketV, ParseNameErr, Question, QuestionV, RRData, RRDataV, RecordV,
    ResourceRecord, Soa, SoaV,
};

verus! {

pub const HEADER_LEN: usize = 12;

/// The most compression pointers followed within one name.
pub const MAX_HOPS: u32 = 10;

/// The bytes could not be read as a DNS message.
#[derive(Clone, Copy, Debug, PartialEq, Eq, Structural)]
pub struct DecodeError;

pub open spec fn label_char(c: u8) -> bool {
    (97 <= c <= 122) || (65 <= c <= 90) || (48 <= c <= 57) || c == 45
}

pub open spec fn lower(c: u8) -> u8 {
    if 65 <= c <= 90 {
        (c + 32) as u8
    } else {
        c
    }
}

pub open spec fn lower_all(s: Seq<u8>) -> Seq<u8> {
    s.map_values(|c: u8| lower(c))
}

/// Two dotted names joined, the empty name being neutral.
pub open spec fn join(a: Seq<u8>, b: Seq<u8>) -> Seq<u8> {
    if a.len() == 0 {
        b
    } else if b.len() == 0 {
        a
    } else {
        a + seq![46u8] + b
    }
}

/// The name at `pos` of `pkt`, following at most `hops` compression pointers,
/// with the position just after it in the bytes that start at `pos`.
pub open spec fn parse_name(pkt: Seq<u8>, pos: int, hops: nat) -> Option<(Seq<u8>, int)>
    decreases hops, pkt.len() - pos,
{
    if pos < 0 || pos >= pkt.len() {
        None
    } else {
        let len = pkt[pos];
        if len == 0 {
            Some((Seq::empty(), pos + 1))
        } else if len >= 192 {
            if hops == 0 || pos + 1 >= pkt.len() {
                None
            } else {
                let target = (len - 192) * 256 + pkt[pos + 1];
                match parse_name(pkt, target, (hops - 1) as nat) {
                    Some((n, _)) => Some((n, pos + 2)),
                    None => None,
                }
            }
        } else if len > 63 || len >= pkt.len() - (pos + 1) {
            None
        } else {
            let label = pkt.subrange(pos + 1, pos + 1 + len);
            if forall|i: int| 0 <= i < label.len() ==> label_char(#[trigger] label[i]) {
                match parse_name(pkt, pos + 1 + len, hops) {
                    Some((n, e)) => Some((join(lower_all(label), n), e)),
                    None => None,
                }
            } else {
                None
            }
        }
    }
}

pub proof fn lemma_join_assoc(a: Seq<u8>, l: Seq<u8>, n: Seq<u8>)
    requires
        l.len() > 0,
    ensures
        join(a, join(l, n)) == join(join(a, l), n),
{
    if a.len() > 0 && n.len() > 0 {
        assert(a + seq![46u8] + (l + seq![46u8] + n) =~= a + seq![46u8] + l + seq![46u8] + n);
    }
}

impl Name {
    /// Whether `c` may stand in a label: a letter, a digit or `-`.
    pub fn is_valid_label_char(c: u8) -> (r: bool)
        ensures
            r == label_char(c),
    {
        (97 <= c && c <= 122) || (65 <= c && c <= 90) || (48 <= c && c <= 57) || c == 45
    }

    /// Appends the label `buf`, lower-cased, to `s`. Fails, leaving `s` as it
    /// was, when a byte is not a label character.
    pub fn decode_label(s: &mut Vec<u8>, buf: &[u8]) -> (r: Result<(), DecodeError>)
        ensures
            r is Ok == (forall|i: int| 0 <= i < buf@.len() ==> label_char(#[trigger] buf@[i])),
            r is Ok ==> final(s)@ == old(s)@ + lower_all(buf@),
            r is Err ==> final(s)@ == old(s)@,
    {
        let mut i: usize = 0;
        while i < buf.len()
            invariant
                i <= buf@.len(),
                forall|j: int| 0 <= j < i ==> label_char(#[trigger] buf@[j]),
            decreases buf@.len() - i,
        {
            if !Name::is_valid_label_char(buf[i]) {
                return Err(DecodeError);
            }
            i = i + 1;
        }
        let ghost s0 = s@;
        let mut k: usize = 0;
        while k < buf.len()
            invariant
                k <= buf@.len(),
                s@ == s0 + lower_all(buf@.subrange(0, k as int)),
            decreases buf@.len() - k,
        {
            let c = buf[k];
            let l = if 65 <= c && c <= 90 {
                c + 32
            } else {
                c
            };
            s.push(l);
            assert(lower_all(buf@.subrange(0, k + 1)) =~= lower_all(buf@.subrange(0, k as int)).push(
                lower(c),
            ));
            k = k + 1;
        }
        assert(buf@.subrange(0, k as int) =~= buf@);
        Ok(())
    }

    /// Reads the name at `*cursor` of the packet `pkt`, following compression
    /// pointers (at most `MAX_HOPS`), and moves `*cursor` past it.
    pub fn decode(pkt: &[u8], cursor: &mut usize) -> (r: Result<Name, DecodeError>)
        ensures
            match parse_name(pkt@, *old(cursor) as int, MAX_HOPS as nat) {
                Some((n, e)) => r is Ok && r.unwrap()@ == n && *final(cursor) as int == e,
                None => r is Err,
            },
    {
        let ghost start = *cursor as int;
        let ghost whole = parse_name(pkt@, start, MAX_HOPS as nat);
        let mut pos: usize = *cursor;
        let mut saved: Option<usize> = None;
        let mut hops: u32 = 0;
        let mut out: Vec<u8> = Vec::new();
        loop
            invariant
                hops <= MAX_HOPS,
                start == *old(cursor) as int,
                whole == parse_name(pkt@, start, MAX_HOPS as nat),
                whole == match parse_name(pkt@, pos as int, (MAX_HOPS - hops) as nat) {
                    Some((n, e)) => Some(
                        (
                            join(out@, n),
                            match saved {
                                Some(s) => s as int,
                                None => e,
                            },
                        ),
                    ),
                    None => None::<(Seq<u8>, int)>,
                },
            decreases MAX_HOPS - hops, pkt@.len() - pos,
        {
            if pos >= pkt.len() {
                return Err(DecodeError);
            }
            let len = pkt[pos];
            if len == 0 {
                *cursor = match saved {
                    Some(s) => s,
                    None => pos + 1,
                };
                return Ok(Name::from_bytes(out));
            } else if len >= 192 {
                if hops == MAX_HOPS || pos + 1 >= pkt.len() {
                    return Err(DecodeError);
                }
                let target: usize = (len - 192) as usize * 256 + pkt[pos + 1] as usize;
                if saved.is_none() {
                    saved = Some(pos + 2);
                }
                hops = hops + 1;
                pos = target;
            } else {
                let n = len as usize;
                if n > 63 || n >= pkt.len() - (pos + 1) {
                    return Err(DecodeError);
                }
                let ghost before = out@;
                let mut label: Vec<u8> = Vec::new();
                let ok = Name::decode_label(&mut label, &pkt[pos + 1..pos + 1 + n]);
                if ok.is_err() {
                    return Err(DecodeError);
                }
                assert(label@ =~= lower_all(pkt@.subrange(pos + 1, pos + 1 + n)));
                if out.len() > 0 {
                    out.push(46u8);
                }
                append_bytes(&mut out, &label);
                proof {
                    lemma_join_assoc(before, label@, parse_name(pkt@, pos + 1 + n, (MAX_HOPS - hops) as nat)->Some_0.0);
                    if before.len() > 0 {
                        assert(out@ =~= before + seq![46u8] + label@);
                    } else {
                        assert(out@ =~= label@);
                    }
                }
                pos = pos + 1 + n;
            }
        }
    }
}

/// Appends the bytes of `b` to `out`.
pub fn append_bytes(out: &mut Vec<u8>, b: &Vec<u8>)
    ensures
        final(out)@ == old(out)@ + b@,
{
    let ghost o = out@;
    let mut i: usize = 0;
    while i < b.len()
        invariant
            i <= b@.len(),
            out@ == o + b@.subrange(0, i as int),
        decreases b@.len() - i,
    {
        out.push(b[i]);
        assert(b@.subrange(0, i + 1) =~= b@.subrange(0, i as int).push(b@[i as int]));
        i = i + 1;
    }
    assert(b@.subrange(0, i as int) =~= b@);
}

// ---------------------------------------------------------------------------
// Encoding.

/// The length of the first label of a dotted name (up to the first dot).
pub open spec fn first_dot(n: Seq<u8>) -> int
    decreases n.len(),
{
    if n.len() == 0 || n[0] == 46u8 {
        0
    } else {
        1 + first_dot(n.drop_first())
    }
}

pub proof fn lemma_first_dot(n: Seq<u8>)
    ensures
        0 <= first_dot(n) <= n.len(),
        forall|j: int| 0 <= j < first_dot(n) ==> n[j] != 46u8,
        first_dot(n) < n.len() ==> n[first_dot(n)] == 46u8,
    decreases n.len(),
{
    if n.len() > 0 && n[0] != 46u8 {
        lemma_first_dot(n.drop_first());
        assert forall|j: int| 0 <= j < first_dot(n) implies n[j] != 46u8 by {
            if j > 0 {
                assert(n[j] == n.drop_first()[j - 1]);
            }
        }
    }
}

/// A dotted name whose labels are 1 to 63 bytes long.
pub open spec fn encodable(n: Seq<u8>) -> bool
    decreases n.len(),
{
    if n.len() == 0 {
        true
    } else {
        let i = first_dot(n);
        &&& 1 <= i <= 63
        &&& i < n.len() ==> (i + 1 < n.len() && encodable(n.subrange(i + 1, n.len() as int)))
    }
}

/// The wire form of an encodable name: length-prefixed labels and a zero byte.
pub open spec fn name_wire(n: Seq<u8>) -> Seq<u8>
    decreases n.len(),
{
    if n.len() == 0 {
        seq![0u8]
    } else {
        let i = first_dot(n);
        if i <= 0 || i >= n.len() {
            seq![i as u8] + n.subrange(0, i) + seq![0u8]
        } else {
            seq![i as u8] + n.subrange(0, i) + name_wire(n.subrange(i + 1, n.len() as int))
        }
    }
}

pub open spec fn be16(v: u16) -> Seq<u8> {
    seq![(v / 256) as u8, (v % 256) as u8]
}

pub open spec fn be32(v: u32) -> Seq<u8> {
    be16((v / 65536) as u16) + be16((v % 65536) as u16)
}

pub open spec fn be64(v: u64) -> Seq<u8> {
    be32((v / 0x1_0000_0000) as u32) + be32((v % 0x1_0000_0000) as u32)
}

pub open spec fn be128(v: u128) -> Seq<u8> {
    be64((v / 0x1_0000_0000_0000_0000) as u64) + be64((v % 0x1_0000_0000_0000_0000) as u64)
}

pub fn put_u16(buf: &mut Vec<u8>, v: u16)
    ensures
        final(buf)@ == old(buf)@ + be16(v),
{
    buf.push((v / 256) as u8);
    buf.push((v % 256) as u8);
    assert(buf@ =~= old(buf)@ + be16(v));
}

pub fn put_u32(buf: &mut Vec<u8>, v: u32)
    ensures
        final(buf)@ == old(buf)@ + be32(v),
{
    put_u16(buf, (v / 65536) as u16);
    put_u16(buf, (v % 65536) as u16);
    assert(buf@ =~= old(buf)@ + be32(v));
}

pub fn put_u64(buf: &mut Vec<u8>, v: u64)
    ensures
        final(buf)@ == old(buf)@ + be64(v),
{
    put_u32(buf, (v / 0x1_0000_0000) as u32);
    put_u32(buf, (v % 0x1_0000_0000) as u32);
    assert(buf@ =~= old(buf)@ + be64(v));
}

pub fn put_u128(buf: &mut Vec<u8>, v: u128)
    ensures
        final(buf)@ == old(buf)@ + be128(v),
{
    put_u64(buf, (v / 0x1_0000_0000_0000_0000) as u64);
    put_u64(buf, (v % 0x1_0000_0000_0000_0000) as u64);
    assert(buf@ =~= old(buf)@ + be128(v));
}

impl Name {
    /// Appends the wire form of the name (no compression).
    pub fn encode(&self, buf: &mut Vec<u8>)
        requires
            encodable(self@),
        ensures
            final(buf)@ == old(buf)@ + name_wire(self@),
    {
        let b = self.as_bytes();
        let ghost all = b@;
        if b.len() == 0 {
            buf.push(0u8);
            return;
        }
        let mut pos: usize = 0;
        assert(all.subrange(0, all.len() as int) =~= all);
        assert(all.len() == b.len());
        loop
            invariant
                all == b@,
                all == self@,
                all.len() <= usize::MAX,
                pos < all.len(),
                encodable(all.subrange(pos as int, all.len() as int)),
                buf@ + name_wire(all.subrange(pos as int, all.len() as int)) == old(buf)@
                    + name_wire(all),
            decreases all.len() - pos,
        {
            let ghost rest = all.subrange(pos as int, all.len() as int);
            let ghost before = buf@;
            proof {
                lemma_first_dot(rest);
            }
            let mut i: usize = 0;
            while pos + i < b.len() && b[pos + i] != 46u8
                invariant
                    all == b@,
                    all.len() <= usize::MAX,
                    pos < all.len(),
                    pos + i <= all.len(),
                    buf@ == before,
                    forall|j: int| pos <= j < pos + i ==> all[j] != 46u8,
                decreases all.len() - pos - i,
            {
                i = i + 1;
            }
            proof {
                assert(i as int == first_dot(rest)) by {
                    if (i as int) < first_dot(rest) {
                        assert(rest[i as int] != 46u8);
                        assert(all[pos + i] == rest[i as int]);
                    } else if (i as int) > first_dot(rest) {
                        assert(all[pos + first_dot(rest)] != 46u8);
                        assert(all[pos + first_dot(rest)] == rest[first_dot(rest)]);
                    }
                }
            }
            buf.push(i as u8);
            let mut k: usize = 0;
            while k < i
                invariant
                    all == b@,
                    all.len() <= usize::MAX,
                    pos + i <= all.len(),
                    buf@ == before + seq![i as u8] + all.subrange(pos as int, pos + k),
                    k <= i,
                decreases i - k,
            {
                buf.push(b[pos + k]);
                assert(all.subrange(pos as int, pos + k + 1) =~= all.subrange(pos as int, pos + k).push(
                    all[pos + k],
                ));
                k = k + 1;
            }
            assert(all.subrange(pos as int, pos + i) =~= rest.subrange(0, i as int));
            assert(1 <= i <= 63);
            if pos + i >= b.len() {
                buf.push(0u8);
                assert(name_wire(rest) == seq![i as u8] + rest.subrange(0, i as int) + seq![0u8]);
                assert(buf@ =~= before + name_wire(rest));
                return;
            }
            assert(name_wire(rest) == seq![i as u8] + rest.subrange(0, i as int) + name_wire(
                rest.subrange(i + 1, rest.len() as int),
            ));
            assert(rest.subrange(i + 1, rest.len() as int) =~= all.subrange(pos + i + 1, all.len() as int));
            pos = pos + i + 1;
        }
    }
}

pub open spec fn question_wire(q: QuestionV) -> Seq<u8> {
    name_wire(q.name) + be16(q.kind) + be16(q.class)
}

impl Question {
    /// Appends the wire form of the question.
    pub fn encode(&self, buf: &mut Vec<u8>)
        requires
            encodable(self.name@),
        ensures
            final(buf)@ == old(buf)@ + question_wire(self@),
    {
        self.name.encode(buf);
        put_u16(buf, self.kind);
        put_u16(buf, self.class);
        assert(buf@ =~= old(buf)@ + question_wire(self@));
    }
}

pub open spec fn soa_wire(v: SoaV) -> Seq<u8> {
    name_wire(v.primary_name) + name_wire(v.responsible_name) + be32(v.serial) + be32(
        v.refresh_secs,
    ) + be32(v.retry_secs) + be32(v.expire_secs) + be32(v.min_ttl_secs)
}

pub open spec fn data_wire(d: RRDataV) -> Seq<u8> {
    match d {
        RRDataV::Name(n) => name_wire(n),
        RRDataV::Ipv4Addr(a) => be32(a),
        RRDataV::Ipv6Addr(a) => be128(a),
        RRDataV::Soa(v) => soa_wire(v),
        RRDataV::Unknown => Seq::empty(),
    }
}

/// Data that has a wire form: not `Unknown`, with encodable names.
pub open spec fn data_encodable(d: RRDataV) -> bool {
    match d {
        RRDataV::Name(n) => encodable(n),
        RRDataV::Soa(v) => encodable(v.primary_name) && encodable(v.responsible_name),
        RRDataV::Unknown => false,
        _ => true,
    }
}

pub open spec fn rr_encodable(r: RecordV) -> bool {
    encodable(r.name) && data_encodable(r.data) && data_wire(r.data).len() <= 65535
}

pub open spec fn rr_wire(r: RecordV) -> Seq<u8> {
    name_wire(r.name) + be16(r.kind) + be16(r.class) + be32(r.ttl_secs) + be16(
        data_wire(r.data).len() as u16,
    ) + data_wire(r.data)
}

pub open spec fn rrs_wire(rs: Seq<RecordV>) -> Seq<u8>
    decreases rs.len(),
{
    if rs.len() == 0 {
        Seq::empty()
    } else {
        rrs_wire(rs.drop_last()) + rr_wire(rs.last())
    }
}

impl Soa {
    pub fn encode(&self, buf: &mut Vec<u8>)
        requires
            encodable(self.primary_name@),
            encodable(self.responsible_name@),
        ensures
            final(buf)@ == old(buf)@ + soa_wire(self@),
    {
        self.primary_name.encode(buf);
        self.responsible_name.encode(buf);
        put_u32(buf, self.serial);
        put_u32(buf, self.refresh_secs);
        put_u32(buf, self.retry_secs);
        put_u32(buf, self.expire_secs);
        put_u32(buf, self.min_ttl_secs);
        assert(buf@ =~= old(buf)@ + soa_wire(self@));
    }
}

impl RRData {
    /// Appends the wire form of the data.
    pub fn encode(&self, buf: &mut Vec<u8>)
        requires
            data_encodable(self@),
        ensures
            final(buf)@ == old(buf)@ + data_wire(self@),
    {
        match self {
            RRData::Name(v) => v.encode(buf),
            RRData::Ipv4Addr(v) => put_u32(buf, *v),
            RRData::Ipv6Addr(v) => put_u128(buf, *v),
            RRData::Soa(v) => v.encode(buf),
            RRData::Unknown => {},
        }
    }
}

impl ResourceRecord {
    /// Appends the wire form of the record.
    pub fn encode(&self, buf: &mut Vec<u8>)
        requires
            rr_encodable(self@),
        ensures
            final(buf)@ == old(buf)@ + rr_wire(self@),
    {
        self.name.encode(buf);
        put_u16(buf, self.kind);
        put_u16(buf, self.class);
        put_u32(buf, self.ttl_secs);
        let mut data: Vec<u8> = Vec::new();
        self.data.encode(&mut data);
        assert(data@ =~= data_wire(self.data@));
        put_u16(buf, data.len() as u16);
        append_bytes(buf, &data);
        assert(buf@ =~= old(buf)@ + rr_wire(self@));
    }
}

fn encode_records(rs: &Vec<ResourceRecord>, buf: &mut Vec<u8>)
    requires
        forall|i: int| 0 <= i < rs@.len() ==> rr_encodable(#[trigger] rs@[i]@),
    ensures
        final(buf)@ == old(buf)@ + rrs_wire(records_view(rs@)),
{
    let ghost all = records_view(rs@);
    let mut i: usize = 0;
    assert(all.subrange(0, 0) =~= Seq::<RecordV>::empty());
    while i < rs.len()
        invariant
            i <= rs@.len(),
            all == records_view(rs@),
            forall|j: int| 0 <= j < rs@.len() ==> rr_encodable(#[trigger] rs@[j]@),
            buf@ == old(buf)@ + rrs_wire(all.subrange(0, i as int)),
        decreases rs@.len() - i,
    {
        rs[i].encode(buf);
        assert(all.subrange(0, i + 1).drop_last() =~= all.subrange(0, i as int));
        assert(buf@ =~= old(buf)@ + rrs_wire(all.subrange(0, i + 1)));
        i = i + 1;
    }
    assert(all.subrange(0, i as int) =~= all);
}

/// The header flags of a packet.
pub open spec fn flags_of(p: Packet) -> int {
    (if p.kind == PacketKind::Response {
        32768int
    } else {
        0int
    }) + p.op_kind * 2048 + (if p.authoritative {
        1024int
    } else {
        0int
    }) + (if p.truncated {
        512int
    } else {
        0int
    }) + (if p.recursion_desired {
        256int
    } else {
        0int
    }) + (if p.recursion_available {
        128int
    } else {
        0int
    }) + p.response_code
}

/// A packet that has a wire form.
pub open spec fn packet_encodable(p: Packet) -> bool {
    &&& p.op_kind < 16
    &&& p.response_code < 16
    &&& encodable(p.question.name@)
    &&& p.answers@.len() <= 65535 && p.authorities@.len() <= 65535 && p.additional_rrs@.len()
        <= 65535
    &&& forall|i: int| 0 <= i < p.answers@.len() ==> rr_encodable(#[trigger] p.answers@[i]@)
    &&& forall|i: int| 0 <= i < p.authorities@.len() ==> rr_encodable(#[trigger] p.authorities@[i]@)
    &&& forall|i: int|
        0 <= i < p.additional_rrs@.len() ==> rr_encodable(#[trigger] p.additional_rrs@[i]@)
}

pub open spec fn packet_wire(p: Packet) -> Seq<u8> {
    be16(p.id) + be16(flags_of(p) as u16) + be16(1) + be16(p.answers@.len() as u16) + be16(
        p.authorities@.len() as u16,
    ) + be16(p.additional_rrs@.len() as u16) + question_wire(p.question@) + rrs_wire(
        records_view(p.answers@),
    ) + rrs_wire(records_view(p.authorities@)) + rrs_wire(records_view(p.additional_rrs@))
}

pub open spec fn header_wire(p: Packet) -> Seq<u8> {
    be16(p.id) + be16(flags_of(p) as u16) + be16(1) + be16(p.answers@.len() as u16) + be16(
        p.authorities@.len() as u16,
    ) + be16(p.additional_rrs@.len() as u16)
}

impl Packet {
    fn flags(&self) -> (r: u16)
        requires
            self.op_kind < 16,
            self.response_code < 16,
        ensures
            r as int == flags_of(*self),
    {
        let mut flags: u16 = 0;
        if self.kind == PacketKind::Response {
            flags = flags + 32768;
        }
        flags = flags + self.op_kind as u16 * 2048;
        if self.authoritative {
            flags = flags + 1024;
        }
        if self.truncated {
            flags = flags + 512;
        }
        if self.recursion_desired {
            flags = flags + 256;
        }
        if self.recursion_available {
            flags = flags + 128;
        }
        flags + self.response_code as u16
    }

    fn encode_header(&self, buf: &mut Vec<u8>)
        requires
            self.op_kind < 16,
            self.response_code < 16,
            self.answers@.len() <= 65535 && self.authorities@.len() <= 65535
                && self.additional_rrs@.len() <= 65535,
        ensures
            final(buf)@ == old(buf)@ + header_wire(*self),
    {
        put_u16(buf, self.id);
        let flags = self.flags();
        put_u16(buf, flags);
        put_u16(buf, 1);
        put_u16(buf, self.answers.len() as u16);
        put_u16(buf, self.authorities.len() as u16);
        put_u16(buf, self.additional_rrs.len() as u16);
        assert(buf@ =~= old(buf)@ + header_wire(*self));
    }

    /// Appends the wire form of the packet (one question, no name compression).
    pub fn encode(&self, buf: &mut Vec<u8>)
        requires
            packet_encodable(*self),
        ensures
            final(buf)@ == old(buf)@ + packet_wire(*self),
    {
        let ghost b0 = buf@;
        self.encode_header(buf);
        let ghost b1 = buf@;
        self.question.encode(buf);
        let ghost b2 = buf@;
        encode_records(&self.answers, buf);
        let ghost b3 = buf@;
        encode_records(&self.authorities, buf);
        let ghost b4 = buf@;
        encode_records(&self.additional_rrs, buf);
        proof {
            let h = header_wire(*self);
            let q = question_wire(self.question@);
            let x = rrs_wire(records_view(self.answers@));
            let y = rrs_wire(records_view(self.authorities@));
            let z = rrs_wire(records_view(self.additional_rrs@));
            assert(packet_wire(*self) =~= h + q + x + y + z);
            assert(buf@ =~= b0 + (h + q + x + y + z));
        }
    }
}

pub proof fn lemma_name_wire_len(n: Seq<u8>)
    requires
        encodable(n),
    ensures
        name_wire(n).len() == if n.len() == 0 {
            1
        } else {
            n.len() + 2
        },
    decreases n.len(),
{
    if n.len() > 0 {
        let i = first_dot(n);
        lemma_first_dot(n);
        if i < n.len() {
            lemma_name_wire_len(n.subrange(i + 1, n.len() as int));
        }
    }
}

impl Name {
    /// Whether the name has a wire form: labels of 1 to 63 bytes.
    pub fn is_encodable(&self) -> (r: bool)
        ensures
            r == encodable(self@),
    {
        let b = self.as_bytes();
        let ghost all = b@;
        if b.len() == 0 {
            return true;
        }
        let mut pos: usize = 0;
        assert(all.subrange(0, all.len() as int) =~= all);
        assert(all.len() == b.len());
        loop
            invariant
                all == b@,
                all == self@,
                all.len() <= usize::MAX,
                pos < all.len(),
                encodable(all) == encodable(all.subrange(pos as int, all.len() as int)),
            decreases all.len() - pos,
        {
            let ghost rest = all.subrange(pos as int, all.len() as int);
            proof {
                lemma_first_dot(rest);
            }
            let mut i: usize = 0;
            while pos + i < b.len() && b[pos + i] != 46u8
                invariant
                    all == b@,
                    all.len() <= usize::MAX,
                    pos < all.len(),
                    pos + i <= all.len(),
                    forall|j: int| pos <= j < pos + i ==> all[j] != 46u8,
                decreases all.len() - pos - i,
            {
                i = i + 1;
            }
            proof {
                assert(i as int == first_dot(rest)) by {
                    if (i as int) < first_dot(rest) {
                        assert(rest[i as int] != 46u8);
                        assert(all[pos + i] == rest[i as int]);
                    } else if (i as int) > first_dot(rest) {
                        assert(all[pos + first_dot(rest)] != 46u8);
                        assert(all[pos + first_dot(rest)] == rest[first_dot(rest)]);
                    }
                }
            }
            if i < 1 || i > 63 {
                return false;
            }
            if pos + i >= b.len() {
                return true;
            }
            if pos + i + 1 >= b.len() {
                return false;
            }
            assert(rest.subrange(i + 1, rest.len() as int) =~= all.subrange(pos + i + 1, all.len() as int));
            pos = pos + i + 1;
        }
    }
}

fn wire_len_of(n: &Name) -> (r: u128)
    requires
        encodable(n@),
    ensures
        r == name_wire(n@).len(),
{
    proof {
        lemma_name_wire_len(n@);
    }
    let len = n.as_bytes().len() as u128;
    if len == 0 {
        1
    } else {
        len + 2
    }
}

impl ResourceRecord {
    /// Whether the record has a wire form.
    pub fn is_encodable(&self) -> (r: bool)
        ensures
            r == rr_encodable(self@),
    {
        if !self.name.is_encodable() {
            return false;
        }
        let len: u128 = match &self.data {
            RRData::Name(n) => {
                if !n.is_encodable() {
                    return false;
                }
                wire_len_of(n)
            },
            RRData::Ipv4Addr(_) => 4,
            RRData::Ipv6Addr(_) => 16,
            RRData::Soa(v) => {
                if !v.primary_name.is_encodable() || !v.responsible_name.is_encodable() {
                    return false;
                }
                let a = wire_len_of(&v.primary_name);
                let b = wire_len_of(&v.responsible_name);
                if a > 65535 || b > 65535 {
                    return false;
                }
                a + b + 20
            },
            RRData::Unknown => {
                return false;
            },
        };
        len <= 65535
    }
}

impl Packet {
    /// Whether the packet has a wire form (what `encode` requires).
    pub fn is_encodable(&self) -> (r: bool)
        ensures
            r == packet_encodable(*self),
    {
        if self.op_kind >= 16 || self.response_code >= 16 || !self.question.name.is_encodable() {
            return false;
        }
        if self.answers.len() > 65535 || self.authorities.len() > 65535 || self.additional_rrs.len()
            > 65535 {
            return false;
        }
        all_encodable(&self.answers) && all_encodable(&self.authorities) && all_encodable(
            &self.additional_rrs,
        )
    }
}

fn all_encodable(rs: &Vec<ResourceRecord>) -> (r: bool)
    ensures
        r == forall|i: int| 0 <= i < rs@.len() ==> rr_encodable(#[trigger] rs@[i]@),
{
    let mut i: usize = 0;
    while i < rs.len()
        invariant
            i <= rs@.len(),
            forall|j: int| 0 <= j < i ==> rr_encodable(#[trigger] rs@[j]@),
        decreases rs@.len() - i,
    {
        if !rs[i].is_encodable() {
            return false;
        }
        i = i + 1;
    }
    true
}

// ---------------------------------------------------------------------------
// Decoding.

pub open spec fn get16(pkt: Seq<u8>, pos: int) -> Option<(u16, int)> {
    if 0 <= pos && pos + 2 <= pkt.len() {
        Some(((pkt[pos] * 256 + pkt[pos + 1]) as u16, pos + 2))
    } else {
        None
    }
}

pub open spec fn get32(pkt: Seq<u8>, pos: int) -> Option<(u32, int)> {
    match get16(pkt, pos) {
        Some((hi, p)) => match get16(pkt, p) {
            Some((lo, q)) => Some(((hi * 65536 + lo) as u32, q)),
            None => None,
        },
        None => None,
    }
}

pub open spec fn get64(pkt: Seq<u8>, pos: int) -> Option<(u64, int)> {
    match get32(pkt, pos) {
        Some((hi, p)) => match get32(pkt, p) {
            Some((lo, q)) => Some(((hi * 0x1_0000_0000 + lo) as u64, q)),
            None => None,
        },
        None => None,
    }
}

pub open spec fn get128(pkt: Seq<u8>, pos: int) -> Option<(u128, int)> {
    match get64(pkt, pos) {
        Some((hi, p)) => match get64(pkt, p) {
            Some((lo, q)) => Some(((hi * 0x1_0000_0000_0000_0000 + lo) as u128, q)),
            None => None,
        },
        None => None,
    }
}

pub fn get_u16(pkt: &[u8], cursor: &mut usize) -> (r: Result<u16, DecodeError>)
    ensures
        match get16(pkt@, *old(cursor) as int) {
            Some((v, e)) => r == Ok::<u16, DecodeError>(v) && *final(cursor) as int == e,
            None => r is Err,
        },
{
    if *cursor > pkt.len() || pkt.len() - *cursor < 2 {
        return Err(DecodeError);
    }
    let v = pkt[*cursor] as u16 * 256 + pkt[*cursor + 1] as u16;
    *cursor = *cursor + 2;
    Ok(v)
}

pub fn get_u32(pkt: &[u8], cursor: &mut usize) -> (r: Result<u32, DecodeError>)
    ensures
        match get32(pkt@, *old(cursor) as int) {
            Some((v, e)) => r == Ok::<u32, DecodeError>(v) && *final(cursor) as int == e,
            None => r is Err,
        },
{
    let hi = get_u16(pkt, cursor)?;
    let lo = get_u16(pkt, cursor)?;
    Ok(hi as u32 * 65536 + lo as u32)
}

pub fn get_u64(pkt: &[u8], cursor: &mut usize) -> (r: Result<u64, DecodeError>)
    ensures
        match get64(pkt@, *old(cursor) as int) {
            Some((v, e)) => r == Ok::<u64, DecodeError>(v) && *final(cursor) as int == e,
            None => r is Err,
        },
{
    let hi = get_u32(pkt, cursor)?;
    let lo = get_u32(pkt, cursor)?;
    Ok(hi as u64 * 0x1_0000_0000 + lo as u64)
}

pub fn get_u128(pkt: &[u8], cursor: &mut usize) -> (r: Result<u128, DecodeError>)
    ensures
        match get128(pkt@, *old(cursor) as int) {
            Some((v, e)) => r == Ok::<u128, DecodeError>(v) && *final(cursor) as int == e,
            None => r is Err,
        },
{
    let hi = get_u64(pkt, cursor)?;
    let lo = get_u64(pkt, cursor)?;
    Ok(hi as u128 * 0x1_0000_0000_0000_0000 + lo as u128)
}

pub open spec fn parse_question(pkt: Seq<u8>, pos: int) -> Option<(QuestionV, int)> {
    match parse_name(pkt, pos, MAX_HOPS as nat) {
        Some((name, p1)) => match get16(pkt, p1) {
            Some((kind, p2)) => match get16(pkt, p2) {
                Some((class, p3)) => Some((QuestionV { name, kind, class }, p3)),
                None => None,
            },
            None => None,
        },
        None => None,
    }
}

pub open spec fn parse_soa(pkt: Seq<u8>, pos: int) -> Option<(SoaV, int)> {
    match parse_name(pkt, pos, MAX_HOPS as nat) {
        Some((primary_name, p1)) => match parse_name(pkt, p1, MAX_HOPS as nat) {
            Some((responsible_name, p2)) => match get32(pkt, p2) {
                Some((serial, p3)) => match get32(pkt, p3) {
                    Some((refresh_secs, p4)) => match get32(pkt, p4) {
                        Some((retry_secs, p5)) => match get32(pkt, p5) {
                            Some((expire_secs, p6)) => match get32(pkt, p6) {
                                Some((min_ttl_secs, p7)) => Some(
                                    (
                                        SoaV {
                                            primary_name,
                                            responsible_name,
                                            serial,
                                            refresh_secs,
                                            retry_secs,
                                            expire_secs,
                                            min_ttl_secs,
                                        },
                                        p7,
                                    ),
                                ),
                                None => None,
                            },
                            None => None,
                        },
                        None => None,
                    },
                    None => None,
                },
                None => None,
            },
            None => None,
        },
        None => None,
    }
}

/// The data of a record of `kind` and `class` at `pos`, whose data length is `len`.
pub open spec fn parse_data(pkt: Seq<u8>, pos: int, kind: u16, class: u16, len: int) -> Option<
    (RRDataV, int),
> {
    if kind == crate::dns::RRK_A && class == crate::dns::RRC_IN {
        match get32(pkt, pos) {
            Some((a, p)) => Some((RRDataV::Ipv4Addr(a), p)),
            None => None,
        }
    } else if kind == crate::dns::RRK_AAAA && class == crate::dns::RRC_IN {
        match get128(pkt, pos) {
            Some((a, p)) => Some((RRDataV::Ipv6Addr(a), p)),
            None => None,
        }
    } else if kind == crate::dns::RRK_CNAME && class == crate::dns::RRC_IN {
        match parse_name(pkt, pos, MAX_HOPS as nat) {
            Some((n, p)) => Some((RRDataV::Name(n), p)),
            None => None,
        }
    } else if kind == crate::dns::RRK_SOA && class == crate::dns::RRC_IN {
        match parse_soa(pkt, pos) {
            Some((v, p)) => Some((RRDataV::Soa(v), p)),
            None => None,
        }
    } else {
        Some((RRDataV::Unknown, pos + len))
    }
}

pub open spec fn parse_rr(pkt: Seq<u8>, pos: int) -> Option<(RecordV, int)> {
    match parse_name(pkt, pos, MAX_HOPS as nat) {
        Some((name, p1)) => match get16(pkt, p1) {
            Some((kind, p2)) => match get16(pkt, p2) {
                Some((class, p3)) => match get32(pkt, p3) {
                    Some((ttl_secs, p4)) => match get16(pkt, p4) {
                        Some((len, p5)) => if len > pkt.len() - p5 {
                            None
                        } else {
                            match parse_data(pkt, p5, kind, class, len as int) {
                                Some((data, p6)) => Some(
                                    (RecordV { name, kind, class, ttl_secs, data }, p6),
                                ),
                                None => None,
                            }
                        },
                        None => None,
                    },
                    None => None,
                },
                None => None,
            },
            None => None,
        },
        None => None,
    }
}

pub open spec fn parse_rrs(pkt: Seq<u8>, pos: int, n: nat) -> Option<(Seq<RecordV>, int)>
    decreases n,
{
    if n == 0 {
        Some((Seq::empty(), pos))
    } else {
        match parse_rrs(pkt, pos, (n - 1) as nat) {
            Some((rs, p)) => match parse_rr(pkt, p) {
                Some((r, q)) => Some((rs.push(r), q)),
                None => None,
            },
            None => None,
        }
    }
}

pub open spec fn skip_questions(pkt: Seq<u8>, pos: int, n: nat) -> Option<int>
    decreases n,
{
    if n == 0 {
        Some(pos)
    } else {
        match skip_questions(pkt, pos, (n - 1) as nat) {
            Some(p) => match parse_question(pkt, p) {
                Some((_, q)) => Some(q),
                None => None,
            },
            None => None,
        }
    }
}

impl Question {
    pub fn decode(pkt: &[u8], cursor: &mut usize) -> (r: Result<Question, DecodeError>)
        ensures
            match parse_question(pkt@, *old(cursor) as int) {
                Some((q, e)) => r is Ok && r.unwrap()@ == q && *final(cursor) as int == e,
                None => r is Err,
            },
    {
        let name = Name::decode(pkt, cursor)?;
        let kind = get_u16(pkt, cursor)?;
        let class = get_u16(pkt, cursor)?;
        Ok(Question { name, kind, class })
    }
}

impl Soa {
    pub fn decode(pkt: &[u8], cursor: &mut usize) -> (r: Result<Soa, DecodeError>)
        ensures
            match parse_soa(pkt@, *old(cursor) as int) {
                Some((v, e)) => r is Ok && r.unwrap()@ == v && *final(cursor) as int == e,
                None => r is Err,
            },
    {
        let primary_name = Name::decode(pkt, cursor)?;
        let responsible_name = Name::decode(pkt, cursor)?;
        let serial = get_u32(pkt, cursor)?;
        let refresh_secs = get_u32(pkt, cursor)?;
        let retry_secs = get_u32(pkt, cursor)?;
        let expire_secs = get_u32(pkt, cursor)?;
        let min_ttl_secs = get_u32(pkt, cursor)?;
        Ok(
            Soa {
                primary_name,
                responsible_name,
                serial,
                refresh_secs,
                retry_secs,
                expire_secs,
                min_ttl_secs,
            },
        )
    }
}

impl ResourceRecord {
    pub fn decode(pkt: &[u8], cursor: &mut usize) -> (r: Result<ResourceRecord, DecodeError>)
        ensures
            match parse_rr(pkt@, *old(cursor) as int) {
                Some((v, e)) => r is Ok && r.unwrap()@ == v && *final(cursor) as int == e,
                None => r is Err,
            },
    {
        let name = Name::decode(pkt, cursor)?;
        let kind = get_u16(pkt, cursor)?;
        let class = get_u16(pkt, cursor)?;
        let ttl_secs = get_u32(pkt, cursor)?;
        let data_len = get_u16(pkt, cursor)? as usize;
        if data_len > pkt.len() - *cursor {
            return Err(DecodeError);
        }
        let data = if kind == crate::dns::RRK_A && class == crate::dns::RRC_IN {
            RRData::Ipv4Addr(get_u32(pkt, cursor)?)
        } else if kind == crate::dns::RRK_AAAA && class == crate::dns::RRC_IN {
            RRData::Ipv6Addr(get_u128(pkt, cursor)?)
        } else if kind == crate::dns::RRK_CNAME && class == crate::dns::RRC_IN {
            RRData::Name(Name::decode(pkt, cursor)?)
        } else if kind == crate::dns::RRK_SOA && class == crate::dns::RRC_IN {
            RRData::Soa(Soa::decode(pkt, cursor)?)
        } else {
            *cursor = *cursor + data_len;
            RRData::Unknown
        };
        Ok(ResourceRecord { name, kind, class, ttl_secs, data })
    }
}

/// The bit of `flags` whose value is `d`.
pub open spec fn bit(flags: u16, d: int) -> bool {
    (flags as int / d) % 2 == 1
}

/// The packet the bytes hold: a 12-byte header, at least one question (the
/// first is kept), then the answer, authority and additional records.
pub open spec fn parse_packet(pkt: Seq<u8>) -> Option<PacketV> {
    if pkt.len() < HEADER_LEN {
        None
    } else {
        let id = get16(pkt, 0)->Some_0.0;
        let flags = get16(pkt, 2)->Some_0.0;
        let qd = get16(pkt, 4)->Some_0.0;
        let an = get16(pkt, 6)->Some_0.0;
        let ns = get16(pkt, 8)->Some_0.0;
        let ar = get16(pkt, 10)->Some_0.0;
        if qd == 0 {
            None
        } else {
            match parse_question(pkt, 12) {
                None => None,
                Some((question, p1)) => match skip_questions(pkt, p1, (qd - 1) as nat) {
                    None => None,
                    Some(p2) => match parse_rrs(pkt, p2, an as nat) {
                        None => None,
                        Some((answers, p3)) => match parse_rrs(pkt, p3, ns as nat) {
                            None => None,
                            Some((authorities, p4)) => match parse_rrs(pkt, p4, ar as nat) {
                                None => None,
                                Some((additional_rrs, _)) => Some(
                                    PacketV {
                                        id,
                                        kind: if bit(flags, 32768) {
                                            PacketKind::Response
                                        } else {
                                            PacketKind::Query
                                        },
                                        op_kind: ((flags / 2048) % 16) as u8,
                                        authoritative: bit(flags, 1024),
                                        truncated: bit(flags, 512),
                                        recursion_desired: bit(flags, 256),
                                        recursion_available: bit(flags, 128),
                                        response_code: (flags % 16) as u8,
                                        question,
                                        answers,
                                        authorities,
                                        additional_rrs,
                                    },
                                ),
                            },
                        },
                    },
                },
            }
        }
    }
}

fn decode_records(pkt: &[u8], cursor: &mut usize, n: u16) -> (r: Result<Vec<ResourceRecord>, DecodeError>)
    ensures
        match parse_rrs(pkt@, *old(cursor) as int, n as nat) {
            Some((rs, e)) => r is Ok && records_view(r.unwrap()@) == rs && *final(cursor) as int == e,
            None => r is Err,
        },
{
    let ghost start = *cursor as int;
    let mut out: Vec<ResourceRecord> = Vec::new();
    let mut i: u16 = 0;
    assert(records_view(out@) =~= Seq::<RecordV>::empty());
    while i < n
        invariant
            i <= n,
            start == *old(cursor) as int,
            parse_rrs(pkt@, start, i as nat) == Some((records_view(out@), *cursor as int)),
        decreases n - i,
    {
        let ghost before = records_view(out@);
        let rr = ResourceRecord::decode(pkt, cursor);
        match rr {
            Ok(rr) => {
                let ghost v = rr@;
                out.push(rr);
                assert(records_view(out@) =~= before.push(v));
            },
            Err(e) => {
                proof {
                    lemma_parse_rrs_fails_on(pkt@, start, i as nat, n as nat);
                }
                return Err(e);
            },
        }
        i = i + 1;
    }
    Ok(out)
}

/// Once reading a record fails, reading more of them fails too.
proof fn lemma_parse_rrs_fails_on(pkt: Seq<u8>, pos: int, i: nat, n: nat)
    requires
        i < n,
        parse_rrs(pkt, pos, i) is Some,
        parse_rr(pkt, parse_rrs(pkt, pos, i)->Some_0.1) is None,
    ensures
        parse_rrs(pkt, pos, n) is None,
    decreases n - i,
{
    if n > i + 1 {
        lemma_parse_rrs_fails_on(pkt, pos, i, (n - 1) as nat);
    }
}

/// Once reading a question fails, skipping more of them fails too.
proof fn lemma_skip_fails_on(pkt: Seq<u8>, pos: int, i: nat, n: nat)
    requires
        i < n,
        skip_questions(pkt, pos, i) is Some,
        parse_question(pkt, skip_questions(pkt, pos, i)->Some_0) is None,
    ensures
        skip_questions(pkt, pos, n) is None,
    decreases n - i,
{
    if n > i + 1 {
        lemma_skip_fails_on(pkt, pos, i, (n - 1) as nat);
    }
}

fn skip_more_questions(pkt: &[u8], cursor: &mut usize, n: u16) -> (r: Result<(), DecodeError>)
    ensures
        match skip_questions(pkt@, *old(cursor) as int, n as nat) {
            Some(e) => r is Ok && *final(cursor) as int == e,
            None => r is Err,
        },
{
    let ghost p1 = *cursor as int;
    let mut k: u16 = 0;
    while k < n
        invariant
            k <= n,
            p1 == *old(cursor) as int,
            skip_questions(pkt@, p1, k as nat) == Some(*cursor as int),
        decreases n - k,
    {
        match Question::decode(pkt, cursor) {
            Ok(_) => {},
            Err(e) => {
                proof {
                    lemma_skip_fails_on(pkt@, p1, k as nat, n as nat);
                }
                return Err(e);
            },
        }
        k = k + 1;
    }
    Ok(())
}

impl Packet {
    /// Reads a whole packet; questions after the first are read and dropped.
    pub fn decode(pkt: &[u8]) -> (r: Result<Packet, DecodeError>)
        ensures
            match parse_packet(pkt@) {
                Some(v) => r is Ok && r.unwrap()@ == v,
                None => r is Err,
            },
    {
        if pkt.len() < HEADER_LEN {
            return Err(DecodeError);
        }
        let mut cursor: usize = 0;
        let id = get_u16(pkt, &mut cursor)?;
        let flags = get_u16(pkt, &mut cursor)?;
        let question_count = get_u16(pkt, &mut cursor)?;
        let answer_count = get_u16(pkt, &mut cursor)?;
        let authority_count = get_u16(pkt, &mut cursor)?;
        let additional_rr_count = get_u16(pkt, &mut cursor)?;
        if question_count == 0 {
            return Err(DecodeError);
        }
        let question = Question::decode(pkt, &mut cursor)?;
        skip_more_questions(pkt, &mut cursor, question_count - 1)?;
        let answers = decode_records(pkt, &mut cursor, answer_count)?;
        let authorities = decode_records(pkt, &mut cursor, authority_count)?;
        let additional_rrs = decode_records(pkt, &mut cursor, additional_rr_count)?;
        Ok(
            Packet {
                id,
                kind: if (flags / 32768) % 2 == 1 {
                    PacketKind::Response
                } else {
                    PacketKind::Query
                },
                op_kind: ((flags / 2048) % 16) as u8,
                authoritative: (flags / 1024) % 2 == 1,
                truncated: (flags / 512) % 2 == 1,
                recursion_desired: (flags / 256) % 2 == 1,
                recursion_available: (flags / 128) % 2 == 1,
                response_code: (flags % 16) as u8,
                question,
                answers,
                authorities,
                additional_rrs,
            },
        )
    }
}

// ---------------------------------------------------------------------------
// Names written as text.

/// Text that names a domain: `.` for the root, or letters, digits, `-` and
/// dots, neither starting with a dot nor holding two dots in a row.
pub open spec fn name_text(b: Seq<u8>) -> bool {
    b == seq![46u8] || {
        &&& b.len() > 0
        &&& forall|i: int| 0 <= i < b.len() ==> (label_char(#[trigger] b[i]) || b[i] == 46u8)
        &&& b[0] != 46u8
        &&& forall|i: int| 0 <= i < b.len() - 1 && #[trigger] b[i] == 46u8 ==> b[i + 1] != 46u8
    }
}

impl Name {
    /// Reads a name written as text, lower-casing it.
    pub fn parse(s: &str) -> (r: Result<Name, ParseNameErr>)
        ensures
            r is Ok == name_text(s.spec_bytes()),
            r is Ok ==> r.unwrap()@ == (if s.spec_bytes() == seq![46u8] {
                Seq::<u8>::empty()
            } else {
                lower_all(s.spec_bytes())
            }),
    {
        let b = s.as_bytes();
        let ghost all = b@;
        if b.len() == 1 && b[0] == 46u8 {
            assert(all =~= seq![46u8]);
            return Ok(Name::root());
        }
        if b.len() == 0 {
            return Err(ParseNameErr);
        }
        let mut out: Vec<u8> = Vec::new();
        let mut prev_is_sep = true;
        let mut i: usize = 0;
        while i < b.len()
            invariant
                all == b@,
                all == s.spec_bytes(),
                all != seq![46u8],
                all.len() > 0,
                i <= all.len(),
                out@ == lower_all(all.subrange(0, i as int)),
                forall|j: int| 0 <= j < i ==> (label_char(#[trigger] all[j]) || all[j] == 46u8),
                i == 0 ==> prev_is_sep,
                i > 0 ==> prev_is_sep == (all[i - 1] == 46u8),
                i > 0 ==> all[0] != 46u8,
                forall|j: int| 0 <= j < i - 1 && #[trigger] all[j] == 46u8 ==> all[j + 1] != 46u8,
            decreases all.len() - i,
        {
            let c = b[i];
            if c == 46u8 {
                if prev_is_sep {
                    proof {
                        if i > 0 {
                            let j = i - 1;
                            assert(0 <= j < all.len() - 1 && all[j] == 46u8 && all[j + 1] == 46u8);
                        } else {
                            assert(all[0] == 46u8);
                        }
                    }
                    return Err(ParseNameErr);
                }
                prev_is_sep = true;
            } else if Name::is_valid_label_char(c) {
                prev_is_sep = false;
            } else {
                assert(!(label_char(all[i as int]) || all[i as int] == 46u8));
                return Err(ParseNameErr);
            }
            let l = if 65 <= c && c <= 90 {
                c + 32
            } else {
                c
            };
            out.push(l);
            assert(lower_all(all.subrange(0, i + 1)) =~= lower_all(all.subrange(0, i as int)).push(
                lower(c),
            ));
            i = i + 1;
        }
        assert(all.subrange(0, i as int) =~= all);
        Ok(Name::from_bytes(out))
    }
}

impl std::str::FromStr for Name {
    type Err = ParseNameErr;

    fn from_str(s: &str) -> Result<Name, ParseNameErr> {
        Name::parse(s)
    }
}

} // verus!
