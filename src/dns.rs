//! DNS value model: names, record kinds and classes, records and packets.

use vstd::prelude::*;

verus! {

pub type ResponseCode = u8;

pub const RCODE_NO_ERROR: ResponseCode = 0;
pub const RCODE_FORMAT_ERROR: ResponseCode = 1;
pub const RCODE_SERVER_FAILURE: ResponseCode = 2;
pub const RCODE_NX_DOMAIN: ResponseCode = 3;
pub const RCODE_NOT_IMPLEMENTED: ResponseCode = 4;
pub const RCODE_REFUSED: ResponseCode = 5;

pub type RRKind = u16;

pub const RRK_A: RRKind = 1;
pub const RRK_NS: RRKind = 2;
pub const RRK_CNAME: RRKind = 5;
pub const RRK_SOA: RRKind = 6;
pub const RRK_NULL: RRKind = 10;
pub const RRK_PTR: RRKind = 12;
pub const RRK_MX: RRKind = 15;
pub const RRK_TXT: RRKind = 16;
pub const RRK_AAAA: RRKind = 28;

pub type RRClass = u16;

pub const RRC_IN: RRClass = 1;
pub const RRC_CS: RRClass = 2;
pub const RRC_CH: RRClass = 3;
pub const RRC_HS: RRClass = 4;

pub type OpKind = u8;

pub const OP_QUERY: OpKind = 0;
pub const OP_IQUERY: OpKind = 1;
pub const OP_STATUS: OpKind = 2;
pub const OP_UPDATE: OpKind = 5;

/// A canonical lowercase domain name, held as its dotted ASCII text.
/// The root name is the empty byte string.
#[derive(Clone, Debug, PartialEq, Eq, Hash)]
pub struct Name(Vec<u8>);

impl View for Name {
    type V = Seq<u8>;

    closed spec fn view(&self) -> Seq<u8> {
        self.0@
    }
}

/// The name with its leftmost label stripped; the root is its own parent.
pub open spec fn parent_of(n: Seq<u8>) -> Seq<u8>
    decreases n.len(),
{
    if n.len() == 0 {
        n
    } else if n[0] == 46u8 {
        n.drop_first()
    } else {
        parent_of(n.drop_first())
    }
}

impl Name {
    /// Wraps bytes that are already a name's dotted text.
    pub fn from_bytes(b: Vec<u8>) -> (r: Name)
        ensures
            r@ == b@,
    {
        Name(b)
    }

    /// The dotted text of the name.
    pub fn as_bytes(&self) -> (r: &Vec<u8>)
        ensures
            r@ == self@,
    {
        &self.0
    }

    /// The root name.
    pub fn root() -> (r: Name)
        ensures
            r@ == Seq::<u8>::empty(),
    {
        Name(Vec::new())
    }

    /// The name as text: `.` for the root, else its dotted labels.
    pub fn to_text(&self) -> (r: String)
        ensures
            ascii_bytes(self@) ==> r@ == (if self@.len() == 0 {
                seq!['.']
            } else {
                ascii_chars(self@)
            }),
    {
        if self.0.len() == 0 {
            let mut dot: Vec<u8> = Vec::new();
            dot.push(46u8);
            let r = ascii_string(&dot);
            assert(ascii_chars(dot@) =~= seq!['.']);
            r
        } else {
            ascii_string(&self.0)
        }
    }

    pub fn is_root(&self) -> (r: bool)
        ensures
            r == (self@.len() == 0),
    {
        self.0.len() == 0
    }

    /// A copy of this name.
    pub fn copy(&self) -> (r: Name)
        ensures
            r@ == self@,
    {
        let c = self.0.clone();
        assert(c@ =~= self.0@);
        Name(c)
    }

    /// Byte-wise equality of two names.
    pub fn same(&self, other: &Name) -> (r: bool)
        ensures
            r == (self@ == other@),
    {
        bytes_equal(&self.0, &other.0)
    }

    /// The name with its leftmost label stripped (the root's parent is the root).
    pub fn parent(&self) -> (r: Name)
        ensures
            r@ == parent_of(self@),
    {
        let mut i: usize = 0;
        assert(self.0@.subrange(0, self.0@.len() as int) =~= self.0@);
        while i < self.0.len()
            invariant
                i <= self.0@.len(),
                forall|j: int| 0 <= j < i ==> self.0@[j] != 46u8,
                parent_of(self.0@) == parent_of(self.0@.subrange(i as int, self.0@.len() as int)),
            decreases self.0@.len() - i,
        {
            let ghost rest = self.0@.subrange(i as int, self.0@.len() as int);
            if self.0[i] == 46u8 {
                let mut out: Vec<u8> = Vec::new();
                let mut k: usize = i + 1;
                while k < self.0.len()
                    invariant
                        i < k <= self.0@.len(),
                        out@ == self.0@.subrange(i + 1, k as int),
                    decreases self.0@.len() - k,
                {
                    out.push(self.0[k]);
                    k = k + 1;
                    assert(out@ =~= self.0@.subrange(i + 1, k as int));
                }
                assert(rest.drop_first() =~= out@);
                return Name(out);
            }
            assert(rest.drop_first() =~= self.0@.subrange(i + 1, self.0@.len() as int));
            i = i + 1;
        }
        assert(self.0@.subrange(i as int, self.0@.len() as int) =~= Seq::<u8>::empty());
        Name(Vec::new())
    }
}

pub open spec fn ascii_bytes(b: Seq<u8>) -> bool {
    forall|i: int| 0 <= i < b.len() ==> b[i] < 128
}

pub open spec fn ascii_chars(b: Seq<u8>) -> Seq<char> {
    b.map_values(|c: u8| c as char)
}

/// Relies on `String::from_utf8`: ASCII bytes are valid UTF-8, one character each.
#[verifier::external_body]
fn ascii_string(b: &Vec<u8>) -> (r: String)
    ensures
        ascii_bytes(b@) ==> r@ == ascii_chars(b@),
{
    String::from_utf8(b.clone()).unwrap_or_default()
}

/// Byte-wise equality of two byte vectors.
pub fn bytes_equal(a: &Vec<u8>, b: &Vec<u8>) -> (r: bool)
    ensures
        r == (a@ == b@),
{
    if a.len() != b.len() {
        return false;
    }
    let mut i: usize = 0;
    while i < a.len()
        invariant
            i <= a@.len(),
            a@.len() == b@.len(),
            forall|j: int| 0 <= j < i ==> a@[j] == b@[j],
        decreases a@.len() - i,
    {
        if a[i] != b[i] {
            return false;
        }
        i = i + 1;
    }
    assert(a@ =~= b@);
    true
}

/// Strict lexicographic order on byte strings.
pub open spec fn bytes_lt(a: Seq<u8>, b: Seq<u8>) -> bool
    decreases a.len(),
{
    if b.len() == 0 {
        false
    } else if a.len() == 0 {
        true
    } else if a[0] != b[0] {
        a[0] < b[0]
    } else {
        bytes_lt(a.drop_first(), b.drop_first())
    }
}

/// Decides `bytes_lt`.
pub fn bytes_less(a: &Vec<u8>, b: &Vec<u8>) -> (r: bool)
    ensures
        r == bytes_lt(a@, b@),
{
    let mut i: usize = 0;
    assert(a@.subrange(0, a@.len() as int) =~= a@);
    assert(b@.subrange(0, b@.len() as int) =~= b@);
    assert(a@.subrange(0, 0) =~= b@.subrange(0, 0));
    while i < a.len() && i < b.len()
        invariant
            i <= a@.len(),
            i <= b@.len(),
            a@.subrange(0, i as int) == b@.subrange(0, i as int),
            bytes_lt(a@, b@) == bytes_lt(
                a@.subrange(i as int, a@.len() as int),
                b@.subrange(i as int, b@.len() as int),
            ),
        decreases a@.len() - i,
    {
        let ghost ra = a@.subrange(i as int, a@.len() as int);
        let ghost rb = b@.subrange(i as int, b@.len() as int);
        if a[i] != b[i] {
            return a[i] < b[i];
        }
        assert(ra.drop_first() =~= a@.subrange(i + 1, a@.len() as int));
        assert(rb.drop_first() =~= b@.subrange(i + 1, b@.len() as int));
        assert(a@.subrange(0, i + 1) =~= b@.subrange(0, i + 1)) by {
            assert(a@.subrange(0, i + 1) =~= a@.subrange(0, i as int).push(a@[i as int]));
            assert(b@.subrange(0, i + 1) =~= b@.subrange(0, i as int).push(b@[i as int]));
        }
        i = i + 1;
    }
    i < b.len()
}

pub proof fn lemma_bytes_lt_irreflexive(a: Seq<u8>)
    ensures
        !bytes_lt(a, a),
    decreases a.len(),
{
    if a.len() > 0 {
        lemma_bytes_lt_irreflexive(a.drop_first());
    }
}

pub proof fn lemma_bytes_lt_total(a: Seq<u8>, b: Seq<u8>)
    ensures
        a == b || bytes_lt(a, b) || bytes_lt(b, a),
    decreases a.len(),
{
    if a.len() > 0 && b.len() > 0 && a[0] == b[0] {
        lemma_bytes_lt_total(a.drop_first(), b.drop_first());
        if a.drop_first() == b.drop_first() {
            assert(a =~= seq![a[0]] + a.drop_first());
            assert(b =~= seq![b[0]] + b.drop_first());
        }
    } else if a.len() == 0 && b.len() == 0 {
        assert(a =~= b);
    }
}

pub proof fn lemma_bytes_lt_asymmetric(a: Seq<u8>, b: Seq<u8>)
    ensures
        !(bytes_lt(a, b) && bytes_lt(b, a)),
    decreases a.len(),
{
    if a.len() > 0 && b.len() > 0 && a[0] == b[0] {
        lemma_bytes_lt_asymmetric(a.drop_first(), b.drop_first());
    }
}

pub proof fn lemma_bytes_lt_transitive(a: Seq<u8>, b: Seq<u8>, c: Seq<u8>)
    requires
        bytes_lt(a, b),
        bytes_lt(b, c),
    ensures
        bytes_lt(a, c),
    decreases a.len(),
{
    if a.len() > 0 && b.len() > 0 && c.len() > 0 && a[0] == b[0] && b[0] == c[0] {
        lemma_bytes_lt_transitive(a.drop_first(), b.drop_first(), c.drop_first());
    }
}


/// The value of a Start-of-Authority record.
#[derive(Clone, Debug, PartialEq, Eq, Hash)]
pub struct Soa {
    pub primary_name: Name,
    pub responsible_name: Name,
    pub serial: u32,
    pub refresh_secs: u32,
    pub retry_secs: u32,
    pub expire_secs: u32,
    pub min_ttl_secs: u32,
}

pub struct SoaV {
    pub primary_name: Seq<u8>,
    pub responsible_name: Seq<u8>,
    pub serial: u32,
    pub refresh_secs: u32,
    pub retry_secs: u32,
    pub expire_secs: u32,
    pub min_ttl_secs: u32,
}

impl View for Soa {
    type V = SoaV;

    open spec fn view(&self) -> SoaV {
        SoaV {
            primary_name: self.primary_name@,
            responsible_name: self.responsible_name@,
            serial: self.serial,
            refresh_secs: self.refresh_secs,
            retry_secs: self.retry_secs,
            expire_secs: self.expire_secs,
            min_ttl_secs: self.min_ttl_secs,
        }
    }
}

impl Soa {
    pub fn copy(&self) -> (r: Soa)
        ensures
            r@ == self@,
    {
        Soa {
            primary_name: self.primary_name.copy(),
            responsible_name: self.responsible_name.copy(),
            serial: self.serial,
            refresh_secs: self.refresh_secs,
            retry_secs: self.retry_secs,
            expire_secs: self.expire_secs,
            min_ttl_secs: self.min_ttl_secs,
        }
    }
}

/// The data of a resource record. Addresses are held as big-endian integers
/// (`1.2.3.4` is `0x01020304`).
#[derive(Clone, Debug, PartialEq, Eq, Hash)]
pub enum RRData {
    Name(Name),
    Ipv4Addr(u32),
    Ipv6Addr(u128),
    Soa(Soa),
    Unknown,
}

pub enum RRDataV {
    Name(Seq<u8>),
    Ipv4Addr(u32),
    Ipv6Addr(u128),
    Soa(SoaV),
    Unknown,
}

impl View for RRData {
    type V = RRDataV;

    open spec fn view(&self) -> RRDataV {
        match self {
            RRData::Name(n) => RRDataV::Name(n@),
            RRData::Ipv4Addr(a) => RRDataV::Ipv4Addr(*a),
            RRData::Ipv6Addr(a) => RRDataV::Ipv6Addr(*a),
            RRData::Soa(s) => RRDataV::Soa(s@),
            RRData::Unknown => RRDataV::Unknown,
        }
    }
}

impl RRData {
    pub fn copy(&self) -> (r: RRData)
        ensures
            r@ == self@,
    {
        match self {
            RRData::Name(n) => RRData::Name(n.copy()),
            RRData::Ipv4Addr(a) => RRData::Ipv4Addr(*a),
            RRData::Ipv6Addr(a) => RRData::Ipv6Addr(*a),
            RRData::Soa(s) => RRData::Soa(s.copy()),
            RRData::Unknown => RRData::Unknown,
        }
    }

    pub fn is_unknown(&self) -> (r: bool)
        ensures
            r == (self@ is Unknown),
    {
        match self {
            RRData::Unknown => true,
            _ => false,
        }
    }

    /// The name this record points to, if it holds one.
    pub fn as_name(&self) -> (r: Option<&Name>)
        ensures
            match self@ {
                RRDataV::Name(n) => r.is_some() && r.unwrap()@ == n,
                _ => r.is_none(),
            },
    {
        match self {
            RRData::Name(n) => Some(n),
            _ => None,
        }
    }

    /// The SOA value, if this record holds one.
    pub fn as_soa(&self) -> (r: Option<&Soa>)
        ensures
            match self@ {
                RRDataV::Soa(s) => r.is_some() && r.unwrap()@ == s,
                _ => r.is_none(),
            },
    {
        match self {
            RRData::Soa(s) => Some(s),
            _ => None,
        }
    }
}

/// One resource record.
#[derive(Clone, Debug, PartialEq, Eq, Hash)]
pub struct ResourceRecord {
    pub name: Name,
    pub kind: RRKind,
    pub class: RRClass,
    pub ttl_secs: u32,
    pub data: RRData,
}

pub struct RecordV {
    pub name: Seq<u8>,
    pub kind: RRKind,
    pub class: RRClass,
    pub ttl_secs: u32,
    pub data: RRDataV,
}

impl View for ResourceRecord {
    type V = RecordV;

    open spec fn view(&self) -> RecordV {
        RecordV {
            name: self.name@,
            kind: self.kind,
            class: self.class,
            ttl_secs: self.ttl_secs,
            data: self.data@,
        }
    }
}

/// Text that is not a domain name.
#[derive(Clone, Copy, Debug, PartialEq, Eq, Structural)]
pub struct ParseNameErr;

/// A record whose data was decoded.
pub open spec fn record_known(r: RecordV) -> bool {
    !(r.data is Unknown)
}

/// The models of a sequence of records.
pub open spec fn records_view(v: Seq<ResourceRecord>) -> Seq<RecordV> {
    v.map_values(|r: ResourceRecord| r@)
}

impl ResourceRecord {
    /// The record's TTL as a duration.
    pub fn ttl(&self) -> (r: crate::time::Duration)
        ensures
            r.nanos == self.ttl_secs * crate::time::NANOS_PER_SEC,
    {
        crate::time::Duration::from_secs(self.ttl_secs as u64)
    }

    pub fn copy(&self) -> (r: ResourceRecord)
        ensures
            r@ == self@,
    {
        ResourceRecord {
            name: self.name.copy(),
            kind: self.kind,
            class: self.class,
            ttl_secs: self.ttl_secs,
            data: self.data.copy(),
        }
    }
}

/// The question of a packet: what is asked about.
#[derive(Clone, Debug, PartialEq, Eq, Hash)]
pub struct Question {
    pub name: Name,
    pub kind: RRKind,
    pub class: RRClass,
}

pub struct QuestionV {
    pub name: Seq<u8>,
    pub kind: RRKind,
    pub class: RRClass,
}

impl View for Question {
    type V = QuestionV;

    open spec fn view(&self) -> QuestionV {
        QuestionV { name: self.name@, kind: self.kind, class: self.class }
    }
}

impl Question {
    pub fn copy(&self) -> (r: Question)
        ensures
            r@ == self@,
    {
        Question { name: self.name.copy(), kind: self.kind, class: self.class }
    }

    pub fn same(&self, other: &Question) -> (r: bool)
        ensures
            r == (self@ == other@),
    {
        self.kind == other.kind && self.class == other.class && self.name.same(&other.name)
    }
}

#[derive(Clone, Copy, Debug, PartialEq, Eq, Structural)]
pub enum PacketKind {
    Query,
    Response,
}

/// A DNS message with its single question.
#[derive(Clone, Debug, PartialEq, Eq)]
pub struct Packet {
    pub id: u16,
    pub kind: PacketKind,
    pub op_kind: OpKind,
    pub authoritative: bool,
    pub truncated: bool,
    pub recursion_desired: bool,
    pub recursion_available: bool,
    pub response_code: ResponseCode,
    pub question: Question,
    pub answers: Vec<ResourceRecord>,
    pub authorities: Vec<ResourceRecord>,
    pub additional_rrs: Vec<ResourceRecord>,
}

pub struct PacketV {
    pub id: u16,
    pub kind: PacketKind,
    pub op_kind: OpKind,
    pub authoritative: bool,
    pub truncated: bool,
    pub recursion_desired: bool,
    pub recursion_available: bool,
    pub response_code: ResponseCode,
    pub question: QuestionV,
    pub answers: Seq<RecordV>,
    pub authorities: Seq<RecordV>,
    pub additional_rrs: Seq<RecordV>,
}

impl View for Packet {
    type V = PacketV;

    open spec fn view(&self) -> PacketV {
        PacketV {
            id: self.id,
            kind: self.kind,
            op_kind: self.op_kind,
            authoritative: self.authoritative,
            truncated: self.truncated,
            recursion_desired: self.recursion_desired,
            recursion_available: self.recursion_available,
            response_code: self.response_code,
            question: self.question@,
            answers: records_view(self.answers@),
            authorities: records_view(self.authorities@),
            additional_rrs: records_view(self.additional_rrs@),
        }
    }
}

impl Packet {
    pub fn new(id: u16, kind: PacketKind, op_kind: OpKind, question: Question) -> (r: Packet)
        ensures
            r.id == id,
            r.kind == kind,
            r.op_kind == op_kind,
            !r.authoritative,
            !r.truncated,
            !r.recursion_desired,
            !r.recursion_available,
            r.response_code == RCODE_NO_ERROR,
            r.question@ == question@,
            r.answers@.len() == 0,
            r.authorities@.len() == 0,
            r.additional_rrs@.len() == 0,
    {
        Packet {
            id,
            kind,
            op_kind,
            authoritative: false,
            truncated: false,
            recursion_desired: false,
            recursion_available: false,
            response_code: RCODE_NO_ERROR,
            question,
            answers: Vec::new(),
            authorities: Vec::new(),
            additional_rrs: Vec::new(),
        }
    }

    /// An empty response to this packet, with the given response code.
    pub fn to_response_with_code(&self, response_code: ResponseCode) -> (r: Packet)
        ensures
            r.id == self.id,
            r.kind == PacketKind::Response,
            r.op_kind == self.op_kind,
            !r.authoritative,
            !r.truncated,
            !r.recursion_desired,
            !r.recursion_available,
            r.response_code == response_code,
            r.question@ == self.question@,
            r.answers@.len() == 0,
            r.authorities@.len() == 0,
            r.additional_rrs@.len() == 0,
    {
        let mut r = Packet::new(self.id, PacketKind::Response, self.op_kind, self.question.copy());
        r.response_code = response_code;
        r
    }

    /// An empty `NO_ERROR` response to this packet.
    pub fn to_response(&self) -> (r: Packet)
        ensures
            r.id == self.id,
            r.kind == PacketKind::Response,
            r.op_kind == self.op_kind,
            !r.authoritative,
            !r.truncated,
            !r.recursion_desired,
            !r.recursion_available,
            r.response_code == RCODE_NO_ERROR,
            r.question@ == self.question@,
            r.answers@.len() == 0,
            r.authorities@.len() == 0,
            r.additional_rrs@.len() == 0,
    {
        self.to_response_with_code(RCODE_NO_ERROR)
    }

    /// Drops the records whose data could not be decoded, from every section.
    pub fn remove_unknown_rrs(&mut self)
        ensures
            records_view(final(self).answers@) == records_view(old(self).answers@).filter(
    |r: RecordV| record_known(r)),
            records_view(final(self).authorities@) == records_view(old(self).authorities@).filter(
    |r: RecordV| record_known(r)),
            records_view(final(self).additional_rrs@) == records_view(
                old(self).additional_rrs@,
            ).filter(|r: RecordV| record_known(r)),
            final(self).id == old(self).id,
            final(self).kind == old(self).kind,
            final(self).op_kind == old(self).op_kind,
            final(self).authoritative == old(self).authoritative,
            final(self).truncated == old(self).truncated,
            final(self).recursion_desired == old(self).recursion_desired,
            final(self).recursion_available == old(self).recursion_available,
            final(self).response_code == old(self).response_code,
            final(self).question@ == old(self).question@,
    {
        let answers = known_records(&self.answers);
        let authorities = known_records(&self.authorities);
        let additional_rrs = known_records(&self.additional_rrs);
        self.answers = answers;
        self.authorities = authorities;
        self.additional_rrs = additional_rrs;
    }

    /// Every record of the packet: answers, then authorities, then additional records.
    pub fn resource_records(&self) -> (r: Vec<&ResourceRecord>)
        ensures
            r@.len() == self.answers@.len() + self.authorities@.len() + self.additional_rrs@.len(),
            forall|i: int|
                0 <= i < r@.len() ==> *r@[i] == (self.answers@ + self.authorities@
                    + self.additional_rrs@)[i],
    {
        let mut r: Vec<&ResourceRecord> = Vec::new();
        let ghost all = self.answers@ + self.authorities@ + self.additional_rrs@;
        let mut i: usize = 0;
        while i < self.answers.len()
            invariant
                i <= self.answers@.len(),
                all == self.answers@ + self.authorities@ + self.additional_rrs@,
                r@.len() == i,
                forall|j: int| 0 <= j < r@.len() ==> *r@[j] == all[j],
            decreases self.answers@.len() - i,
        {
            r.push(&self.answers[i]);
            i = i + 1;
        }
        let mut i: usize = 0;
        while i < self.authorities.len()
            invariant
                i <= self.authorities@.len(),
                all == self.answers@ + self.authorities@ + self.additional_rrs@,
                r@.len() == self.answers@.len() + i,
                forall|j: int| 0 <= j < r@.len() ==> *r@[j] == all[j],
            decreases self.authorities@.len() - i,
        {
            r.push(&self.authorities[i]);
            i = i + 1;
        }
        let mut i: usize = 0;
        while i < self.additional_rrs.len()
            invariant
                i <= self.additional_rrs@.len(),
                all == self.answers@ + self.authorities@ + self.additional_rrs@,
                r@.len() == self.answers@.len() + self.authorities@.len() + i,
                forall|j: int| 0 <= j < r@.len() ==> *r@[j] == all[j],
            decreases self.additional_rrs@.len() - i,
        {
            r.push(&self.additional_rrs[i]);
            i = i + 1;
        }
        r
    }
}

/// The records of `v` whose data is known, in order.
fn known_records(v: &Vec<ResourceRecord>) -> (r: Vec<ResourceRecord>)
    ensures
        records_view(r@) == records_view(v@).filter(|r: RecordV| record_known(r)),
{
    let mut out: Vec<ResourceRecord> = Vec::new();
    let mut i: usize = 0;
    while i < v.len()
        invariant
            i <= v@.len(),
            records_view(out@) == records_view(v@.subrange(0, i as int)).filter(
                |r: RecordV| record_known(r),
            ),
        decreases v@.len() - i,
    {
        let ghost before = records_view(v@.subrange(0, i as int));
        proof {
            assert(records_view(v@.subrange(0, i + 1)) =~= before.push(v@[i as int]@));
            before.lemma_filter_push(v@[i as int]@, |r: RecordV| record_known(r));
        }
        let known = !v[i].data.is_unknown();
        assert(known == record_known(v@[i as int]@));
        if known {
            let c = v[i].copy();
            let ghost prev = out@;
            let ghost cv = c@;
            out.push(c);
            assert(records_view(out@) =~= records_view(prev).push(cv));
        }
        i = i + 1;
    }
    assert(v@.subrange(0, v@.len() as int) =~= v@);
    out
}

} // verus!
