//! The DNS record cache: composite keys, TTL policy, staleness and the
//! mutual-exclusion rules between record kinds.

use vstd::prelude::*;

use crate::dns::{
    bytes_less, bytes_lt, lemma_bytes_lt_asymmetric, lemma_bytes_lt_irreflexive,
    lemma_bytes_lt_total, lemma_bytes_lt_transitive, Name, RRClass, RRData, RRDataV, RRKind,
    RecordV, ResourceRecord, ResponseCode, SoaV, RCODE_NO_ERROR, RCODE_NX_DOMAIN,
    RCODE_SERVER_FAILURE, RRK_A, RRK_AAAA, RRK_CNAME, RRK_PTR, RRK_SOA,
};
use crate::lru::{
    has_key, is_prefix_scan, key_ne, lemma_filter_subset, lemma_scan_same_set,
    lemma_touch_all_same_set, lru_insert, evict, prefix_match, prefix_members, prefix_scan,
    remove_key, remove_prefix, scan_keys, scan_view, sub_sorted, touch_all, Entry, LruCache,
};
use crate::time::{Duration, Instant, NANOS_PER_SEC};

verus! {

/// The part of a cache key below `(name, kind, class)`. `First` and `Last`
/// are never stored: they bound the scan of one `(name, kind, class)`.
#[derive(Clone, Debug, PartialEq, Eq)]
pub enum SubKey {
    First,
    Unique,
    RRData(RRData),
    Last,
}

pub enum SubKeyV {
    First,
    Unique,
    RRData(RRDataV),
    Last,
}

impl View for SubKey {
    type V = SubKeyV;

    open spec fn view(&self) -> SubKeyV {
        match self {
            SubKey::First => SubKeyV::First,
            SubKey::Unique => SubKeyV::Unique,
            SubKey::RRData(d) => SubKeyV::RRData(d@),
            SubKey::Last => SubKeyV::Last,
        }
    }
}

/// The composite cache key.
#[derive(Clone, Debug, PartialEq, Eq)]
pub struct Key {
    pub name: Name,
    pub rr_kind: RRKind,
    pub rr_class: RRClass,
    pub sub: SubKey,
}

pub struct KeyV {
    pub name: Seq<u8>,
    pub rr_kind: RRKind,
    pub rr_class: RRClass,
    pub sub: SubKeyV,
}

impl View for Key {
    type V = KeyV;

    open spec fn view(&self) -> KeyV {
        KeyV { name: self.name@, rr_kind: self.rr_kind, rr_class: self.rr_class, sub: self.sub@ }
    }
}

/// What is stored under a key.
#[derive(Clone, Debug, PartialEq, Eq)]
pub struct Value {
    pub ts: Instant,
    pub ttl_secs: u32,
    pub response_code: ResponseCode,
    /// The data of a positive entry stored under `Unique`.
    pub rr_data: Option<RRData>,
    /// The owner of the SOA that came with a negative answer.
    pub soa: Option<Name>,
}

pub struct ValueV {
    pub ts: u64,
    pub ttl_secs: u32,
    pub response_code: ResponseCode,
    pub rr_data: Option<RRDataV>,
    pub soa: Option<Seq<u8>>,
}

pub open spec fn opt_data_view(d: Option<RRData>) -> Option<RRDataV> {
    match d {
        Some(x) => Some(x@),
        None => None,
    }
}

pub open spec fn opt_name_view(n: Option<Name>) -> Option<Seq<u8>> {
    match n {
        Some(x) => Some(x@),
        None => None,
    }
}

impl View for Value {
    type V = ValueV;

    open spec fn view(&self) -> ValueV {
        ValueV {
            ts: self.ts.nanos,
            ttl_secs: self.ttl_secs,
            response_code: self.response_code,
            rr_data: opt_data_view(self.rr_data),
            soa: opt_name_view(self.soa),
        }
    }
}

pub fn copy_opt_name(n: &Option<Name>) -> (r: Option<Name>)
    ensures
        opt_name_view(r) == opt_name_view(*n),
{
    match n {
        Some(x) => Some(x.copy()),
        None => None,
    }
}

pub fn copy_opt_data(d: &Option<RRData>) -> (r: Option<RRData>)
    ensures
        opt_data_view(r) == opt_data_view(*d),
{
    match d {
        Some(x) => Some(x.copy()),
        None => None,
    }
}

impl Value {
    pub fn copy(&self) -> (r: Value)
        ensures
            r@ == self@,
    {
        Value {
            ts: self.ts,
            ttl_secs: self.ttl_secs,
            response_code: self.response_code,
            rr_data: copy_opt_data(&self.rr_data),
            soa: copy_opt_name(&self.soa),
        }
    }
}

// ---------------------------------------------------------------------------
// Order of sub-keys: First < Unique < RRData(Ipv4) < RRData(Ipv6) < RRData(Name)
// < RRData(Soa) < RRData(Unknown) < Last; data of one variant by its value.

pub open spec fn data_tag(d: RRDataV) -> int {
    match d {
        RRDataV::Ipv4Addr(_) => 0,
        RRDataV::Ipv6Addr(_) => 1,
        RRDataV::Name(_) => 2,
        RRDataV::Soa(_) => 3,
        RRDataV::Unknown => 4,
    }
}

pub open spec fn soa_lt(a: SoaV, b: SoaV) -> bool {
    if a.primary_name != b.primary_name {
        bytes_lt(a.primary_name, b.primary_name)
    } else if a.responsible_name != b.responsible_name {
        bytes_lt(a.responsible_name, b.responsible_name)
    } else if a.serial != b.serial {
        a.serial < b.serial
    } else if a.refresh_secs != b.refresh_secs {
        a.refresh_secs < b.refresh_secs
    } else if a.retry_secs != b.retry_secs {
        a.retry_secs < b.retry_secs
    } else if a.expire_secs != b.expire_secs {
        a.expire_secs < b.expire_secs
    } else {
        a.min_ttl_secs < b.min_ttl_secs
    }
}

pub open spec fn data_lt(a: RRDataV, b: RRDataV) -> bool {
    if data_tag(a) != data_tag(b) {
        data_tag(a) < data_tag(b)
    } else {
        match (a, b) {
            (RRDataV::Ipv4Addr(x), RRDataV::Ipv4Addr(y)) => x < y,
            (RRDataV::Ipv6Addr(x), RRDataV::Ipv6Addr(y)) => x < y,
            (RRDataV::Name(x), RRDataV::Name(y)) => bytes_lt(x, y),
            (RRDataV::Soa(x), RRDataV::Soa(y)) => soa_lt(x, y),
            _ => false,
        }
    }
}

pub open spec fn sub_rank(s: SubKeyV) -> int {
    match s {
        SubKeyV::First => 0,
        SubKeyV::Unique => 1,
        SubKeyV::RRData(_) => 2,
        SubKeyV::Last => 3,
    }
}

/// The strict order of sub-keys.
pub open spec fn sub_lt(a: SubKeyV, b: SubKeyV) -> bool {
    if sub_rank(a) != sub_rank(b) {
        sub_rank(a) < sub_rank(b)
    } else {
        match (a, b) {
            (SubKeyV::RRData(x), SubKeyV::RRData(y)) => data_lt(x, y),
            _ => false,
        }
    }
}

pub proof fn lemma_soa_lt_order(a: SoaV, b: SoaV, c: SoaV)
    ensures
        !soa_lt(a, a),
        a == b || soa_lt(a, b) || soa_lt(b, a),
        !(soa_lt(a, b) && soa_lt(b, a)),
        soa_lt(a, b) && soa_lt(b, c) ==> soa_lt(a, c),
{
    lemma_bytes_lt_irreflexive(a.primary_name);
    lemma_bytes_lt_irreflexive(a.responsible_name);
    lemma_bytes_lt_total(a.primary_name, b.primary_name);
    lemma_bytes_lt_total(a.responsible_name, b.responsible_name);
    lemma_bytes_lt_asymmetric(a.primary_name, b.primary_name);
    lemma_bytes_lt_asymmetric(a.responsible_name, b.responsible_name);
    if bytes_lt(a.primary_name, b.primary_name) && bytes_lt(b.primary_name, c.primary_name) {
        lemma_bytes_lt_transitive(a.primary_name, b.primary_name, c.primary_name);
    }
    if bytes_lt(a.responsible_name, b.responsible_name) && bytes_lt(
        b.responsible_name,
        c.responsible_name,
    ) {
        lemma_bytes_lt_transitive(a.responsible_name, b.responsible_name, c.responsible_name);
    }
}

/// `sub_lt` is a strict total order.
pub proof fn lemma_sub_lt_order(a: SubKeyV, b: SubKeyV, c: SubKeyV)
    ensures
        !sub_lt(a, a),
        a == b || sub_lt(a, b) || sub_lt(b, a),
        !(sub_lt(a, b) && sub_lt(b, a)),
        sub_lt(a, b) && sub_lt(b, c) ==> sub_lt(a, c),
{
    if let (SubKeyV::RRData(x), SubKeyV::RRData(y)) = (a, b) {
        match (x, y) {
            (RRDataV::Name(p), RRDataV::Name(q)) => {
                lemma_bytes_lt_irreflexive(p);
                lemma_bytes_lt_total(p, q);
                lemma_bytes_lt_asymmetric(p, q);
            },
            (RRDataV::Soa(p), RRDataV::Soa(q)) => {
                lemma_soa_lt_order(p, q, p);
            },
            _ => {},
        }
        if let SubKeyV::RRData(z) = c {
            match (x, y, z) {
                (RRDataV::Name(p), RRDataV::Name(q), RRDataV::Name(r)) => {
                    if bytes_lt(p, q) && bytes_lt(q, r) {
                        lemma_bytes_lt_transitive(p, q, r);
                    }
                },
                (RRDataV::Soa(p), RRDataV::Soa(q), RRDataV::Soa(r)) => {
                    lemma_soa_lt_order(p, q, r);
                },
                _ => {},
            }
        }
    }
    if let SubKeyV::RRData(x) = a {
        match x {
            RRDataV::Name(p) => lemma_bytes_lt_irreflexive(p),
            RRDataV::Soa(p) => lemma_soa_lt_order(p, p, p),
            _ => {},
        }
    }
}

fn soa_less(a: &crate::dns::Soa, b: &crate::dns::Soa) -> (r: bool)
    ensures
        r == soa_lt(a@, b@),
{
    if !a.primary_name.same(&b.primary_name) {
        bytes_less(a.primary_name.as_bytes(), b.primary_name.as_bytes())
    } else if !a.responsible_name.same(&b.responsible_name) {
        bytes_less(a.responsible_name.as_bytes(), b.responsible_name.as_bytes())
    } else if a.serial != b.serial {
        a.serial < b.serial
    } else if a.refresh_secs != b.refresh_secs {
        a.refresh_secs < b.refresh_secs
    } else if a.retry_secs != b.retry_secs {
        a.retry_secs < b.retry_secs
    } else if a.expire_secs != b.expire_secs {
        a.expire_secs < b.expire_secs
    } else {
        a.min_ttl_secs < b.min_ttl_secs
    }
}

fn data_rank(d: &RRData) -> (r: u8)
    ensures
        r as int == data_tag(d@),
{
    match d {
        RRData::Ipv4Addr(_) => 0,
        RRData::Ipv6Addr(_) => 1,
        RRData::Name(_) => 2,
        RRData::Soa(_) => 3,
        RRData::Unknown => 4,
    }
}

/// Decides `data_lt`.
pub fn data_less(a: &RRData, b: &RRData) -> (r: bool)
    ensures
        r == data_lt(a@, b@),
{
    let ra = data_rank(a);
    let rb = data_rank(b);
    if ra != rb {
        return ra < rb;
    }
    match (a, b) {
        (RRData::Ipv4Addr(x), RRData::Ipv4Addr(y)) => *x < *y,
        (RRData::Ipv6Addr(x), RRData::Ipv6Addr(y)) => *x < *y,
        (RRData::Name(x), RRData::Name(y)) => bytes_less(x.as_bytes(), y.as_bytes()),
        (RRData::Soa(x), RRData::Soa(y)) => soa_less(x, y),
        _ => false,
    }
}

/// Decides `sub_lt`.
pub fn sub_less(a: &SubKey, b: &SubKey) -> (r: bool)
    ensures
        r == sub_lt(a@, b@),
{
    let ra: u8 = match a {
        SubKey::First => 0,
        SubKey::Unique => 1,
        SubKey::RRData(_) => 2,
        SubKey::Last => 3,
    };
    let rb: u8 = match b {
        SubKey::First => 0,
        SubKey::Unique => 1,
        SubKey::RRData(_) => 2,
        SubKey::Last => 3,
    };
    if ra != rb {
        return ra < rb;
    }
    match (a, b) {
        (SubKey::RRData(x), SubKey::RRData(y)) => data_less(x, y),
        _ => false,
    }
}

/// Equality of sub-keys, by their models.
pub fn sub_same(a: &SubKey, b: &SubKey) -> (r: bool)
    ensures
        r == (a@ == b@),
{
    proof {
        lemma_sub_lt_order(a@, b@, a@);
    }
    !sub_less(a, b) && !sub_less(b, a)
}

impl SubKey {
    pub fn copy(&self) -> (r: SubKey)
        ensures
            r@ == self@,
    {
        match self {
            SubKey::First => SubKey::First,
            SubKey::Unique => SubKey::Unique,
            SubKey::RRData(d) => SubKey::RRData(d.copy()),
            SubKey::Last => SubKey::Last,
        }
    }
}

/// The strict order of keys: by name bytes, kind, class, then sub-key.
pub open spec fn key_lt(a: KeyV, b: KeyV) -> bool {
    if a.name != b.name {
        bytes_lt(a.name, b.name)
    } else if a.rr_kind != b.rr_kind {
        a.rr_kind < b.rr_kind
    } else if a.rr_class != b.rr_class {
        a.rr_class < b.rr_class
    } else {
        sub_lt(a.sub, b.sub)
    }
}

impl Key {
    /// Decides `key_lt`.
    pub fn less(&self, other: &Key) -> (r: bool)
        ensures
            r == key_lt(self@, other@),
    {
        if !self.name.same(&other.name) {
            bytes_less(self.name.as_bytes(), other.name.as_bytes())
        } else if self.rr_kind != other.rr_kind {
            self.rr_kind < other.rr_kind
        } else if self.rr_class != other.rr_class {
            self.rr_class < other.rr_class
        } else {
            sub_less(&self.sub, &other.sub)
        }
    }

    pub fn copy(&self) -> (r: Key)
        ensures
            r@ == self@,
    {
        Key {
            name: self.name.copy(),
            rr_kind: self.rr_kind,
            rr_class: self.rr_class,
            sub: self.sub.copy(),
        }
    }

    /// Equality of keys, by their models.
    pub fn same(&self, other: &Key) -> (r: bool)
        ensures
            r == (self@ == other@),
    {
        self.rr_kind == other.rr_kind && self.rr_class == other.rr_class && self.name.same(
            &other.name,
        ) && sub_same(&self.sub, &other.sub)
    }
}


// ---------------------------------------------------------------------------
// Items handed to callers.

/// What the cache answers for one entry.
#[derive(Clone, Debug, PartialEq, Eq)]
pub enum Item {
    Negative { response_code: ResponseCode, soa: Option<Name> },
    Positive(ResourceRecord),
}

pub enum ItemV {
    Negative { response_code: ResponseCode, soa: Option<Seq<u8>> },
    Positive(RecordV),
}

impl View for Item {
    type V = ItemV;

    open spec fn view(&self) -> ItemV {
        match self {
            Item::Negative { response_code, soa } => ItemV::Negative {
                response_code: *response_code,
                soa: opt_name_view(*soa),
            },
            Item::Positive(rr) => ItemV::Positive(rr@),
        }
    }
}

pub open spec fn items_view(v: Seq<Item>) -> Seq<ItemV> {
    v.map_values(|i: Item| i@)
}

/// Why an insert was refused.
#[derive(Clone, Copy, Debug, PartialEq, Eq, Structural)]
pub enum InsertError {
    /// A negative answer whose response code is neither `SERVER_FAILURE` nor `NX_DOMAIN`.
    UncachableResponseCode,
}

// ---------------------------------------------------------------------------
// The model of the cache policy.

/// Kinds that hold one value per owner: stored under `Unique`.
pub open spec fn unique_kind(kind: RRKind) -> bool {
    kind == RRK_CNAME || kind == RRK_PTR || kind == RRK_SOA
}

pub open spec fn address_kind(kind: RRKind) -> bool {
    kind == RRK_A || kind == RRK_AAAA
}

/// The least TTL stored for an entry with this response code.
pub open spec fn ttl_floor(code: ResponseCode, positive: u32, transient: u32, persistent: u32) -> u32 {
    if code == RCODE_NO_ERROR {
        positive
    } else if code == RCODE_SERVER_FAILURE {
        transient
    } else {
        persistent
    }
}

pub open spec fn entry_ok(e: Entry, positive: u32, transient: u32, persistent: u32, max: u32) -> bool {
    let k = e.0;
    let v = e.1;
    &&& v.response_code == RCODE_NO_ERROR || v.response_code == RCODE_SERVER_FAILURE
        || v.response_code == RCODE_NX_DOMAIN
    &&& ttl_floor(v.response_code, positive, transient, persistent) <= v.ttl_secs <= max
    &&& v.ttl_secs > 0
    &&& match k.sub {
        SubKeyV::Unique => if v.response_code == RCODE_NO_ERROR {
            v.rr_data is Some && v.soa is None && unique_kind(k.rr_kind)
        } else {
            v.rr_data is None
        },
        SubKeyV::RRData(_) => v.response_code == RCODE_NO_ERROR && v.rr_data is None && v.soa is None
            && !unique_kind(k.rr_kind),
        _ => false,
    }
}

pub open spec fn same_owner(a: KeyV, b: KeyV) -> bool {
    a.name == b.name && a.rr_class == b.rr_class
}

pub open spec fn same_prefix(a: KeyV, b: KeyV) -> bool {
    a.name == b.name && a.rr_kind == b.rr_kind && a.rr_class == b.rr_class
}

/// A CNAME and address records never share an owner.
pub open spec fn cname_exclusive(es: Set<Entry>) -> bool {
    forall|a: Entry, b: Entry|
        #![trigger es.contains(a), es.contains(b)]
        es.contains(a) && es.contains(b) && same_owner(a.0, b.0) && a.0.rr_kind == RRK_CNAME
            ==> !address_kind(b.0.rr_kind)
}

/// A `Unique` entry is the only one under its `(name, kind, class)`.
pub open spec fn unique_alone(es: Set<Entry>) -> bool {
    forall|a: Entry, b: Entry|
        #![trigger es.contains(a), es.contains(b)]
        es.contains(a) && es.contains(b) && a.0 != b.0 && same_prefix(a.0, b.0) ==> !(
        a.0.sub is Unique)
}

pub open spec fn entries_ok(es: Set<Entry>, positive: u32, transient: u32, persistent: u32, max: u32) -> bool {
    &&& forall|e: Entry| #[trigger] es.contains(e) ==> entry_ok(e, positive, transient, persistent, max)
    &&& cname_exclusive(es)
    &&& unique_alone(es)
}

/// When the entry expires, in nanoseconds.
pub open spec fn expires(v: ValueV) -> int {
    v.ts + v.ttl_secs * NANOS_PER_SEC
}

/// Whether a read at `now` returns the entry.
pub open spec fn is_included(v: ValueV, now: u64, include_stale: bool, max_staleness: u64) -> bool {
    if include_stale {
        expires(v) + max_staleness > now
    } else {
        expires(v) > now
    }
}

/// Whole seconds since the entry was stored.
pub open spec fn elapsed_secs(v: ValueV, now: u64) -> int {
    if now > v.ts {
        (now - v.ts) / (NANOS_PER_SEC as int)
    } else {
        0
    }
}

/// The TTL reported for a positive entry read at `now`.
pub open spec fn reported_ttl(v: ValueV, now: u64, stale_ttl: u32) -> u32 {
    if elapsed_secs(v, now) >= v.ttl_secs {
        stale_ttl
    } else {
        (v.ttl_secs - elapsed_secs(v, now)) as u32
    }
}

/// The item a scanned entry of `(name, kind, class)` is read as.
pub open spec fn item_of(
    name: Seq<u8>,
    kind: RRKind,
    class: RRClass,
    e: (SubKeyV, ValueV),
    now: u64,
    stale_ttl: u32,
) -> ItemV {
    match e.0 {
        SubKeyV::RRData(d) => ItemV::Positive(
            RecordV {
                name,
                kind,
                class,
                ttl_secs: reported_ttl(e.1, now, stale_ttl),
                data: d,
            },
        ),
        _ => if e.1.response_code == RCODE_NO_ERROR {
            ItemV::Positive(
                RecordV {
                    name,
                    kind,
                    class,
                    ttl_secs: reported_ttl(e.1, now, stale_ttl),
                    data: e.1.rr_data.unwrap(),
                },
            )
        } else {
            ItemV::Negative { response_code: e.1.response_code, soa: e.1.soa }
        },
    }
}

pub open spec fn included_pred(now: u64, include_stale: bool, max_staleness: u64) -> spec_fn(
    (SubKeyV, ValueV),
) -> bool {
    |e: (SubKeyV, ValueV)| is_included(e.1, now, include_stale, max_staleness)
}

pub open spec fn item_fn(name: Seq<u8>, kind: RRKind, class: RRClass, now: u64, stale_ttl: u32) -> spec_fn(
    (SubKeyV, ValueV),
) -> ItemV {
    |e: (SubKeyV, ValueV)| item_of(name, kind, class, e, now, stale_ttl)
}

/// What a read of `(name, kind, class)` at `now` returns from the entries `s`.
pub open spec fn cached_items(
    s: Seq<Entry>,
    name: Seq<u8>,
    kind: RRKind,
    class: RRClass,
    now: u64,
    include_stale: bool,
    max_staleness: u64,
    stale_ttl: u32,
) -> Seq<ItemV> {
    prefix_scan(s, name, kind, class).filter(included_pred(now, include_stale, max_staleness)).map_values(
        item_fn(name, kind, class, now, stale_ttl),
    )
}

/// `ttl` brought into `[floor, max]`.
pub open spec fn clamp_ttl(ttl: u32, floor: u32, max: u32) -> u32 {
    if ttl < floor {
        floor
    } else if ttl > max {
        max
    } else {
        ttl
    }
}

/// The sub-key an item is stored under.
pub open spec fn item_sub(kind: RRKind, item: ItemV) -> SubKeyV {
    match item {
        ItemV::Negative { .. } => SubKeyV::Unique,
        ItemV::Positive(rr) => if unique_kind(kind) {
            SubKeyV::Unique
        } else {
            SubKeyV::RRData(rr.data)
        },
    }
}

pub open spec fn item_code(item: ItemV) -> ResponseCode {
    match item {
        ItemV::Negative { response_code, .. } => response_code,
        ItemV::Positive(_) => RCODE_NO_ERROR,
    }
}

/// A negative item whose code the cache does not keep.
pub open spec fn uncachable(item: ItemV) -> bool {
    item is Negative && item_code(item) != RCODE_SERVER_FAILURE && item_code(item) != RCODE_NX_DOMAIN
}

/// The value an insert stores.
pub open spec fn item_value(kind: RRKind, item: ItemV, ttl: u32, now: u64) -> ValueV {
    match item {
        ItemV::Negative { response_code, soa } => ValueV {
            ts: now,
            ttl_secs: ttl,
            response_code,
            rr_data: None,
            soa,
        },
        ItemV::Positive(rr) => ValueV {
            ts: now,
            ttl_secs: ttl,
            response_code: RCODE_NO_ERROR,
            rr_data: if unique_kind(kind) {
                Some(rr.data)
            } else {
                None
            },
            soa: None,
        },
    }
}

/// The entries left once an insert of `kind` at `(name, class)` has removed
/// what may not stand beside it: a CNAME removes the A and AAAA entries of its
/// owner, an A or AAAA removes the CNAME, and a `Unique` entry removes every
/// other entry of its prefix (a record-set entry removes the `Unique` one).
pub open spec fn sweep(s: Seq<Entry>, name: Seq<u8>, kind: RRKind, class: RRClass, sub: SubKeyV) -> Seq<
    Entry,
> {
    let s1 = if kind == RRK_CNAME {
        remove_prefix(remove_prefix(s, name, RRK_A, class), name, RRK_AAAA, class)
    } else if address_kind(kind) {
        remove_prefix(s, name, RRK_CNAME, class)
    } else {
        s
    };
    if sub is Unique {
        remove_prefix(s1, name, kind, class)
    } else {
        remove_key(s1, KeyV { name, rr_kind: kind, rr_class: class, sub: SubKeyV::Unique })
    }
}

/// The entries after a successful insert.
pub open spec fn inserted(
    s: Seq<Entry>,
    cap: nat,
    name: Seq<u8>,
    kind: RRKind,
    class: RRClass,
    ttl: u32,
    now: u64,
    item: ItemV,
) -> Seq<Entry> {
    if ttl == 0 {
        s
    } else {
        let sub = item_sub(kind, item);
        lru_insert(
            sweep(s, name, kind, class, sub),
            cap,
            KeyV { name, rr_kind: kind, rr_class: class, sub },
            item_value(kind, item, ttl, now),
        )
    }
}

// ---------------------------------------------------------------------------
// The cache.

/// The DNS record cache.
pub struct Cache {
    cache: LruCache,
    max_ttl_secs: u32,
    min_positive_ttl_secs: u32,
    min_negative_transient_ttl_secs: u32,
    min_negative_persistent_ttl_secs: u32,
    max_staleness: Duration,
    stale_ttl_secs: u32,
}

impl Cache {
    /// The stored entries, least recently used first.
    pub closed spec fn entries(&self) -> Seq<Entry> {
        self.cache@
    }

    pub closed spec fn capacity(&self) -> nat {
        self.cache.capacity()
    }

    pub closed spec fn max_ttl(&self) -> u32 {
        self.max_ttl_secs
    }

    pub closed spec fn min_positive_ttl(&self) -> u32 {
        self.min_positive_ttl_secs
    }

    pub closed spec fn min_transient_ttl(&self) -> u32 {
        self.min_negative_transient_ttl_secs
    }

    pub closed spec fn min_persistent_ttl(&self) -> u32 {
        self.min_negative_persistent_ttl_secs
    }

    /// The staleness window, in nanoseconds.
    pub closed spec fn staleness(&self) -> u64 {
        self.max_staleness.nanos
    }

    pub closed spec fn stale_ttl(&self) -> u32 {
        self.stale_ttl_secs
    }

    /// The least TTL stored for an entry with this response code.
    pub open spec fn floor(&self, code: ResponseCode) -> u32 {
        ttl_floor(code, self.min_positive_ttl(), self.min_transient_ttl(), self.min_persistent_ttl())
    }

    pub open spec fn same_config(&self, other: &Cache) -> bool {
        &&& self.capacity() == other.capacity()
        &&& self.max_ttl() == other.max_ttl()
        &&& self.min_positive_ttl() == other.min_positive_ttl()
        &&& self.min_transient_ttl() == other.min_transient_ttl()
        &&& self.min_persistent_ttl() == other.min_persistent_ttl()
        &&& self.staleness() == other.staleness()
        &&& self.stale_ttl() == other.stale_ttl()
    }

    pub closed spec fn wf(&self) -> bool {
        &&& self.cache.wf()
        &&& self.min_positive_ttl_secs <= self.max_ttl_secs
        &&& self.min_negative_transient_ttl_secs <= self.max_ttl_secs
        &&& self.min_negative_persistent_ttl_secs <= self.max_ttl_secs
        &&& entries_ok(
            self.cache@.to_set(),
            self.min_positive_ttl_secs,
            self.min_negative_transient_ttl_secs,
            self.min_negative_persistent_ttl_secs,
            self.max_ttl_secs,
        )
    }

    /// What holds of every cache.
    pub proof fn lemma_wf(&self)
        requires
            self.wf(),
        ensures
            entries_ok(
                self.entries().to_set(),
                self.min_positive_ttl(),
                self.min_transient_ttl(),
                self.min_persistent_ttl(),
                self.max_ttl(),
            ),
            self.entries().len() <= self.capacity(),
            self.capacity() > 0,
            crate::lru::keys_unique(self.entries()),
    {
        self.cache.lemma_wf();
    }

    /// An empty cache. Every floor must be at most `max_ttl_secs`.
    pub fn new(
        capacity: usize,
        max_ttl_secs: u32,
        min_positive_ttl_secs: u32,
        min_negative_transient_ttl_secs: u32,
        min_negative_persistent_ttl_secs: u32,
        max_staleness: Duration,
        stale_ttl_secs: u32,
    ) -> (r: Cache)
        requires
            capacity > 0,
            min_positive_ttl_secs <= max_ttl_secs,
            min_negative_transient_ttl_secs <= max_ttl_secs,
            min_negative_persistent_ttl_secs <= max_ttl_secs,
        ensures
            r.wf(),
            r.entries() == Seq::<Entry>::empty(),
            r.capacity() == capacity,
            r.max_ttl() == max_ttl_secs,
            r.min_positive_ttl() == min_positive_ttl_secs,
            r.min_transient_ttl() == min_negative_transient_ttl_secs,
            r.min_persistent_ttl() == min_negative_persistent_ttl_secs,
            r.staleness() == max_staleness.nanos,
            r.stale_ttl() == stale_ttl_secs,
    {
        let r = Cache {
            cache: LruCache::new(capacity),
            max_ttl_secs,
            min_positive_ttl_secs,
            min_negative_transient_ttl_secs,
            min_negative_persistent_ttl_secs,
            max_staleness,
            stale_ttl_secs,
        };
        assert(r.cache@.to_set() =~= Set::<Entry>::empty());
        r
    }

    /// The number of stored entries.
    pub fn len(&self) -> (r: usize)
        requires
            self.wf(),
        ensures
            r == self.entries().len(),
    {
        self.cache.len()
    }

    fn is_fresh(&self, v: &Value, now: Instant, include_stale: bool) -> (r: bool)
        ensures
            r == is_included(v@, now.nanos, include_stale, self.staleness()),
    {
        let expires: u128 = v.ts.nanos as u128 + v.ttl_secs as u128 * 1_000_000_000u128;
        if include_stale {
            expires + self.max_staleness.nanos as u128 > now.nanos as u128
        } else {
            expires > now.nanos as u128
        }
    }

    fn ttl_left(&self, v: &Value, now: Instant) -> (r: u32)
        ensures
            r == reported_ttl(v@, now.nanos, self.stale_ttl()),
    {
        let elapsed: u64 = if now.nanos > v.ts.nanos {
            (now.nanos - v.ts.nanos) / NANOS_PER_SEC
        } else {
            0
        };
        if elapsed >= v.ttl_secs as u64 {
            self.stale_ttl_secs
        } else {
            v.ttl_secs - elapsed as u32
        }
    }

    fn read_item(&self, name: &Name, kind: RRKind, class: RRClass, sub: &SubKey, v: &Value, now: Instant) -> (r: Item)
        requires
            entry_ok(
                (KeyV { name: name@, rr_kind: kind, rr_class: class, sub: sub@ }, v@),
                self.min_positive_ttl(),
                self.min_transient_ttl(),
                self.min_persistent_ttl(),
                self.max_ttl(),
            ),
        ensures
            r@ == item_of(name@, kind, class, (sub@, v@), now.nanos, self.stale_ttl()),
    {
        match sub {
            SubKey::RRData(d) => Item::Positive(
                ResourceRecord {
                    name: name.copy(),
                    kind,
                    class,
                    ttl_secs: self.ttl_left(v, now),
                    data: d.copy(),
                },
            ),
            _ => {
                if v.response_code == RCODE_NO_ERROR {
                    let data = match &v.rr_data {
                        Some(d) => d.copy(),
                        None => unreached(),
                    };
                    Item::Positive(
                        ResourceRecord {
                            name: name.copy(),
                            kind,
                            class,
                            ttl_secs: self.ttl_left(v, now),
                            data,
                        },
                    )
                } else {
                    Item::Negative { response_code: v.response_code, soa: copy_opt_name(&v.soa) }
                }
            },
        }
    }

    /// The entries of `(name, kind, class)` that a read at `now` returns, in
    /// sub-key order. Expired entries are returned only with `include_stale`
    /// and within the staleness window. Every entry of the prefix becomes the
    /// most recently used.
    pub fn get(&mut self, name: &Name, rr_kind: RRKind, rr_class: RRClass, now: Instant, include_stale: bool) -> (r: Vec<Item>)
        requires
            old(self).wf(),
        ensures
            final(self).wf(),
            final(self).same_config(old(self)),
            items_view(r@) == cached_items(
                old(self).entries(),
                name@,
                rr_kind,
                rr_class,
                now.nanos,
                include_stale,
                old(self).staleness(),
                old(self).stale_ttl(),
            ),
            final(self).entries() == touch_all(
                old(self).entries(),
                scan_keys(prefix_scan(old(self).entries(), name@, rr_kind, rr_class), name@, rr_kind, rr_class),
            ),
            final(self).entries().to_set() == old(self).entries().to_set(),
            (exists|i: int| 0 <= i < r@.len() && r@[i]@ is Negative) ==> r@.len() == 1,
    {
        let ghost s0 = self.cache@;
        let ghost nv = name@;
        let scan = self.cache.range(name, rr_kind, rr_class, true);
        let ghost sv = scan_view(scan@);
        let ghost pred = included_pred(now.nanos, include_stale, self.staleness());
        let ghost f = item_fn(nv, rr_kind, rr_class, now.nanos, self.stale_ttl());
        proof {
            lemma_touch_all_same_set(s0, scan_keys(sv, nv, rr_kind, rr_class));
            assert(self.cache@.to_set() == s0.to_set());
            // each scanned pair is a stored entry
            assert forall|j: int| 0 <= j < sv.len() implies #[trigger] s0.to_set().contains(
                (KeyV { name: nv, rr_kind, rr_class, sub: sv[j].0 }, sv[j].1),
            ) by {
                assert(sv.to_set().contains(sv[j]));
                assert(prefix_members(s0, nv, rr_kind, rr_class).contains(sv[j]));
                let p = choose|p: int|
                    0 <= p < s0.len() && prefix_match(s0[p].0, nv, rr_kind, rr_class) && sv[j] == (
                        s0[p].0.sub,
                        s0[p].1,
                    );
                assert(s0[p] == (KeyV { name: nv, rr_kind, rr_class, sub: sv[j].0 }, sv[j].1));
            }
        }
        let mut out: Vec<Item> = Vec::new();
        let mut j: usize = 0;
        while j < scan.len()
            invariant
                j <= scan@.len(),
                sv == scan_view(scan@),
                nv == name@,
                self.wf(),
                entries_ok(
                    s0.to_set(),
                    self.min_positive_ttl(),
                    self.min_transient_ttl(),
                    self.min_persistent_ttl(),
                    self.max_ttl(),
                ),
                pred == included_pred(now.nanos, include_stale, self.staleness()),
                f == item_fn(nv, rr_kind, rr_class, now.nanos, self.stale_ttl()),
                forall|k: int| 0 <= k < sv.len() ==> #[trigger] s0.to_set().contains(
                    (KeyV { name: nv, rr_kind, rr_class, sub: sv[k].0 }, sv[k].1),
                ),
                items_view(out@) == sv.subrange(0, j as int).filter(pred).map_values(f),
            decreases scan@.len() - j,
        {
            let ghost before = sv.subrange(0, j as int);
            proof {
                assert(sv.subrange(0, j + 1) =~= before.push(sv[j as int]));
                before.lemma_filter_push(sv[j as int], pred);
                assert(s0.to_set().contains((KeyV { name: nv, rr_kind, rr_class, sub: sv[j as int].0 }, sv[j as int].1)));
            }
            let fresh = self.is_fresh(&scan[j].1, now, include_stale);
            if fresh {
                let it = self.read_item(name, rr_kind, rr_class, &scan[j].0, &scan[j].1, now);
                let ghost prev = out@;
                let ghost iv = it@;
                out.push(it);
                proof {
                    assert(items_view(out@) =~= items_view(prev).push(iv));
                    assert(before.filter(pred).push(sv[j as int]).map_values(f) =~= before.filter(
                        pred,
                    ).map_values(f).push(f(sv[j as int])));
                }
            }
            j = j + 1;
        }
        proof {
            assert(sv.subrange(0, sv.len() as int) =~= sv);
            let kept = sv.filter(pred);
            lemma_filter_subset(sv, pred);
            if exists|i: int| 0 <= i < out@.len() && out@[i]@ is Negative {
                let i = choose|i: int| 0 <= i < out@.len() && out@[i]@ is Negative;
                assert(items_view(out@)[i] == f(kept[i]));
                assert(kept.contains(kept[i]));
                let k = choose|k: int| 0 <= k < sv.len() && sv[k] == kept[i];
                let ek = (KeyV { name: nv, rr_kind, rr_class, sub: sv[k].0 }, sv[k].1);
                assert(s0.to_set().contains(ek));
                assert(ek.0.sub is Unique);
                if sv.len() > 1 {
                    let other = if k == 0 { 1int } else { 0int };
                    let eo = (KeyV { name: nv, rr_kind, rr_class, sub: sv[other].0 }, sv[other].1);
                    assert(s0.to_set().contains(eo));
                    crate::cache::lemma_sub_lt_order(sv[k].0, sv[other].0, sv[k].0);
                    assert(sv[k].0 != sv[other].0);
                    assert(false);
                }
                sv.lemma_filter_len(pred);
            }
        }
        out
    }

    /// Stores `item` under `(name, rr_kind, rr_class)` at `now`, with its TTL
    /// brought into `[floor, max_ttl]`, the floor depending on the item's
    /// response code. A zero TTL stores nothing. Before storing, the entries
    /// that may not stand beside the new one are removed (see `sweep`).
    /// A negative item whose code is neither `SERVER_FAILURE` nor `NX_DOMAIN`
    /// is refused.
    pub fn insert(
        &mut self,
        name: Name,
        rr_kind: RRKind,
        rr_class: RRClass,
        ttl_secs: u32,
        now: Instant,
        item: Item,
    ) -> (r: Result<(), InsertError>)
        requires
            old(self).wf(),
        ensures
            final(self).wf(),
            final(self).same_config(old(self)),
            r is Err == uncachable(item@),
            r is Err ==> final(self).entries() == old(self).entries(),
            r is Ok ==> final(self).entries() == inserted(
                old(self).entries(),
                old(self).capacity(),
                name@,
                rr_kind,
                rr_class,
                clamp_ttl(ttl_secs, old(self).floor(item_code(item@)), old(self).max_ttl()),
                now.nanos,
                item@,
            ),
    {
        let ghost iv = item@;
        let ghost nv = name@;
        let ghost s0 = self.cache@;
        let (sub, floor, code, rr_data, soa): (SubKey, u32, ResponseCode, Option<RRData>, Option<Name>) =
            match item {
            Item::Negative { response_code, soa } => {
                if response_code == RCODE_SERVER_FAILURE {
                    (SubKey::Unique, self.min_negative_transient_ttl_secs, response_code, None, soa)
                } else if response_code == RCODE_NX_DOMAIN {
                    (SubKey::Unique, self.min_negative_persistent_ttl_secs, response_code, None, soa)
                } else {
                    return Err(InsertError::UncachableResponseCode);
                }
            },
            Item::Positive(rr) => {
                if rr_kind == RRK_CNAME || rr_kind == RRK_PTR || rr_kind == RRK_SOA {
                    (SubKey::Unique, self.min_positive_ttl_secs, RCODE_NO_ERROR, Some(rr.data), None)
                } else {
                    (SubKey::RRData(rr.data), self.min_positive_ttl_secs, RCODE_NO_ERROR, None, None)
                }
            },
        };
        assert(sub@ == item_sub(rr_kind, iv));
        assert(floor == self.floor(item_code(iv)));
        let ttl: u32 = if ttl_secs < floor {
            floor
        } else if ttl_secs > self.max_ttl_secs {
            self.max_ttl_secs
        } else {
            ttl_secs
        };
        if ttl == 0 {
            return Ok(());
        }
        let ghost subv = sub@;
        if rr_kind == RRK_CNAME {
            self.cache.remove_range(&name, RRK_A, rr_class);
            self.cache.remove_range(&name, RRK_AAAA, rr_class);
        } else if rr_kind == RRK_A || rr_kind == RRK_AAAA {
            self.cache.remove_range(&name, RRK_CNAME, rr_class);
        }
        let ghost s1 = self.cache@;
        let is_unique = match &sub {
            SubKey::Unique => true,
            _ => false,
        };
        if is_unique {
            self.cache.remove_range(&name, rr_kind, rr_class);
        } else {
            let uk = Key { name: name.copy(), rr_kind, rr_class, sub: SubKey::Unique };
            self.cache.remove(&uk);
        }
        let ghost s2 = self.cache@;
        assert(s2 == sweep(s0, nv, rr_kind, rr_class, subv));
        let value = Value { ts: now, ttl_secs: ttl, response_code: code, rr_data, soa };
        let key = Key { name, rr_kind, rr_class, sub };
        let ghost kv = key@;
        let ghost vv = value@;
        assert(vv == item_value(rr_kind, iv, ttl, now.nanos));
        self.cache.insert(key, value);
        proof {
            self.cache.lemma_wf();
            let cap = self.cache.capacity();
            let ev = evict(s2, cap);
            let rk = remove_key(ev, kv);
            let fin = self.cache@;
            assert(fin == rk.push((kv, vv)));
            // where the survivors come from
            lemma_filter_subset(ev, key_ne(kv));
            if rr_kind == RRK_CNAME {
                let t = remove_prefix(s0, nv, RRK_A, rr_class);
                lemma_filter_subset(s0, |e: Entry| !prefix_match(e.0, nv, RRK_A, rr_class));
                lemma_filter_subset(t, |e: Entry| !prefix_match(e.0, nv, RRK_AAAA, rr_class));
            } else if address_kind(rr_kind) {
                lemma_filter_subset(s0, |e: Entry| !prefix_match(e.0, nv, RRK_CNAME, rr_class));
            }
            let uk = KeyV { name: nv, rr_kind, rr_class, sub: SubKeyV::Unique };
            if subv is Unique {
                lemma_filter_subset(s1, |e: Entry| !prefix_match(e.0, nv, rr_kind, rr_class));
            } else {
                lemma_filter_subset(s1, key_ne(uk));
            }
            assert forall|b: Entry| #[trigger] rk.contains(b) implies {
                &&& s0.contains(b)
                &&& b.0 != kv
                &&& (rr_kind == RRK_CNAME ==> !prefix_match(b.0, nv, RRK_A, rr_class)
                    && !prefix_match(b.0, nv, RRK_AAAA, rr_class))
                &&& (address_kind(rr_kind) ==> !prefix_match(b.0, nv, RRK_CNAME, rr_class))
                &&& (subv is Unique ==> !prefix_match(b.0, nv, rr_kind, rr_class))
                &&& (!(subv is Unique) ==> b.0 != uk)
            } by {
                assert(ev.contains(b));
                assert(s2.contains(b)) by {
                    let i = choose|i: int| 0 <= i < ev.len() && ev[i] == b;
                    if s2.len() >= cap {
                        assert(ev == s2.drop_first());
                        assert(s2[i + 1] == b);
                    } else {
                        assert(ev == s2);
                    }
                }
                assert(s1.contains(b));
            }
            let es0 = s0.to_set();
            let fs = fin.to_set();
            let mp = self.min_positive_ttl_secs;
            let mt = self.min_negative_transient_ttl_secs;
            let mx = self.min_negative_persistent_ttl_secs;
            let mm = self.max_ttl_secs;
            assert(entry_ok((kv, vv), mp, mt, mx, mm));
            assert forall|e: Entry| #[trigger] fs.contains(e) implies entry_ok(e, mp, mt, mx, mm) by {
                if e != (kv, vv) {
                    let i = choose|i: int| 0 <= i < fin.len() && fin[i] == e;
                    assert(rk.contains(e)) by {
                        assert(rk[i] == e);
                    }
                    assert(es0.contains(e));
                }
            }
            assert forall|a: Entry, b: Entry|
                fs.contains(a) && fs.contains(b) && same_owner(a.0, b.0) && a.0.rr_kind == RRK_CNAME implies !address_kind(
                b.0.rr_kind,
            ) by {
                let ia = choose|i: int| 0 <= i < fin.len() && fin[i] == a;
                let ib = choose|i: int| 0 <= i < fin.len() && fin[i] == b;
                if ia < rk.len() {
                    assert(rk.contains(a));
                }
                if ib < rk.len() {
                    assert(rk.contains(b));
                }
                if ia < rk.len() && ib < rk.len() {
                    assert(es0.contains(a) && es0.contains(b));
                }
            }
            assert forall|a: Entry, b: Entry|
                fs.contains(a) && fs.contains(b) && a.0 != b.0 && same_prefix(a.0, b.0) implies !(
                a.0.sub is Unique) by {
                let ia = choose|i: int| 0 <= i < fin.len() && fin[i] == a;
                let ib = choose|i: int| 0 <= i < fin.len() && fin[i] == b;
                if ia < rk.len() {
                    assert(rk.contains(a));
                }
                if ib < rk.len() {
                    assert(rk.contains(b));
                }
                if ia < rk.len() && ib < rk.len() {
                    assert(es0.contains(a) && es0.contains(b));
                }
            }
        }
        Ok(())
    }
}

// ---------------------------------------------------------------------------
// Laws of the cache.

/// Every stored entry keeps a TTL between the floor of its response code and
/// the maximum, and never zero.
pub proof fn stored_ttl_within_bounds(c: &Cache)
    requires
        c.wf(),
    ensures
        forall|e: Entry|
            #[trigger] c.entries().contains(e) ==> c.floor(e.1.response_code) <= e.1.ttl_secs
                <= c.max_ttl() && e.1.ttl_secs > 0,
{
    c.lemma_wf();
    assert forall|e: Entry| #[trigger] c.entries().contains(e) implies c.floor(e.1.response_code)
        <= e.1.ttl_secs <= c.max_ttl() && e.1.ttl_secs > 0 by {
        assert(c.entries().to_set().contains(e));
    }
}

/// Whatever was inserted, a name never holds a CNAME entry together with A or
/// AAAA entries in the same class.
pub proof fn cname_excludes_addresses(c: &Cache)
    requires
        c.wf(),
    ensures
        forall|a: Entry, b: Entry|
            c.entries().contains(a) && c.entries().contains(b) && same_owner(a.0, b.0)
                && a.0.rr_kind == RRK_CNAME ==> !address_kind(b.0.rr_kind),
{
    c.lemma_wf();
    assert forall|a: Entry, b: Entry|
        c.entries().contains(a) && c.entries().contains(b) && same_owner(a.0, b.0) && a.0.rr_kind
            == RRK_CNAME implies !address_kind(b.0.rr_kind) by {
        assert(c.entries().to_set().contains(a));
        assert(c.entries().to_set().contains(b));
    }
}

/// An insert whose TTL clamps to zero stores nothing: a key that held nothing
/// still reads as empty right after it.
pub proof fn zero_ttl_insert_reads_empty(
    c: &Cache,
    name: Seq<u8>,
    kind: RRKind,
    class: RRClass,
    ttl_secs: u32,
    now: u64,
    item: ItemV,
    include_stale: bool,
)
    requires
        c.wf(),
        clamp_ttl(ttl_secs, c.floor(item_code(item)), c.max_ttl()) == 0,
        forall|i: int| 0 <= i < c.entries().len() ==> !prefix_match(c.entries()[i].0, name, kind, class),
    ensures
        cached_items(
            inserted(
                c.entries(),
                c.capacity(),
                name,
                kind,
                class,
                clamp_ttl(ttl_secs, c.floor(item_code(item)), c.max_ttl()),
                now,
                item,
            ),
            name,
            kind,
            class,
            now,
            include_stale,
            c.staleness(),
            c.stale_ttl(),
        ).len() == 0,
{
    let s = c.entries();
    assert(prefix_members(s, name, kind, class) =~= Set::empty());
    let e = Seq::<(SubKeyV, ValueV)>::empty();
    assert(is_prefix_scan(e, s, name, kind, class)) by {
        assert(e.to_set() =~= Set::empty());
    }
    crate::lru::lemma_prefix_scan_is(e, s, name, kind, class);
    let r = prefix_scan(s, name, kind, class);
    r.lemma_filter_len(included_pred(now, include_stale, c.staleness()));
}

/// An entry past its expiry but inside the staleness window is returned by a
/// read with `include_stale` and not by one without, and its TTL is reported
/// as the stale TTL.
pub proof fn stale_entry_served_only_when_asked(v: ValueV, now: u64, max_staleness: u64, stale_ttl: u32)
    requires
        expires(v) <= now,
        now < expires(v) + max_staleness,
    ensures
        is_included(v, now, true, max_staleness),
        !is_included(v, now, false, max_staleness),
        reported_ttl(v, now, stale_ttl) == stale_ttl,
{
    let d = NANOS_PER_SEC as int;
    if v.ttl_secs > 0 {
        assert(now > v.ts) by (nonlinear_arith)
            requires
                v.ts + v.ttl_secs * d <= now,
                v.ttl_secs > 0,
                d > 0,
        ;
    }
    let x = now - v.ts;
    if now > v.ts {
        assert(x / d >= v.ttl_secs) by (nonlinear_arith)
            requires
                x >= v.ttl_secs * d,
                d > 0,
        {
            vstd::arithmetic::div_mod::lemma_div_is_ordered(v.ttl_secs * d, x, d);
            vstd::arithmetic::div_mod::lemma_div_multiples_vanish(v.ttl_secs as int, d);
        }
    }
}

} // verus!
