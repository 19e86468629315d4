//! The slot-ownership reply: a nested array that gives, for each run of hash
//! slots, its bounds, the master that serves it and its replicas.
use vstd::prelude::*;
use vstd::utf8::{decode_utf8, valid_utf8};

verus! {

/// The size of the cluster's hash-slot space.
pub const MAX_SLOTS: i64 = 16384;

/// A reply value of the cache's protocol, already decoded by a client.
#[derive(Debug)]
pub enum ReplyValue {
    Nil,
    Int(i64),
    BulkString(Vec<u8>),
    SimpleString(String),
    Array(Vec<ReplyValue>),
    /// Any other kind of value (status, map, double, ...): no field of the
    /// slot reply reads one.
    Other,
}

/// Where a node listens, and its id.
#[derive(Clone, Debug)]
pub struct NodeEndpoint {
    pub host: String,
    pub port: i64,
    pub node_id: String,
}

/// One run of slots with the nodes that serve it.
#[derive(Clone, Debug)]
pub struct SlotRange {
    pub start_slot: i64,
    pub end_slot: i64,
    pub slots_count: i128,
    /// `None` where the reply gives no well-formed master tuple.
    pub master: Option<NodeEndpoint>,
    pub replicas: Vec<NodeEndpoint>,
}

/// The slot ranges of one reply and how much of the slot space they cover.
#[derive(Clone, Debug)]
pub struct SlotDistribution {
    pub total_slots: i128,
    pub max_slots: i64,
    /// The coverage percentage in hundredths of a percent: 10000 is 100.00%.
    pub coverage_hundredths: i128,
    pub slot_distribution: Vec<SlotRange>,
}

pub struct EndpointModel {
    pub host: Seq<char>,
    pub port: int,
    pub node_id: Seq<char>,
}

pub struct SlotRangeModel {
    pub start: int,
    pub end: int,
    pub slots_count: int,
    pub master: Option<EndpointModel>,
    pub replicas: Seq<EndpointModel>,
}

impl View for NodeEndpoint {
    type V = EndpointModel;

    open spec fn view(&self) -> EndpointModel {
        EndpointModel { host: self.host@, port: self.port as int, node_id: self.node_id@ }
    }
}

impl View for SlotRange {
    type V = SlotRangeModel;

    open spec fn view(&self) -> SlotRangeModel {
        SlotRangeModel {
            start: self.start_slot as int,
            end: self.end_slot as int,
            slots_count: self.slots_count as int,
            master: match self.master {
                Some(m) => Some(m@),
                None => None,
            },
            replicas: self.replicas@.map_values(|e: NodeEndpoint| e@),
        }
    }
}

/// What `String::from_utf8_lossy` makes of a byte sequence.
pub uninterp spec fn lossy_utf8(b: Seq<u8>) -> Seq<char>;

/// Relies on `String::from_utf8_lossy`: decodes the bytes as UTF-8, putting
/// U+FFFD in place of each invalid sequence; valid UTF-8 comes out as it is.
#[verifier::external_body]
fn decode_lossy(b: &Vec<u8>) -> (r: String)
    ensures
        r@ == lossy_utf8(b@),
        valid_utf8(b@) ==> r@ == decode_utf8(b@),
{
    String::from_utf8_lossy(b.as_slice()).into_owned()
}

/// The text of a string-typed value (bulk or simple); empty for any other.
pub open spec fn text_of(v: ReplyValue) -> Seq<char> {
    match v {
        ReplyValue::BulkString(b) => lossy_utf8(b@),
        ReplyValue::SimpleString(s) => s@,
        _ => Seq::empty(),
    }
}

/// The integer of an integer-typed value; 0 for any other.
pub open spec fn int_or_zero(v: ReplyValue) -> int {
    match v {
        ReplyValue::Int(n) => n as int,
        _ => 0,
    }
}

/// The endpoint of a tuple `[host, port, node_id, ...]`; none for anything
/// that is not an array of at least three values.
pub open spec fn endpoint_of(v: ReplyValue) -> Option<EndpointModel> {
    match v {
        ReplyValue::Array(items) => if items.len() >= 3 {
            Some(
                EndpointModel {
                    host: text_of(items@[0]),
                    port: int_or_zero(items@[1]),
                    node_id: text_of(items@[2]),
                },
            )
        } else {
            None
        },
        _ => None,
    }
}

/// The endpoints of the well-formed tuples among `vs`, in order.
pub open spec fn endpoints_of(vs: Seq<ReplyValue>) -> Seq<EndpointModel>
    decreases vs.len(),
{
    if vs.len() == 0 {
        Seq::empty()
    } else {
        let init = endpoints_of(vs.drop_last());
        match endpoint_of(vs.last()) {
            Some(e) => init.push(e),
            None => init,
        }
    }
}

/// The range of one entry `[start, end, master, replica...]`; none where the
/// entry is not an array of at least three values whose first two are integers.
pub open spec fn slot_range_of(v: ReplyValue) -> Option<SlotRangeModel> {
    match v {
        ReplyValue::Array(parts) => if parts.len() >= 3 && parts@[0] is Int && parts@[1] is Int {
            let start = int_or_zero(parts@[0]);
            let end = int_or_zero(parts@[1]);
            Some(
                SlotRangeModel {
                    start,
                    end,
                    slots_count: end - start + 1,
                    master: endpoint_of(parts@[2]),
                    replicas: endpoints_of(parts@.skip(3)),
                },
            )
        } else {
            None
        },
        _ => None,
    }
}

/// The ranges of the well-formed entries among `vs`, in order.
pub open spec fn slot_ranges_of(vs: Seq<ReplyValue>) -> Seq<SlotRangeModel>
    decreases vs.len(),
{
    if vs.len() == 0 {
        Seq::empty()
    } else {
        let init = slot_ranges_of(vs.drop_last());
        match slot_range_of(vs.last()) {
            Some(r) => init.push(r),
            None => init,
        }
    }
}

/// The ranges of a whole reply: none unless it is an array.
pub open spec fn distribution_of(reply: ReplyValue) -> Seq<SlotRangeModel> {
    match reply {
        ReplyValue::Array(entries) => slot_ranges_of(entries@),
        _ => Seq::empty(),
    }
}

/// The slots of a list of ranges, summed.
pub open spec fn ranges_total(rs: Seq<SlotRangeModel>) -> int
    decreases rs.len(),
{
    if rs.len() == 0 {
        0
    } else {
        ranges_total(rs.drop_last()) + rs.last().slots_count
    }
}

/// `total / 16384 * 100`, in hundredths, rounded half away from zero: the
/// coverage percentage rounded to two decimals.
pub open spec fn coverage_of(total: int) -> int {
    if total >= 0 {
        (total * 625 + 512) / 1024
    } else {
        -((-total * 625 + 512) / 1024)
    }
}

/// A reply array holds no more entries than any `Vec` can.
pub open spec fn reply_fits(reply: ReplyValue) -> bool {
    reply matches ReplyValue::Array(entries) ==> entries.len() <= isize::MAX
}

fn reply_text(v: &ReplyValue) -> (r: String)
    ensures
        r@ == text_of(*v),
{
    match v {
        ReplyValue::BulkString(b) => decode_lossy(b),
        ReplyValue::SimpleString(s) => s.clone(),
        _ => String::new(),
    }
}

fn reply_int_or_zero(v: &ReplyValue) -> (r: i64)
    ensures
        r as int == int_or_zero(*v),
{
    match v {
        ReplyValue::Int(n) => *n,
        _ => 0,
    }
}

/// The endpoint that a tuple `[host, port, node_id, ...]` gives.
pub fn parse_endpoint(v: &ReplyValue) -> (r: Option<NodeEndpoint>)
    ensures
        match endpoint_of(*v) {
            Some(e) => r matches Some(x) && x@ == e,
            None => r is None,
        },
{
    match v {
        ReplyValue::Array(items) => {
            if items.len() >= 3 {
                let host = reply_text(&items[0]);
                let port = reply_int_or_zero(&items[1]);
                let node_id = reply_text(&items[2]);
                Some(NodeEndpoint { host, port, node_id })
            } else {
                None
            }
        },
        _ => None,
    }
}

/// The slot range that one entry of the reply gives.
pub fn parse_slot_entry(v: &ReplyValue) -> (r: Option<SlotRange>)
    ensures
        match slot_range_of(*v) {
            Some(m) => r matches Some(x) && x@ == m,
            None => r is None,
        },
{
    let parts = match v {
        ReplyValue::Array(parts) => parts,
        _ => {
            return None;
        },
    };
    if parts.len() < 3 {
        return None;
    }
    let start = match &parts[0] {
        ReplyValue::Int(n) => *n,
        _ => {
            return None;
        },
    };
    let end = match &parts[1] {
        ReplyValue::Int(n) => *n,
        _ => {
            return None;
        },
    };
    let master = parse_endpoint(&parts[2]);
    let ghost rest = parts@.skip(3);
    let mut replicas: Vec<NodeEndpoint> = Vec::new();
    let mut i: usize = 3;
    while i < parts.len()
        invariant
            3 <= i <= parts.len(),
            rest == parts@.skip(3),
            replicas@.map_values(|e: NodeEndpoint| e@) == endpoints_of(rest.take(i - 3)),
        decreases parts.len() - i,
    {
        let ghost before = endpoints_of(rest.take(i - 3));
        assert(rest.take(i + 1 - 3).drop_last() =~= rest.take(i - 3));
        assert(rest.take(i + 1 - 3).last() == parts@[i as int]);
        match parse_endpoint(&parts[i]) {
            Some(e) => {
                replicas.push(e);
                assert(replicas@.map_values(|e: NodeEndpoint| e@) =~= before.push(e@));
            },
            None => {},
        }
        i = i + 1;
    }
    assert(rest.take(parts.len() - 3) =~= rest);
    let slots_count = end as i128 - start as i128 + 1;
    let r = SlotRange { start_slot: start, end_slot: end, slots_count, master, replicas };
    assert(r@.master == slot_range_of(*v)->0.master);
    Some(r)
}

proof fn lemma_split_quotient(m: int, q: int, rem: int)
    requires
        m == 1024 * q + rem,
        0 <= rem < 1024,
        q >= 0,
    ensures
        (m * 625 + 512) / 1024 == q * 625 + (rem * 625 + 512) / 1024,
{
    let b = rem * 625 + 512;
    let x = b / 1024;
    let y = b % 1024;
    assert(m * 625 + 512 == 1024 * (q * 625 + x) + y) by (nonlinear_arith)
        requires
            m == 1024 * q + rem,
            b == rem * 625 + 512,
            b == 1024 * x + y,
    ;
    vstd::arithmetic::div_mod::lemma_div_multiples_vanish_fancy(q * 625 + x, y, 1024);
}

/// The coverage percentage of `total` slots, in hundredths of a percent:
/// `total / 16384 * 100` rounded to two decimals, half away from zero.
pub fn coverage_hundredths(total: i128) -> (r: i128)
    ensures
        r as int == coverage_of(total as int),
{
    let magnitude: u128 = if total < 0 {
        (-(total + 1)) as u128 + 1
    } else {
        total as u128
    };
    let q = magnitude / 1024;
    let rem = magnitude % 1024;
    proof {
        lemma_split_quotient(magnitude as int, q as int, rem as int);
    }
    assert(q * 625 <= 0x7fff_ffff_ffff_ffff_ffff_ffff_ffff_ffff - 1024) by (nonlinear_arith)
        requires
            q == magnitude / 1024,
            magnitude <= 0x8000_0000_0000_0000_0000_0000_0000_0000,
    ;
    let h = (q * 625 + (rem * 625 + 512) / 1024) as i128;
    if total < 0 {
        -h
    } else {
        h
    }
}

/// The slot ranges of a slot-ownership reply, in order, with their total and
/// coverage. Entries that are not well formed are skipped; a reply that is
/// not an array gives no ranges.
pub fn parse_cluster_slots(reply: &ReplyValue) -> (r: SlotDistribution)
    requires
        reply_fits(*reply),
    ensures
        r.slot_distribution@.map_values(|s: SlotRange| s@) == distribution_of(*reply),
        r.total_slots as int == ranges_total(distribution_of(*reply)),
        r.max_slots == MAX_SLOTS,
        r.coverage_hundredths as int == coverage_of(r.total_slots as int),
{
    let mut ranges: Vec<SlotRange> = Vec::new();
    let mut total: i128 = 0;
    match reply {
        ReplyValue::Array(entries) => {
            let ghost es = entries@;
            for k in 0..entries.len()
                invariant
                    es == entries@,
                    entries.len() <= isize::MAX,
                    ranges@.map_values(|s: SlotRange| s@) == slot_ranges_of(es.take(k as int)),
                    total as int == ranges_total(slot_ranges_of(es.take(k as int))),
                    -(k * 0x1_0000_0000_0000_0000) <= total <= k * 0x1_0000_0000_0000_0000,
            {
                let ghost before = slot_ranges_of(es.take(k as int));
                assert(es.take(k + 1).drop_last() =~= es.take(k as int));
                assert(es.take(k + 1).last() == es[k as int]);
                match parse_slot_entry(&entries[k]) {
                    Some(sr) => {
                        assert(before.push(sr@).drop_last() =~= before);
                        total = total + sr.slots_count;
                        ranges.push(sr);
                        assert(ranges@.map_values(|s: SlotRange| s@) =~= before.push(sr@));
                    },
                    None => {},
                }
            }
            assert(es.take(entries.len() as int) =~= es);
        },
        _ => {},
    }
    let coverage = coverage_hundredths(total);
    SlotDistribution {
        total_slots: total,
        max_slots: MAX_SLOTS,
        coverage_hundredths: coverage,
        slot_distribution: ranges,
    }
}

} // verus!
