//! The node-listing reply: one line per node, white-space separated fields,
//! then the node's slot tokens.
use vstd::prelude::*;
use vstd::string::*;

use crate::text::{
    chars_of, contains_seq, contains_text, find_first, find_last, first_index, i32_of,
    last_index, parse_decimal, parse_i32, piece, split_bounds, split_on, split_text, word_bounds,
    words,
};

verus! {

/// A node's role, read from its flags.
#[derive(Clone, Copy, Debug, PartialEq, Eq, Structural)]
pub enum Role {
    Master,
    Replica,
    Unknown,
}

/// A run of hash slots `start..=end` that a node serves.
#[derive(Clone, Copy, Debug, PartialEq, Eq, Structural)]
pub struct SlotSpan {
    pub start: i32,
    pub end: i32,
}

/// One node of the listing.
#[derive(Clone, Debug)]
pub struct NodeDescriptor {
    pub node_id: String,
    pub host: String,
    pub port: i32,
    pub role: Role,
    pub flags: Vec<String>,
    /// The id of the master that this node replicates, if any. It names a node
    /// that need not be in the same listing.
    pub master_id: Option<String>,
    pub ping_sent: String,
    pub pong_recv: String,
    pub config_epoch: i32,
    pub link_state: String,
    pub slot_ranges: Vec<SlotSpan>,
    /// `end - start + 1` summed over `slot_ranges`; a span written backwards
    /// (`b-a` with `b > a`) counts what that formula gives.
    pub slots_count: i128,
}

/// The nodes of one listing, in the order of their lines.
#[derive(Clone, Debug)]
pub struct ClusterNodes {
    pub total_nodes: usize,
    pub nodes: Vec<NodeDescriptor>,
}

/// What a `NodeDescriptor` holds, over mathematical values.
pub struct NodeModel {
    pub node_id: Seq<char>,
    pub host: Seq<char>,
    pub port: int,
    pub role: Role,
    pub flags: Seq<Seq<char>>,
    pub master_id: Option<Seq<char>>,
    pub ping_sent: Seq<char>,
    pub pong_recv: Seq<char>,
    pub config_epoch: int,
    pub link_state: Seq<char>,
    pub slot_ranges: Seq<(int, int)>,
    pub slots_count: int,
}

impl View for NodeDescriptor {
    type V = NodeModel;

    open spec fn view(&self) -> NodeModel {
        NodeModel {
            node_id: self.node_id@,
            host: self.host@,
            port: self.port as int,
            role: self.role,
            flags: self.flags@.map_values(|f: String| f@),
            master_id: match self.master_id {
                Some(m) => Some(m@),
                None => None,
            },
            ping_sent: self.ping_sent@,
            pong_recv: self.pong_recv@,
            config_epoch: self.config_epoch as int,
            link_state: self.link_state@,
            slot_ranges: self.slot_ranges@.map_values(|s: SlotSpan| (s.start as int, s.end as int)),
            slots_count: self.slots_count as int,
        }
    }
}

/// `s.parse::<i32>()`, or 0 where that fails.
pub open spec fn i32_or_zero(s: Seq<char>) -> int {
    match i32_of(s) {
        Some(n) => n,
        None => 0,
    }
}

/// The client-facing part of an address: what stands before the first `@`.
pub open spec fn client_address(a: Seq<char>) -> Seq<char> {
    match first_index(a, '@') {
        Some(i) => a.take(i),
        None => a,
    }
}

/// Host and port of an address `host:port@bus`: split at the last `:` of the
/// client-facing part; without a `:` all of it is the host and the port is 0.
pub open spec fn host_port(a: Seq<char>) -> (Seq<char>, int) {
    let c = client_address(a);
    match last_index(c, ':') {
        Some(j) => (c.take(j), i32_or_zero(c.skip(j + 1))),
        None => (c, 0),
    }
}

pub open spec fn master_word() -> Seq<char> {
    seq!['m', 'a', 's', 't', 'e', 'r']
}

pub open spec fn slave_word() -> Seq<char> {
    seq!['s', 'l', 'a', 'v', 'e']
}

/// The role that a flags field gives: a substring test, `master` before `slave`.
pub open spec fn role_of(flags: Seq<char>) -> Role {
    if contains_seq(flags, master_word()) {
        Role::Master
    } else if contains_seq(flags, slave_word()) {
        Role::Replica
    } else {
        Role::Unknown
    }
}

/// The slots that one slot token names: none for a bracketed (migrating or
/// importing) token or one that does not parse, `(a, b)` for `a-b`, `(n, n)`
/// for `n`.
pub open spec fn slot_span_of(tok: Seq<char>) -> Option<(int, int)> {
    if tok.len() > 0 && tok[0] == '[' {
        None
    } else if first_index(tok, '-') is Some {
        let parts = split_on(tok, '-');
        if parts.len() == 2 && i32_of(parts[0]) is Some && i32_of(parts[1]) is Some {
            Some((i32_of(parts[0])->0, i32_of(parts[1])->0))
        } else {
            None
        }
    } else {
        match i32_of(tok) {
            Some(n) => Some((n, n)),
            None => None,
        }
    }
}

/// The spans of the slot tokens that name slots, in order.
pub open spec fn slot_spans(toks: Seq<Seq<char>>) -> Seq<(int, int)>
    decreases toks.len(),
{
    if toks.len() == 0 {
        Seq::empty()
    } else {
        let init = slot_spans(toks.drop_last());
        match slot_span_of(toks.last()) {
            Some(p) => init.push(p),
            None => init,
        }
    }
}

/// The number of slots in a list of spans: `end - start + 1` summed.
pub open spec fn span_total(spans: Seq<(int, int)>) -> int
    decreases spans.len(),
{
    if spans.len() == 0 {
        0
    } else {
        span_total(spans.drop_last()) + (spans.last().1 - spans.last().0 + 1)
    }
}

/// The slot units that one token contributes.
pub open spec fn token_units(tok: Seq<char>) -> int {
    match slot_span_of(tok) {
        Some(p) => p.1 - p.0 + 1,
        None => 0,
    }
}

/// The slot units of a list of tokens, summed.
pub open spec fn tokens_units(toks: Seq<Seq<char>>) -> int
    decreases toks.len(),
{
    if toks.len() == 0 {
        0
    } else {
        tokens_units(toks.drop_last()) + token_units(toks.last())
    }
}

pub open spec fn dash() -> Seq<char> {
    seq!['-']
}

/// The node that the fields of one line describe (at least eight of them).
pub open spec fn node_of_fields(f: Seq<Seq<char>>) -> NodeModel {
    let spans = slot_spans(f.skip(8));
    NodeModel {
        node_id: f[0],
        host: host_port(f[1]).0,
        port: host_port(f[1]).1,
        role: role_of(f[2]),
        flags: split_on(f[2], ','),
        master_id: if f[3] == dash() {
            None
        } else {
            Some(f[3])
        },
        ping_sent: f[4],
        pong_recv: f[5],
        config_epoch: i32_or_zero(f[6]),
        link_state: f[7],
        slot_ranges: spans,
        slots_count: span_total(spans),
    }
}

/// A line describes a node when it has at least eight fields.
pub open spec fn is_node_line(line: Seq<char>) -> bool {
    words(line).len() >= 8
}

/// The node of one line, if the line describes one.
pub open spec fn node_of_line(line: Seq<char>) -> Option<NodeModel> {
    if is_node_line(line) {
        Some(node_of_fields(words(line)))
    } else {
        None
    }
}

/// The nodes of a list of lines, in order; lines that describe none are left out.
pub open spec fn nodes_of_lines(lines: Seq<Seq<char>>) -> Seq<NodeModel>
    decreases lines.len(),
{
    if lines.len() == 0 {
        Seq::empty()
    } else {
        let init = nodes_of_lines(lines.drop_last());
        match node_of_line(lines.last()) {
            Some(n) => init.push(n),
            None => init,
        }
    }
}

/// The nodes of a listing: those of its lines.
pub open spec fn nodes_of_text(text: Seq<char>) -> Seq<NodeModel> {
    nodes_of_lines(split_on(text, '\n'))
}

/// The number of lines that describe a node.
pub open spec fn node_line_count(lines: Seq<Seq<char>>) -> nat
    decreases lines.len(),
{
    if lines.len() == 0 {
        0
    } else {
        node_line_count(lines.drop_last()) + if is_node_line(lines.last()) {
            1nat
        } else {
            0nat
        }
    }
}

/// The slots of a list of nodes, summed.
pub open spec fn nodes_slot_total(nodes: Seq<NodeModel>) -> int
    decreases nodes.len(),
{
    if nodes.len() == 0 {
        0
    } else {
        nodes_slot_total(nodes.drop_last()) + nodes.last().slots_count
    }
}

/// The slot units of the slot tokens of every line that describes a node.
pub open spec fn lines_slot_units(lines: Seq<Seq<char>>) -> int
    decreases lines.len(),
{
    if lines.len() == 0 {
        0
    } else {
        lines_slot_units(lines.drop_last()) + if is_node_line(lines.last()) {
            tokens_units(words(lines.last()).skip(8))
        } else {
            0
        }
    }
}

/// Host and port of an address `host:port@bus`.
pub fn parse_address(address: &str) -> (r: (String, i32))
    ensures
        r.0@ == host_port(address@).0,
        r.1 as int == host_port(address@).1,
{
    let v = chars_of(address);
    assert(v@.subrange(0, v.len() as int) =~= v@);
    let ghost c = client_address(address@);
    let end = match find_first(&v, 0, v.len(), '@') {
        Some(i) => {
            assert(v@.subrange(0, i as int) =~= c);
            i
        },
        None => {
            assert(v@.subrange(0, v.len() as int) =~= c);
            v.len()
        },
    };
    match find_last(&v, 0, end, ':') {
        Some(j) => {
            assert(v@.subrange(j + 1, end as int) =~= c.skip(j + 1));
            assert(v@.subrange(0, j as int) =~= c.take(j as int));
            let port = match parse_decimal(&v, j + 1, end, i32::MIN as i64, i32::MAX as i64) {
                Some(n) => n as i32,
                None => 0,
            };
            (piece(address, 0, j), port)
        },
        None => (piece(address, 0, end), 0),
    }
}

/// The role that a flags field gives.
pub fn classify_role(flags: &str) -> (r: Role)
    ensures
        r == role_of(flags@),
{
    let v = chars_of(flags);
    let master = vec!['m', 'a', 's', 't', 'e', 'r'];
    assert(master@ =~= master_word());
    if contains_text(&v, &master) {
        return Role::Master;
    }
    let slave = vec!['s', 'l', 'a', 'v', 'e'];
    assert(slave@ =~= slave_word());
    if contains_text(&v, &slave) {
        Role::Replica
    } else {
        Role::Unknown
    }
}

/// The slots that one slot token names.
pub fn parse_slot_token(token: &str) -> (r: Option<SlotSpan>)
    ensures
        match slot_span_of(token@) {
            Some(p) => r == Some(SlotSpan { start: p.0 as i32, end: p.1 as i32 }),
            None => r is None,
        },
{
    let v = chars_of(token);
    assert(v@.subrange(0, v.len() as int) =~= v@);
    if v.len() > 0 && v[0] == '[' {
        return None;
    }
    match find_first(&v, 0, v.len(), '-') {
        Some(_) => {
            let b = split_bounds(&v, 0, v.len(), '-');
            if b.len() != 2 {
                return None;
            }
            let (a0, a1) = b[0];
            let (z0, z1) = b[1];
            let start = parse_decimal(&v, a0, a1, i32::MIN as i64, i32::MAX as i64);
            let end = parse_decimal(&v, z0, z1, i32::MIN as i64, i32::MAX as i64);
            match (start, end) {
                (Some(s), Some(e)) => Some(SlotSpan { start: s as i32, end: e as i32 }),
                _ => None,
            }
        },
        None => match parse_decimal(&v, 0, v.len(), i32::MIN as i64, i32::MAX as i64) {
            Some(n) => Some(SlotSpan { start: n as i32, end: n as i32 }),
            None => None,
        },
    }
}

/// The node that one line of the listing describes; `None` for a line with
/// fewer than eight fields.
pub fn parse_node_line(line: &str) -> (r: Option<NodeDescriptor>)
    ensures
        match node_of_line(line@) {
            Some(m) => r matches Some(n) && n@ == m,
            None => r is None,
        },
{
    let v = chars_of(line);
    let b = word_bounds(&v, 0, v.len());
    assert(v@.subrange(0, v.len() as int) =~= line@);
    if b.len() < 8 {
        return None;
    }
    let ghost f = words(line@);
    let (a0, z0) = b[0];
    let (a1, z1) = b[1];
    let (a2, z2) = b[2];
    let (a3, z3) = b[3];
    let (a4, z4) = b[4];
    let (a5, z5) = b[5];
    let (a6, z6) = b[6];
    let (a7, z7) = b[7];
    let node_id = piece(line, a0, z0);
    let (host, port) = parse_address(line.substring_char(a1, z1));
    let flags_field = line.substring_char(a2, z2);
    let role = classify_role(flags_field);
    let flags = split_text(flags_field, ',');
    assert(flags@.map_values(|s: String| s@) =~= split_on(f[2], ','));
    let master_id = if z3 - a3 == 1 && v[a3] == '-' {
        assert(f[3] =~= dash());
        None
    } else {
        assert(f[3] != dash()) by {
            if f[3].len() == 1 {
                assert(f[3][0] == v@[a3 as int]);
            }
        }
        Some(piece(line, a3, z3))
    };
    let ping_sent = piece(line, a4, z4);
    let pong_recv = piece(line, a5, z5);
    let config_epoch = match parse_i32(line.substring_char(a6, z6)) {
        Some(n) => n,
        None => 0,
    };
    let link_state = piece(line, a7, z7);
    let mut slot_ranges: Vec<SlotSpan> = Vec::new();
    let mut slots_count: i128 = 0;
    let ghost toks = f.skip(8);
    let mut k: usize = 8;
    while k < b.len()
        invariant
            8 <= k <= b.len(),
            b.len() == f.len(),
            v@ == line@,
            toks == f.skip(8),
            forall|j: int|
                0 <= j < b.len() ==> 0 <= (#[trigger] b[j]).0 <= b[j].1 <= v.len() && v@.subrange(
                    b[j].0 as int,
                    b[j].1 as int,
                ) == f[j],
            slot_ranges@.map_values(|s: SlotSpan| (s.start as int, s.end as int)) == slot_spans(
                toks.take(k - 8),
            ),
            slots_count == span_total(slot_spans(toks.take(k - 8))),
            -((k - 8) * 0x1_0000_0000) <= slots_count <= (k - 8) * 0x1_0000_0000,
        decreases b.len() - k,
    {
        let ghost before = slot_spans(toks.take(k - 8));
        assert(toks.take(k + 1 - 8).drop_last() =~= toks.take(k - 8));
        assert(toks.take(k + 1 - 8).last() == f[k as int]);
        let (a, z) = b[k];
        match parse_slot_token(line.substring_char(a, z)) {
            Some(span) => {
                slot_ranges.push(span);
                slots_count = slots_count + (span.end as i128 - span.start as i128 + 1);
                let ghost p = (span.start as int, span.end as int);
                assert(before.push(p).drop_last() =~= before);
                assert(slot_ranges@.map_values(|s: SlotSpan| (s.start as int, s.end as int))
                    =~= before.push(p));
            },
            None => {},
        }
        k = k + 1;
    }
    assert(toks.take(b.len() - 8) =~= toks);
    let n = NodeDescriptor {
        node_id,
        host,
        port,
        role,
        flags,
        master_id,
        ping_sent,
        pong_recv,
        config_epoch,
        link_state,
        slot_ranges,
        slots_count,
    };
    assert(n@.flags == node_of_fields(f).flags);
    assert(n@.slot_ranges == node_of_fields(f).slot_ranges);
    assert(n@.master_id == node_of_fields(f).master_id);
    Some(n)
}

/// The nodes that a listing describes, in the order of their lines. Lines
/// with fewer than eight fields are skipped.
pub fn parse_cluster_nodes(text: &str) -> (r: ClusterNodes)
    ensures
        r.total_nodes == r.nodes.len(),
        r.nodes@.map_values(|n: NodeDescriptor| n@) == nodes_of_text(text@),
{
    let v = chars_of(text);
    let b = split_bounds(&v, 0, v.len(), '\n');
    assert(v@.subrange(0, v.len() as int) =~= text@);
    let ghost lines = split_on(text@, '\n');
    let mut nodes: Vec<NodeDescriptor> = Vec::new();
    for k in 0..b.len()
        invariant
            v@ == text@,
            b.len() == lines.len(),
            forall|j: int|
                0 <= j < b.len() ==> 0 <= (#[trigger] b[j]).0 <= b[j].1 <= v.len() && v@.subrange(
                    b[j].0 as int,
                    b[j].1 as int,
                ) == lines[j],
            nodes@.map_values(|n: NodeDescriptor| n@) == nodes_of_lines(lines.take(k as int)),
    {
        let ghost before = nodes_of_lines(lines.take(k as int));
        assert(lines.take(k + 1).drop_last() =~= lines.take(k as int));
        assert(lines.take(k + 1).last() == lines[k as int]);
        let (a, z) = b[k];
        match parse_node_line(text.substring_char(a, z)) {
            Some(n) => {
                nodes.push(n);
                assert(nodes@.map_values(|n: NodeDescriptor| n@) =~= before.push(n@));
            },
            None => {},
        }
    }
    assert(lines.take(b.len() as int) =~= lines);
    ClusterNodes { total_nodes: nodes.len(), nodes }
}

proof fn lemma_nodes_of_lines_len(lines: Seq<Seq<char>>)
    ensures
        nodes_of_lines(lines).len() == node_line_count(lines),
    decreases lines.len(),
{
    if lines.len() > 0 {
        lemma_nodes_of_lines_len(lines.drop_last());
    }
}

/// A listing gives one node for each of its lines with at least eight fields,
/// and none for any other line.
pub proof fn lemma_node_count(text: Seq<char>)
    ensures
        nodes_of_text(text).len() == node_line_count(split_on(text, '\n')),
{
    lemma_nodes_of_lines_len(split_on(text, '\n'));
}

proof fn lemma_span_total_units(toks: Seq<Seq<char>>)
    ensures
        span_total(slot_spans(toks)) == tokens_units(toks),
    decreases toks.len(),
{
    if toks.len() > 0 {
        lemma_span_total_units(toks.drop_last());
        let init = slot_spans(toks.drop_last());
        match slot_span_of(toks.last()) {
            Some(p) => {
                assert(init.push(p).drop_last() =~= init);
            },
            None => {},
        }
    }
}

proof fn lemma_nodes_slot_total(lines: Seq<Seq<char>>)
    ensures
        nodes_slot_total(nodes_of_lines(lines)) == lines_slot_units(lines),
    decreases lines.len(),
{
    if lines.len() > 0 {
        lemma_nodes_slot_total(lines.drop_last());
        let init = nodes_of_lines(lines.drop_last());
        match node_of_line(lines.last()) {
            Some(n) => {
                lemma_span_total_units(words(lines.last()).skip(8));
                assert(init.push(n).drop_last() =~= init);
            },
            None => {},
        }
    }
}

/// The slot counts of a listing's nodes add up to the slot units of the slot
/// tokens of its node lines: bracketed tokens and tokens that do not parse
/// add nothing, `a-b` adds `b - a + 1`, a single slot adds 1.
pub proof fn lemma_slot_units(text: Seq<char>)
    ensures
        nodes_slot_total(nodes_of_text(text)) == lines_slot_units(split_on(text, '\n')),
{
    lemma_nodes_slot_total(split_on(text, '\n'));
}

} // verus!
