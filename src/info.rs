//! Colon-separated `key:value` text, read flat (the cluster-wide info reply)
//! or in `#`-headed sections (a node's diagnostic info reply). Both modes go
//! through one routine and share one line grammar and one value coercion.
use vstd::prelude::*;
use vstd::string::*;

use crate::text::{
    chars_of, find_first, first_index, i64_of, is_float_literal, is_float_text, parse_i64, piece,
    split_bounds, split_on, trim, trim_bounds,
};

verus! {

/// A value of an info line: an integer where the text parses as one, else a
/// floating-point number (kept as its text, which `f64`'s `FromStr` accepts),
/// else the text itself.
#[derive(Clone, Debug)]
pub enum InfoValue {
    Int(i64),
    Float(String),
    Text(String),
}

pub enum ValueModel {
    Int(int),
    Float(Seq<char>),
    Text(Seq<char>),
}

impl View for InfoValue {
    type V = ValueModel;

    open spec fn view(&self) -> ValueModel {
        match self {
            InfoValue::Int(n) => ValueModel::Int(*n as int),
            InfoValue::Float(s) => ValueModel::Float(s@),
            InfoValue::Text(s) => ValueModel::Text(s@),
        }
    }
}

#[derive(Clone, Debug)]
pub struct InfoEntry {
    pub key: String,
    pub value: InfoValue,
}

/// A named section and its entries; never empty.
#[derive(Clone, Debug)]
pub struct InfoSection {
    pub name: String,
    pub entries: Vec<InfoEntry>,
}

/// Whether lines that start with `#` open sections.
#[derive(Clone, Copy, Debug, PartialEq, Eq, Structural)]
pub enum InfoMode {
    Flat,
    Sectioned,
}

pub type EntriesModel = Seq<(Seq<char>, ValueModel)>;

pub type SectionsModel = Seq<(Seq<char>, EntriesModel)>;

pub open spec fn entries_view(es: Seq<InfoEntry>) -> EntriesModel {
    es.map_values(|e: InfoEntry| (e.key@, e.value@))
}

pub open spec fn sections_view(ss: Seq<InfoSection>) -> SectionsModel {
    ss.map_values(|s: InfoSection| (s.name@, entries_view(s.entries@)))
}

/// The position of key `k` in an association list.
pub open spec fn key_pos<V>(s: Seq<(Seq<char>, V)>, k: Seq<char>) -> Option<int>
    decreases s.len(),
{
    if s.len() == 0 {
        None
    } else {
        match key_pos(s.drop_last(), k) {
            Some(i) => Some(i),
            None => if s.last().0 == k {
                Some(s.len() - 1)
            } else {
                None
            },
        }
    }
}

/// An association list with `k` bound to `v`: in place where `k` is bound
/// already, else at the end.
pub open spec fn put<V>(s: Seq<(Seq<char>, V)>, k: Seq<char>, v: V) -> Seq<(Seq<char>, V)> {
    match key_pos(s, k) {
        Some(i) => s.update(i, (k, v)),
        None => s.push((k, v)),
    }
}

/// Integer first, then floating point, then text.
pub open spec fn coerce(v: Seq<char>) -> ValueModel {
    match i64_of(v) {
        Some(n) => ValueModel::Int(n),
        None => if is_float_text(v) {
            ValueModel::Float(v)
        } else {
            ValueModel::Text(v)
        },
    }
}

/// Key and value of a line: split at the first `:`, both trimmed; none for
/// a line without a `:`.
pub open spec fn key_value(line: Seq<char>) -> Option<(Seq<char>, Seq<char>)> {
    match first_index(line, ':') {
        Some(p) => Some((trim(line.take(p)), trim(line.skip(p + 1)))),
        None => None,
    }
}

/// `s` without its leading `#` characters.
pub open spec fn strip_hashes(s: Seq<char>) -> Seq<char>
    decreases s.len(),
{
    if s.len() > 0 && s[0] == '#' {
        strip_hashes(s.drop_first())
    } else {
        s
    }
}

/// What `str::to_lowercase` makes of a text.
pub uninterp spec fn lowercase_of(s: Seq<char>) -> Seq<char>;

/// Relies on `str::to_lowercase`: the lower-case form of the text, by the
/// Unicode case mapping; it depends on the characters alone.
#[verifier::external_body]
fn to_lower(s: &str) -> (r: String)
    ensures
        r@ == lowercase_of(s@),
{
    s.to_lowercase()
}

/// A trimmed line opens a section: in sectioned mode, one that starts with `#`.
pub open spec fn is_header(mode: InfoMode, t: Seq<char>) -> bool {
    mode == InfoMode::Sectioned && t.len() > 0 && t[0] == '#'
}

/// The name of the section that a trimmed header line opens.
pub open spec fn header_name(t: Seq<char>) -> Seq<char> {
    lowercase_of(trim(strip_hashes(t)))
}

/// Where a parse stands between two lines: the sections closed so far, the
/// name of the open section (empty before the first header), and the entries
/// gathered since the last header.
pub struct InfoState {
    pub sections: SectionsModel,
    pub name: Seq<char>,
    pub current: EntriesModel,
}

/// The open section is closed with its entries only if it has a name and at
/// least one entry.
pub open spec fn has_pending(st: InfoState) -> bool {
    st.name.len() > 0 && st.current.len() > 0
}

/// The sections once the open one is closed.
pub open spec fn flush(st: InfoState) -> SectionsModel {
    if has_pending(st) {
        put(st.sections, st.name, st.current)
    } else {
        st.sections
    }
}

pub open spec fn initial_state() -> InfoState {
    InfoState { sections: Seq::empty(), name: Seq::empty(), current: Seq::empty() }
}

/// One line: a header closes the open section (keeping it only if it has a
/// name and an entry) and opens a new, empty one; a `key:value` line binds
/// the key in the open section; any other line is ignored. Entries read
/// before the first header, or under a header with an empty name, belong to
/// no section and are not kept.
pub open spec fn step(mode: InfoMode, st: InfoState, line: Seq<char>) -> InfoState {
    let t = trim(line);
    if is_header(mode, t) {
        InfoState {
            sections: flush(st),
            name: header_name(t),
            current: Seq::empty(),
        }
    } else {
        match key_value(t) {
            Some(kv) => InfoState {
                sections: st.sections,
                name: st.name,
                current: put(st.current, kv.0, coerce(kv.1)),
            },
            None => st,
        }
    }
}

/// The state after a list of lines.
pub open spec fn run(mode: InfoMode, lines: Seq<Seq<char>>) -> InfoState
    decreases lines.len(),
{
    if lines.len() == 0 {
        initial_state()
    } else {
        step(mode, run(mode, lines.drop_last()), lines.last())
    }
}

/// The flat reading of a text: every `key:value` line, into one mapping.
pub open spec fn flat_info(text: Seq<char>) -> EntriesModel {
    run(InfoMode::Flat, split_on(text, '\n')).current
}

/// The sectioned reading of a text.
pub open spec fn sectioned_info(text: Seq<char>) -> SectionsModel {
    flush(run(InfoMode::Sectioned, split_on(text, '\n')))
}

/// The coerced value of a value text.
pub fn coerce_value(s: &str) -> (r: InfoValue)
    ensures
        r@ == coerce(s@),
{
    match parse_i64(s) {
        Some(n) => InfoValue::Int(n),
        None => if is_float_literal(s) {
            InfoValue::Float(String::from_str(s))
        } else {
            InfoValue::Text(String::from_str(s))
        },
    }
}

/// Binds `key` to `value` among `entries`.
fn put_entry(entries: &mut Vec<InfoEntry>, key: String, value: InfoValue)
    ensures
        entries_view(final(entries)@) == put(entries_view(old(entries)@), key@, value@),
{
    let ghost s = entries_view(entries@);
    let mut pos: Option<usize> = None;
    let mut i: usize = 0;
    while i < entries.len()
        invariant
            i <= entries.len(),
            s == entries_view(entries@),
            match key_pos(s.take(i as int), key@) {
                Some(j) => pos == Some(j as usize) && 0 <= j < i,
                None => pos is None,
            },
        decreases entries.len() - i,
    {
        assert(s.take(i + 1).drop_last() =~= s.take(i as int));
        if pos.is_none() && entries[i].key == key {
            pos = Some(i);
        }
        i = i + 1;
    }
    assert(s.take(entries.len() as int) =~= s);
    let ghost pair = (key@, value@);
    match pos {
        Some(p) => {
            entries.set(p, InfoEntry { key, value });
            assert(entries_view(entries@) =~= s.update(p as int, pair));
        },
        None => {
            entries.push(InfoEntry { key, value });
            assert(entries_view(entries@) =~= s.push(pair));
        },
    }
}

/// Binds the section's name to its entries among `sections`.
fn put_section(sections: &mut Vec<InfoSection>, section: InfoSection)
    ensures
        sections_view(final(sections)@) == put(
            sections_view(old(sections)@),
            section.name@,
            entries_view(section.entries@),
        ),
{
    let ghost s = sections_view(sections@);
    let mut pos: Option<usize> = None;
    let mut i: usize = 0;
    while i < sections.len()
        invariant
            i <= sections.len(),
            s == sections_view(sections@),
            match key_pos(s.take(i as int), section.name@) {
                Some(j) => pos == Some(j as usize) && 0 <= j < i,
                None => pos is None,
            },
        decreases sections.len() - i,
    {
        assert(s.take(i + 1).drop_last() =~= s.take(i as int));
        if pos.is_none() && sections[i].name == section.name {
            pos = Some(i);
        }
        i = i + 1;
    }
    assert(s.take(sections.len() as int) =~= s);
    let ghost pair = (section.name@, entries_view(section.entries@));
    match pos {
        Some(p) => {
            sections.set(p, section);
            assert(sections_view(sections@) =~= s.update(p as int, pair));
        },
        None => {
            sections.push(section);
            assert(sections_view(sections@) =~= s.push(pair));
        },
    }
}

/// The bounds of `strip_hashes(v[lo..hi])`.
fn strip_hash_bounds(v: &Vec<char>, lo: usize, hi: usize) -> (r: usize)
    requires
        lo <= hi <= v.len(),
    ensures
        lo <= r <= hi,
        v@.subrange(r as int, hi as int) == strip_hashes(v@.subrange(lo as int, hi as int)),
{
    let mut a: usize = lo;
    while a < hi && v[a] == '#'
        invariant
            lo <= a <= hi <= v.len(),
            strip_hashes(v@.subrange(a as int, hi as int)) == strip_hashes(
                v@.subrange(lo as int, hi as int),
            ),
        decreases hi - a,
    {
        assert(v@.subrange(a as int, hi as int).drop_first() =~= v@.subrange(a + 1, hi as int));
        a = a + 1;
    }
    a
}

/// A read of info text in progress: the sections closed so far, the name of
/// the open section, and the entries gathered since the last header.
pub struct InfoReader {
    pub sections: Vec<InfoSection>,
    pub name: String,
    pub current: Vec<InfoEntry>,
}

impl View for InfoReader {
    type V = InfoState;

    open spec fn view(&self) -> InfoState {
        InfoState {
            sections: sections_view(self.sections@),
            name: self.name@,
            current: entries_view(self.current@),
        }
    }
}

impl InfoReader {
    pub fn new() -> (r: InfoReader)
        ensures
            r@ == initial_state(),
    {
        let r = InfoReader { sections: Vec::new(), name: String::new(), current: Vec::new() };
        assert(r@.sections =~= Seq::empty());
        assert(r@.current =~= Seq::empty());
        r
    }

    /// Closes the open section (kept only with a name and an entry) and opens
    /// an empty one named `name`.
    pub fn open_section(self, name: String) -> (r: InfoReader)
        ensures
            r@ == (InfoState { sections: flush(self@), name: name@, current: Seq::empty() }),
    {
        let sections = self.finish();
        let r = InfoReader { sections, name, current: Vec::new() };
        assert(r@.current =~= Seq::empty());
        r
    }

    /// Binds the key of a `key:value` line in the open section; a line
    /// without a `:` changes nothing.
    pub fn read_entry(&mut self, line: &str)
        ensures
            final(self)@ == match key_value(line@) {
                Some(kv) => InfoState {
                    sections: old(self)@.sections,
                    name: old(self)@.name,
                    current: put(old(self)@.current, kv.0, coerce(kv.1)),
                },
                None => old(self)@,
            },
    {
        let v = chars_of(line);
        assert(v@.subrange(0, v.len() as int) =~= line@);
        match find_first(&v, 0, v.len(), ':') {
            Some(p) => {
                let (ka, kz) = trim_bounds(&v, 0, p);
                let (va, vz) = trim_bounds(&v, p + 1, v.len());
                assert(line@.take(p as int) =~= v@.subrange(0, p as int));
                assert(line@.skip(p + 1) =~= v@.subrange(p + 1, v.len() as int));
                let key = piece(line, ka, kz);
                let value = coerce_value(line.substring_char(va, vz));
                put_entry(&mut self.current, key, value);
            },
            None => {},
        }
    }

    /// The sections once the open one is closed.
    pub fn finish(self) -> (r: Vec<InfoSection>)
        ensures
            sections_view(r@) == flush(self@),
    {
        let mut sections = self.sections;
        if !self.name.as_str().is_empty() && self.current.len() > 0 {
            put_section(&mut sections, InfoSection { name: self.name, entries: self.current });
        }
        sections
    }
}

/// Reads `text` line by line in the given mode: the one routine behind both
/// readings.
pub fn read_info(text: &str, mode: InfoMode) -> (r: InfoReader)
    ensures
        r@ == run(mode, split_on(text@, '\n')),
{
    let v = chars_of(text);
    let b = split_bounds(&v, 0, v.len(), '\n');
    assert(v@.subrange(0, v.len() as int) =~= text@);
    let ghost lines = split_on(text@, '\n');
    let mut reader = InfoReader::new();
    for k in 0..b.len()
        invariant
            v@ == text@,
            b.len() == lines.len(),
            forall|j: int|
                0 <= j < b.len() ==> 0 <= (#[trigger] b[j]).0 <= b[j].1 <= v.len() && v@.subrange(
                    b[j].0 as int,
                    b[j].1 as int,
                ) == lines[j],
            reader@ == run(mode, lines.take(k as int)),
    {
        assert(lines.take(k + 1).drop_last() =~= lines.take(k as int));
        assert(lines.take(k + 1).last() == lines[k as int]);
        let (a, z) = b[k];
        let (ta, tz) = trim_bounds(&v, a, z);
        let ghost t = trim(lines[k as int]);
        if mode == InfoMode::Sectioned && tz > ta && v[ta] == '#' {
            assert(t[0] == v@[ta as int]);
            let ha = strip_hash_bounds(&v, ta, tz);
            let (na, nz) = trim_bounds(&v, ha, tz);
            reader = reader.open_section(to_lower(text.substring_char(na, nz)));
        } else {
            reader.read_entry(text.substring_char(ta, tz));
        }
    }
    assert(lines.take(b.len() as int) =~= lines);
    reader
}

/// The flat reading of the cluster-wide info reply: every `key:value` line,
/// with its value coerced, into one mapping (a later line with the same key
/// replaces the value in place).
pub fn parse_cluster_info(text: &str) -> (r: Vec<InfoEntry>)
    ensures
        entries_view(r@) == flat_info(text@),
{
    read_info(text, InfoMode::Flat).current
}

/// The sectioned reading of a node's diagnostic info reply: a line starting
/// with `#` opens a section named by the lower-cased rest of the line; a
/// section without entries is not kept.
pub fn parse_node_info(text: &str) -> (r: Vec<InfoSection>)
    ensures
        sections_view(r@) == sectioned_info(text@),
{
    read_info(text, InfoMode::Sectioned).finish()
}

/// Every section of the list has at least one entry.
pub open spec fn sections_nonempty(ss: SectionsModel) -> bool {
    forall|i: int| 0 <= i < ss.len() ==> (#[trigger] ss[i]).1.len() > 0
}

proof fn lemma_key_pos_bounds<V>(s: Seq<(Seq<char>, V)>, k: Seq<char>)
    ensures
        key_pos(s, k) matches Some(i) ==> 0 <= i < s.len(),
    decreases s.len(),
{
    if s.len() > 0 {
        lemma_key_pos_bounds(s.drop_last(), k);
    }
}

proof fn lemma_run_nonempty(mode: InfoMode, lines: Seq<Seq<char>>)
    ensures
        sections_nonempty(run(mode, lines).sections),
    decreases lines.len(),
{
    if lines.len() > 0 {
        let st = run(mode, lines.drop_last());
        lemma_run_nonempty(mode, lines.drop_last());
        lemma_key_pos_bounds(st.sections, st.name);
    }
}

/// A section is kept only with at least one entry: a header followed by no
/// `key:value` line before the next header or the end gives no section.
pub proof fn lemma_sections_nonempty(text: Seq<char>)
    ensures
        sections_nonempty(sectioned_info(text)),
{
    let st = run(InfoMode::Sectioned, split_on(text, '\n'));
    lemma_run_nonempty(InfoMode::Sectioned, split_on(text, '\n'));
    lemma_key_pos_bounds(st.sections, st.name);
}

proof fn lemma_run_extend(
    mode: InfoMode,
    x: Seq<Seq<char>>,
    y: Seq<Seq<char>>,
    post: Seq<Seq<char>>,
)
    requires
        run(mode, x) == run(mode, y),
    ensures
        run(mode, x + post) == run(mode, y + post),
    decreases post.len(),
{
    if post.len() == 0 {
        assert(x + post =~= x);
        assert(y + post =~= y);
    } else {
        lemma_run_extend(mode, x, y, post.drop_last());
        assert((x + post).drop_last() =~= x + post.drop_last());
        assert((y + post).drop_last() =~= y + post.drop_last());
    }
}

/// A header directly followed by another header adds nothing: the text reads
/// as if the first of the two were not there.
pub proof fn lemma_empty_section_dropped(
    pre: Seq<Seq<char>>,
    h1: Seq<char>,
    h2: Seq<char>,
    post: Seq<Seq<char>>,
)
    requires
        is_header(InfoMode::Sectioned, trim(h1)),
        is_header(InfoMode::Sectioned, trim(h2)),
    ensures
        flush(run(InfoMode::Sectioned, pre + seq![h1, h2] + post)) == flush(
            run(InfoMode::Sectioned, pre + seq![h2] + post),
        ),
{
    let m = InfoMode::Sectioned;
    let x = pre + seq![h1, h2];
    let y = pre + seq![h2];
    assert(x.drop_last() =~= pre + seq![h1]);
    assert((pre + seq![h1]).drop_last() =~= pre);
    assert(y.drop_last() =~= pre);
    assert(x.last() == h2);
    assert((pre + seq![h1]).last() == h1);
    assert(y.last() == h2);
    let st1 = step(m, run(m, pre), h1);
    assert(run(m, pre + seq![h1]) == st1);
    assert(!has_pending(st1));
    assert(run(m, x) == step(m, st1, h2));
    assert(run(m, y) == step(m, run(m, pre), h2));
    assert(run(m, x) == run(m, y));
    lemma_run_extend(m, x, y, post);
}

} // verus!
