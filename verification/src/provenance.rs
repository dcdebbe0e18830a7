//! The provenance ledger: an append-only, hash-chained record store.
//!
//! Every record carries the content hash of its stage's payload and the
//! hash of the canonical serialization of the record before it, so any
//! reader can re-check the chain.  The canonical serialization is defined
//! here as a spec function, emitted by a verified writer and read back by
//! a verified parser.

use vstd::prelude::*;

use crate::jsonio::{
    chars_to_string, dec_i64, eat_lit, hexdig, is_digit, lit_at, num_end, parse_i64,
    parse_jstring, ser_str, str_chars, w_i64, w_lit, w_string,
};

verus! {

// --- Metadata: a small, flat JSON object ---

/// One metadata value: a string, a number kept as its literal text, or a
/// list of strings.
pub enum MetaValue {
    MStr(String),
    MNum(String),
    MList(Vec<String>),
}

/// One `key: value` pair of a record's metadata.
pub struct MetaEntry {
    pub key: String,
    pub val: MetaValue,
}

/// Free-form metadata of a record: an ordered list of key-value pairs.
pub struct Metadata {
    pub entries: Vec<MetaEntry>,
}

/// The mathematical value of a metadata value.
pub ghost enum MetaValV {
    S(Seq<char>),
    N(Seq<char>),
    L(Seq<Seq<char>>),
}

/// The mathematical value of a metadata entry.
pub ghost struct MetaEntryV {
    pub key: Seq<char>,
    pub val: MetaValV,
}

impl View for MetaValue {
    type V = MetaValV;

    open spec fn view(&self) -> MetaValV {
        match self {
            MetaValue::MStr(s) => MetaValV::S(s@),
            MetaValue::MNum(t) => MetaValV::N(t@),
            MetaValue::MList(items) => MetaValV::L(items@.map_values(|s: String| s@)),
        }
    }
}

impl View for MetaEntry {
    type V = MetaEntryV;

    open spec fn view(&self) -> MetaEntryV {
        MetaEntryV { key: self.key@, val: self.val@ }
    }
}

impl View for Metadata {
    type V = Seq<MetaEntryV>;

    open spec fn view(&self) -> Seq<MetaEntryV> {
        self.entries@.map_values(|e: MetaEntry| e@)
    }
}

/// Characters that may stand in a number's literal text.
pub open spec fn is_numch(c: char) -> bool {
    is_digit(c) || c == '-' || c == '+' || c == '.' || c == 'e' || c == 'E'
}

/// A number's literal text: nonempty, made of number characters only.
pub open spec fn wf_num(t: Seq<char>) -> bool {
    t.len() >= 1 && forall|k: int| 0 <= k < t.len() ==> is_numch(#[trigger] t[k])
}

/// Well-formed metadata: every number value has well-formed literal text.
pub open spec fn wf_mval(v: MetaValV) -> bool {
    match v {
        MetaValV::N(t) => wf_num(t),
        _ => true,
    }
}

pub open spec fn wf_meta(m: Seq<MetaEntryV>) -> bool {
    forall|i: int| 0 <= i < m.len() ==> wf_mval((#[trigger] m[i]).val)
}

impl Metadata {
    /// Metadata with no entries.
    pub fn empty() -> (r: Metadata)
        ensures
            r@ =~= Seq::<MetaEntryV>::empty(),
            wf_meta(r@),
    {
        Metadata { entries: Vec::new() }
    }

    /// Appends a string value.
    pub fn push_str(&mut self, key: String, value: String)
        ensures
            final(self)@ =~= old(self)@.push(
                MetaEntryV { key: key@, val: MetaValV::S(value@) },
            ),
            wf_meta(old(self)@) ==> wf_meta(final(self)@),
    {
        self.entries.push(MetaEntry { key, val: MetaValue::MStr(value) });
        proof {
            if wf_meta(old(self)@) {
                assert forall|i: int|
                    0 <= i < self@.len() implies wf_mval((#[trigger] self@[i]).val) by {
                    if i < old(self)@.len() {
                        assert(self@[i] == old(self)@[i]);
                    } else {
                        assert(self@[i] == self.entries@[i]@);
                    }
                }
            }
        }
    }

    /// Appends a number value given as its literal text; refuses text that
    /// is not a plain number literal, leaving the metadata unchanged.
    pub fn push_num(&mut self, key: String, text: String) -> (r: bool)
        ensures
            r == wf_num(text@),
            r ==> final(self)@ =~= old(self)@.push(
                MetaEntryV { key: key@, val: MetaValV::N(text@) },
            ),
            !r ==> final(self)@ == old(self)@,
            wf_meta(old(self)@) ==> wf_meta(final(self)@),
    {
        let cs = str_chars(text.as_str());
        if cs.len() == 0 {
            return false;
        }
        let n = cs.len();
        for k in 0..n
            invariant
                n == cs@.len(),
                cs@ == text@,
                n >= 1,
                forall|q: int| 0 <= q < k ==> is_numch(#[trigger] text@[q]),
        {
            let c = cs[k];
            let u = c as u32;
            let ok = (48 <= u && u <= 57) || c == '-' || c == '+' || c == '.' || c == 'e'
                || c == 'E';
            if !ok {
                return false;
            }
        }
        self.entries.push(MetaEntry { key, val: MetaValue::MNum(text) });
        proof {
            if wf_meta(old(self)@) {
                assert forall|i: int|
                    0 <= i < self@.len() implies wf_mval((#[trigger] self@[i]).val) by {
                    if i < old(self)@.len() {
                        assert(self@[i] == old(self)@[i]);
                    } else {
                        assert(self@[i] == self.entries@[i]@);
                    }
                }
            }
        }
        true
    }

    /// The entries, in insertion order.
    pub fn entries(&self) -> (r: &Vec<MetaEntry>)
        ensures
            r@.map_values(|e: MetaEntry| e@) == self@,
    {
        &self.entries
    }

    /// Appends a list-of-strings value.
    pub fn push_str_list(&mut self, key: String, items: Vec<String>)
        ensures
            final(self)@ =~= old(self)@.push(
                MetaEntryV {
                    key: key@,
                    val: MetaValV::L(items@.map_values(|s: String| s@)),
                },
            ),
            wf_meta(old(self)@) ==> wf_meta(final(self)@),
    {
        self.entries.push(MetaEntry { key, val: MetaValue::MList(items) });
        proof {
            if wf_meta(old(self)@) {
                assert forall|i: int|
                    0 <= i < self@.len() implies wf_mval((#[trigger] self@[i]).val) by {
                    if i < old(self)@.len() {
                        assert(self@[i] == old(self)@[i]);
                    } else {
                        assert(self@[i] == self.entries@[i]@);
                    }
                }
            }
        }
    }
}

// --- The canonical serialization ---

/// The items of a string list, joined by commas, without the brackets.
pub open spec fn ser_slist(items: Seq<Seq<char>>) -> Seq<char>
    decreases items.len(),
{
    if items.len() == 0 {
        Seq::empty()
    } else {
        ser_str(items[0]) + ser_slist_rest(items.drop_first())
    }
}

pub open spec fn ser_slist_rest(items: Seq<Seq<char>>) -> Seq<char>
    decreases items.len(),
{
    if items.len() == 0 {
        Seq::empty()
    } else {
        seq![','] + ser_str(items[0]) + ser_slist_rest(items.drop_first())
    }
}

/// The canonical form of one metadata value.
pub open spec fn ser_mval(v: MetaValV) -> Seq<char> {
    match v {
        MetaValV::S(s) => ser_str(s),
        MetaValV::N(t) => t,
        MetaValV::L(items) => seq!['['] + ser_slist(items) + seq![']'],
    }
}

/// The canonical form of one metadata entry.
pub open spec fn ser_entry(e: MetaEntryV) -> Seq<char> {
    ser_str(e.key) + seq![':'] + ser_mval(e.val)
}

/// The entries of a metadata object, joined by commas, without the braces.
pub open spec fn ser_entries(es: Seq<MetaEntryV>) -> Seq<char>
    decreases es.len(),
{
    if es.len() == 0 {
        Seq::empty()
    } else {
        ser_entry(es[0]) + ser_entries_rest(es.drop_first())
    }
}

pub open spec fn ser_entries_rest(es: Seq<MetaEntryV>) -> Seq<char>
    decreases es.len(),
{
    if es.len() == 0 {
        Seq::empty()
    } else {
        seq![','] + ser_entry(es[0]) + ser_entries_rest(es.drop_first())
    }
}

/// The canonical form of a whole metadata object.
pub open spec fn ser_meta(m: Seq<MetaEntryV>) -> Seq<char> {
    seq!['{'] + ser_entries(m) + seq!['}']
}

// --- Records ---

/// A single record of the provenance chain.
pub struct ProvenanceRecord {
    pub timestamp_millis: i64,
    pub event_type: String,
    pub data_hash: String,
    pub software_version: String,
    pub previous_record_hash: Option<String>,
    pub metadata: Metadata,
}

/// The mathematical value of a record.
pub ghost struct RecordV {
    pub ts: int,
    pub event_type: Seq<char>,
    pub data_hash: Seq<char>,
    pub software_version: Seq<char>,
    pub prev: Option<Seq<char>>,
    pub meta: Seq<MetaEntryV>,
}

impl View for ProvenanceRecord {
    type V = RecordV;

    open spec fn view(&self) -> RecordV {
        RecordV {
            ts: self.timestamp_millis as int,
            event_type: self.event_type@,
            data_hash: self.data_hash@,
            software_version: self.software_version@,
            prev: match self.previous_record_hash {
                Option::Some(ref h) => Option::Some(h@),
                Option::None => Option::None,
            },
            meta: self.metadata@,
        }
    }
}

pub open spec fn wf_record(r: RecordV) -> bool {
    &&& -0x8000000000000000 <= r.ts <= 0x7fffffffffffffff
    &&& wf_meta(r.meta)
}

/// The canonical form of the previous-hash field.
pub open spec fn ser_prev(p: Option<Seq<char>>) -> Seq<char> {
    match p {
        Option::Some(h) => ser_str(h),
        Option::None => k_null(),
    }
}

/// The canonical form of one record.
#[verifier::opaque]
pub open spec fn ser_record(r: RecordV) -> Seq<char> {
    k_open_ts() + dec_i64(r.ts) + k_event() + ser_str(r.event_type) + k_hash() + ser_str(
        r.data_hash,
    ) + k_ver() + ser_str(r.software_version) + k_prev() + ser_prev(r.prev) + k_meta()
        + ser_meta(r.meta) + seq!['}']
}

/// The record list, joined by commas, without the brackets.
pub open spec fn ser_recs(rs: Seq<RecordV>) -> Seq<char>
    decreases rs.len(),
{
    if rs.len() == 0 {
        Seq::empty()
    } else {
        ser_record(rs[0]) + ser_recs_rest(rs.drop_first())
    }
}

pub open spec fn ser_recs_rest(rs: Seq<RecordV>) -> Seq<char>
    decreases rs.len(),
{
    if rs.len() == 0 {
        Seq::empty()
    } else {
        seq![','] + ser_record(rs[0]) + ser_recs_rest(rs.drop_first())
    }
}

/// The canonical form of a whole chain.
pub open spec fn ser_chain(rs: Seq<RecordV>) -> Seq<char> {
    seq!['['] + ser_recs(rs) + seq![']']
}

// The fixed key fragments of the record format.
pub open spec fn k_open_ts() -> Seq<char> {
    seq!['{', '"', 't', 'i', 'm', 'e', 's', 't', 'a', 'm', 'p', '"', ':']
}

pub open spec fn k_event() -> Seq<char> {
    seq![',', '"', 'e', 'v', 'e', 'n', 't', '_', 't', 'y', 'p', 'e', '"', ':']
}

pub open spec fn k_hash() -> Seq<char> {
    seq![',', '"', 'd', 'a', 't', 'a', '_', 'h', 'a', 's', 'h', '"', ':']
}

pub open spec fn k_ver() -> Seq<char> {
    seq![
        ',',
        '"',
        's',
        'o',
        'f',
        't',
        'w',
        'a',
        'r',
        'e',
        '_',
        'v',
        'e',
        'r',
        's',
        'i',
        'o',
        'n',
        '"',
        ':',
    ]
}

pub open spec fn k_prev() -> Seq<char> {
    seq![
        ',',
        '"',
        'p',
        'r',
        'e',
        'v',
        'i',
        'o',
        'u',
        's',
        '_',
        'r',
        'e',
        'c',
        'o',
        'r',
        'd',
        '_',
        'h',
        'a',
        's',
        'h',
        '"',
        ':',
    ]
}

pub open spec fn k_meta() -> Seq<char> {
    seq![',', '"', 'm', 'e', 't', 'a', 'd', 'a', 't', 'a', '"', ':']
}

pub open spec fn k_null() -> Seq<char> {
    seq!['n', 'u', 'l', 'l']
}

/// The text of each literal used by the writer and the parser.
pub proof fn lemma_keys()
    ensures
        "{\"timestamp\":"@ == k_open_ts(),
        ",\"event_type\":"@ == k_event(),
        ",\"data_hash\":"@ == k_hash(),
        ",\"software_version\":"@ == k_ver(),
        ",\"previous_record_hash\":"@ == k_prev(),
        ",\"metadata\":"@ == k_meta(),
        "null"@ == k_null(),
{
    reveal_strlit("{\"timestamp\":");
    reveal_strlit(",\"event_type\":");
    reveal_strlit(",\"data_hash\":");
    reveal_strlit(",\"software_version\":");
    reveal_strlit(",\"previous_record_hash\":");
    reveal_strlit(",\"metadata\":");
    reveal_strlit("null");
    assert("{\"timestamp\":"@ =~= k_open_ts());
    assert(",\"event_type\":"@ =~= k_event());
    assert(",\"data_hash\":"@ =~= k_hash());
    assert(",\"software_version\":"@ =~= k_ver());
    assert(",\"previous_record_hash\":"@ =~= k_prev());
    assert(",\"metadata\":"@ =~= k_meta());
    assert("null"@ =~= k_null());
}

// --- Hashing ---

/// The SHA-256 digest of a byte sequence, named but not written out here:
/// the sha2 crate computes it, and all that matters to the ledger is that
/// it is a function of the bytes alone.
pub uninterp spec fn sha256_of(data: Seq<u8>) -> Seq<u8>;

/// Relies on sha2's `Sha256` through `Digest::digest`: the digest is a
/// function of the input bytes alone, 32 bytes long.
#[verifier::external_body]
fn sha256(data: &[u8]) -> (r: Vec<u8>)
    ensures
        r@ == sha256_of(data@),
        r@.len() == 32,
{
    let d = <sha2::Sha256 as sha2::Digest>::digest(data);
    d.to_vec()
}

/// The lower-case hexadecimal text of a byte sequence.
pub open spec fn hex_of(bytes: Seq<u8>) -> Seq<char>
    decreases bytes.len(),
{
    if bytes.len() == 0 {
        Seq::empty()
    } else {
        hex_of(bytes.drop_last()) + seq![
            hexdig(bytes.last() as int / 16),
            hexdig(bytes.last() as int % 16),
        ]
    }
}

/// Hexadecimal text has two characters per byte.
pub proof fn lemma_hex_of_len(bytes: Seq<u8>)
    ensures
        hex_of(bytes).len() == 2 * bytes.len(),
    decreases bytes.len(),
{
    if bytes.len() > 0 {
        lemma_hex_of_len(bytes.drop_last());
    }
}

/// The content hash of a payload: the hexadecimal SHA-256 digest.
pub open spec fn content_hash(data: Seq<u8>) -> Seq<char> {
    hex_of(sha256_of(data))
}

/// The hash that links a record into the chain: the content hash of the
/// UTF-8 bytes of its canonical serialization.
pub open spec fn record_hash(r: RecordV) -> Seq<char> {
    content_hash(vstd::utf8::encode_utf8(ser_record(r)))
}

/// The hexadecimal text of a digest.
fn hex_string(bytes: &Vec<u8>) -> (r: String)
    ensures
        r@ == hex_of(bytes@),
{
    let mut out: Vec<char> = Vec::new();
    let n = bytes.len();
    for i in 0..n
        invariant
            n == bytes@.len(),
            out@ == hex_of(bytes@.take(i as int)),
    {
        let b = bytes[i];
        out.push(crate::jsonio::hexdig_pub(b / 16));
        out.push(crate::jsonio::hexdig_pub(b % 16));
        proof {
            assert(bytes@.take(i as int + 1).drop_last() =~= bytes@.take(i as int));
            assert(bytes@.take(i as int + 1).last() == bytes@[i as int]);
            assert(out@ =~= hex_of(bytes@.take(i as int + 1)));
        }
    }
    proof {
        assert(bytes@.take(n as int) =~= bytes@);
    }
    chars_to_string(&out)
}

/// The deterministic content hash of a byte payload: sixty-four
/// hexadecimal characters.
pub fn calculate_hash(data: &[u8]) -> (r: String)
    ensures
        r@ == content_hash(data@),
        r@.len() == 64,
{
    let digest = sha256(data);
    proof {
        lemma_hex_of_len(digest@);
    }
    hex_string(&digest)
}

/// Hash determinism: identical payload bytes always yield the identical
/// content hash.  The hash is a function of the bytes and of nothing else.
pub proof fn lemma_hash_deterministic(a: Seq<u8>, b: Seq<u8>)
    requires
        a == b,
    ensures
        content_hash(a) == content_hash(b),
{
}

// --- The verified writer ---

/// Appends the canonical form of a string list's tail, from `k` on.
fn w_slist_rest(out: &mut Vec<char>, items: &Vec<String>, k: usize)
    requires
        k <= items@.len(),
    ensures
        final(out)@ == old(out)@ + ser_slist_rest(
            items@.map_values(|s: String| s@).skip(k as int),
        ),
    decreases items@.len() - k,
{
    let ghost vs = items@.map_values(|s: String| s@);
    if k == items.len() {
        proof {
            assert(vs.skip(k as int) =~= Seq::<Seq<char>>::empty());
        }
    } else {
        out.push(',');
        w_string(out, items[k].as_str());
        w_slist_rest(out, items, k + 1);
        proof {
            assert(vs.skip(k as int)[0] == vs[k as int]);
            assert(vs.skip(k as int).drop_first() =~= vs.skip(k as int + 1));
            assert(final(out)@ =~= old(out)@ + ser_slist_rest(vs.skip(k as int)));
        }
    }
}

/// Appends the canonical form of one metadata value.
fn w_mval(out: &mut Vec<char>, v: &MetaValue)
    ensures
        final(out)@ == old(out)@ + ser_mval(v@),
{
    match v {
        MetaValue::MStr(s) => {
            w_string(out, s.as_str());
        },
        MetaValue::MNum(t) => {
            w_lit(out, t.as_str());
        },
        MetaValue::MList(items) => {
            let ghost vs = items@.map_values(|s: String| s@);
            out.push('[');
            if items.len() > 0 {
                w_string(out, items[0].as_str());
                w_slist_rest(out, items, 1);
                proof {
                    assert(vs[0] == items@[0]@);
                    assert(vs.drop_first() =~= vs.skip(1));
                    assert(out@ =~= old(out)@ + (seq!['['] + ser_slist(vs)));
                }
            } else {
                proof {
                    assert(vs =~= Seq::<Seq<char>>::empty());
                    assert(out@ =~= old(out)@ + (seq!['['] + ser_slist(vs)));
                }
            }
            out.push(']');
            proof {
                assert(final(out)@ =~= old(out)@ + ser_mval(v@));
            }
        },
    }
}

/// Appends the canonical form of one metadata entry.
fn w_entry(out: &mut Vec<char>, e: &MetaEntry)
    ensures
        final(out)@ == old(out)@ + ser_entry(e@),
{
    w_string(out, e.key.as_str());
    out.push(':');
    w_mval(out, &e.val);
    proof {
        assert(final(out)@ =~= old(out)@ + ser_entry(e@));
    }
}

/// Appends the canonical form of a metadata object's tail, from `k` on.
fn w_entries_rest(out: &mut Vec<char>, m: &Metadata, k: usize)
    requires
        k <= m.entries@.len(),
    ensures
        final(out)@ == old(out)@ + ser_entries_rest(m@.skip(k as int)),
    decreases m.entries@.len() - k,
{
    if k == m.entries.len() {
        proof {
            assert(m@.skip(k as int) =~= Seq::<MetaEntryV>::empty());
        }
    } else {
        out.push(',');
        w_entry(out, &m.entries[k]);
        w_entries_rest(out, m, k + 1);
        proof {
            assert(m@.skip(k as int)[0] == m@[k as int]);
            assert(m@[k as int] == m.entries@[k as int]@);
            assert(m@.skip(k as int).drop_first() =~= m@.skip(k as int + 1));
            assert(final(out)@ =~= old(out)@ + ser_entries_rest(m@.skip(k as int)));
        }
    }
}

/// Appends the canonical form of a whole metadata object.
fn w_meta(out: &mut Vec<char>, m: &Metadata)
    ensures
        final(out)@ == old(out)@ + ser_meta(m@),
{
    out.push('{');
    if m.entries.len() > 0 {
        w_entry(out, &m.entries[0]);
        w_entries_rest(out, m, 1);
        proof {
            assert(m@[0] == m.entries@[0]@);
            assert(m@.drop_first() =~= m@.skip(1));
            assert(out@ =~= old(out)@ + (seq!['{'] + ser_entries(m@)));
        }
    } else {
        proof {
            assert(m@ =~= Seq::<MetaEntryV>::empty());
            assert(out@ =~= old(out)@ + (seq!['{'] + ser_entries(m@)));
        }
    }
    out.push('}');
    proof {
        assert(final(out)@ =~= old(out)@ + ser_meta(m@));
    }
}

/// Appends the canonical form of one record.
fn w_record(out: &mut Vec<char>, r: &ProvenanceRecord)
    ensures
        final(out)@ == old(out)@ + ser_record(r@),
{
    proof {
        lemma_keys();
    }
    w_lit(out, "{\"timestamp\":");
    w_i64(out, r.timestamp_millis);
    w_lit(out, ",\"event_type\":");
    w_string(out, r.event_type.as_str());
    w_lit(out, ",\"data_hash\":");
    w_string(out, r.data_hash.as_str());
    w_lit(out, ",\"software_version\":");
    w_string(out, r.software_version.as_str());
    w_lit(out, ",\"previous_record_hash\":");
    match &r.previous_record_hash {
        Option::Some(h) => {
            w_string(out, h.as_str());
        },
        Option::None => {
            w_lit(out, "null");
        },
    }
    w_lit(out, ",\"metadata\":");
    w_meta(out, &r.metadata);
    out.push('}');
    proof {
        reveal(ser_record);
        assert(final(out)@ =~= old(out)@ + ser_record(r@));
    }
}

/// The canonical serialization of one record, as text.
pub fn record_json(r: &ProvenanceRecord) -> (s: String)
    ensures
        s@ == ser_record(r@),
{
    let mut out: Vec<char> = Vec::new();
    w_record(&mut out, r);
    chars_to_string(&out)
}

/// Relies on chrono's `DateTime::from_timestamp_millis` and
/// `timestamp_millis`: a reading of the wall clock, of which nothing is
/// promised.  The clock is read without a panic path: a reading before
/// the Unix epoch or outside chrono's range becomes zero.
#[verifier::external_body]
fn now_millis() -> i64 {
    let ms: i64 = match std::time::SystemTime::now().duration_since(std::time::UNIX_EPOCH) {
        Ok(d) => {
            let m = d.as_millis();
            if m > i64::MAX as u128 {
                i64::MAX
            } else {
                m as i64
            }
        },
        Err(_) => 0,
    };
    match chrono::DateTime::<chrono::Utc>::from_timestamp_millis(ms) {
        Some(t) => t.timestamp_millis(),
        None => 0,
    }
}

impl ProvenanceRecord {
    /// A fresh record over a payload: its content hash, the given linking
    /// hash, and the current time.
    pub fn new(
        event_type: String,
        data: &[u8],
        software_version: String,
        previous_record_hash: Option<String>,
        metadata: Metadata,
    ) -> (r: ProvenanceRecord)
        ensures
            r@.event_type == event_type@,
            r@.data_hash == content_hash(data@),
            r@.software_version == software_version@,
            r@.prev == (match previous_record_hash {
                Option::Some(h) => Option::Some(h@),
                Option::None => Option::<Seq<char>>::None,
            }),
            r@.meta == metadata@,
            wf_meta(metadata@) ==> wf_record(r@),
    {
        let timestamp_millis = now_millis();
        let data_hash = calculate_hash(data);
        ProvenanceRecord {
            timestamp_millis,
            event_type,
            data_hash,
            software_version,
            previous_record_hash,
            metadata,
        }
    }

    /// The hash of this record's canonical serialization, used to link the
    /// next record to it.
    pub fn calculate_record_hash(&self) -> (r: String)
        ensures
            r@ == record_hash(self@),
    {
        let json = record_json(self);
        let bytes = json.as_str().as_bytes();
        calculate_hash(bytes)
    }
}

// --- The chain ---

/// The chain property: the first record links to nothing, and every later
/// record holds the hash of the canonical serialization of the one before.
pub open spec fn linked(rs: Seq<RecordV>) -> bool {
    &&& rs.len() > 0 ==> rs[0].prev is None
    &&& forall|i: int|
        1 <= i < rs.len() ==> (#[trigger] rs[i]).prev == Option::Some(record_hash(rs[i - 1]))
}

/// An append-only store of provenance records.
pub struct ProvenanceChain {
    records: Vec<ProvenanceRecord>,
}

impl View for ProvenanceChain {
    type V = Seq<RecordV>;

    closed spec fn view(&self) -> Seq<RecordV> {
        self.records@.map_values(|r: ProvenanceRecord| r@)
    }
}

impl ProvenanceChain {
    /// A new, empty chain.
    pub fn new() -> (r: ProvenanceChain)
        ensures
            r@ =~= Seq::<RecordV>::empty(),
            linked(r@),
    {
        ProvenanceChain { records: Vec::new() }
    }

    /// Appends a record over the given payload.  The new record's previous
    /// hash is the record hash of the last record, or nothing on an empty
    /// chain; a chain built by such appends alone stays linked.
    pub fn add_record(
        &mut self,
        event_type: String,
        data: &[u8],
        software_version: String,
        metadata: Metadata,
    ) -> (r: Result<(), String>)
        ensures
            r is Ok,
            final(self)@.len() == old(self)@.len() + 1,
            final(self)@.subrange(0, old(self)@.len() as int) == old(self)@,
            final(self)@.last().event_type == event_type@,
            final(self)@.last().data_hash == content_hash(data@),
            final(self)@.last().software_version == software_version@,
            final(self)@.last().meta == metadata@,
            final(self)@.last().prev == (if old(self)@.len() == 0 {
                Option::<Seq<char>>::None
            } else {
                Option::Some(record_hash(old(self)@.last()))
            }),
            linked(old(self)@) ==> linked(final(self)@),
            (wf_records(old(self)@) && wf_meta(metadata@)) ==> wf_records(final(self)@),
    {
        let previous_record_hash: Option<String> = if self.records.len() == 0 {
            Option::None
        } else {
            let last = &self.records[self.records.len() - 1];
            proof {
                assert(old(self)@[old(self)@.len() - 1] == old(self).records@[old(
                    self,
                ).records@.len() - 1]@);
            }
            Option::Some(last.calculate_record_hash())
        };
        let record = ProvenanceRecord::new(
            event_type,
            data,
            software_version,
            previous_record_hash,
            metadata,
        );
        self.records.push(record);
        proof {
            assert(final(self)@.subrange(0, old(self)@.len() as int) =~= old(self)@);
            assert(final(self)@.last() == record@);
            if wf_records(old(self)@) && wf_meta(record@.meta) {
                assert forall|i: int|
                    0 <= i < final(self)@.len() implies wf_record(
                    #[trigger] final(self)@[i],
                ) by {
                    if i < old(self)@.len() {
                        assert(final(self)@[i] == old(self)@[i]);
                    }
                }
            }
            if linked(old(self)@) {
                assert forall|i: int|
                    1 <= i < final(self)@.len() implies (#[trigger] final(self)@[i]).prev
                    == Option::Some(record_hash(final(self)@[i - 1])) by {
                    if i < old(self)@.len() {
                        assert(final(self)@[i] == old(self)@[i]);
                        assert(final(self)@[i - 1] == old(self)@[i - 1]);
                    } else {
                        assert(final(self)@[i - 1] == old(self)@[i - 1]);
                    }
                }
            }
        }
        Result::Ok(())
    }

    /// The records of the chain, in order.
    pub fn records(&self) -> (r: &Vec<ProvenanceRecord>)
        ensures
            r@.map_values(|x: ProvenanceRecord| x@) == self@,
    {
        &self.records
    }

    /// Consumes the chain and hands out its records.
    pub fn take_records(self) -> (r: Vec<ProvenanceRecord>)
        ensures
            r@.map_values(|x: ProvenanceRecord| x@) == self@,
    {
        self.records
    }

    /// Empties the chain and hands out what it held: the chain is left with
    /// no records, so the next append links to nothing.
    pub fn drain_records(&mut self) -> (r: Vec<ProvenanceRecord>)
        ensures
            final(self)@.len() == 0,
            linked(final(self)@),
            r@.map_values(|x: ProvenanceRecord| x@) == old(self)@,
    {
        let mut taken: Vec<ProvenanceRecord> = Vec::new();
        core::mem::swap(&mut self.records, &mut taken);
        taken
    }
}

/// Chain integrity: in a linked chain, every record after the first holds
/// the hash of the canonical serialization of its predecessor, and the
/// first record holds none.  `ProvenanceChain::new` yields a linked chain
/// and `add_record` keeps it linked, so this holds of every chain built by
/// appends alone.
pub proof fn lemma_chain_integrity(rs: Seq<RecordV>)
    requires
        linked(rs),
    ensures
        rs.len() > 0 ==> rs[0].prev is None,
        forall|i: int|
            1 <= i < rs.len() ==> (#[trigger] rs[i]).prev == Option::Some(
                record_hash(rs[i - 1]),
            ),
{
}

/// Drain semantics: after a drain the chain is empty, so the record that
/// the next append produces carries no previous hash.
pub proof fn lemma_fresh_after_drain(drained: ProvenanceChain, appended: ProvenanceChain)
    requires
        drained@.len() == 0,
        appended@.len() == drained@.len() + 1,
        appended@.last().prev == (if drained@.len() == 0 {
            Option::<Seq<char>>::None
        } else {
            Option::Some(record_hash(drained@.last()))
        }),
    ensures
        appended@.last().prev is None,
{
}


// --- The verified parser ---

pub open spec fn wf_records(rs: Seq<RecordV>) -> bool {
    forall|i: int| 0 <= i < rs.len() ==> wf_record(#[trigger] rs[i])
}

/// Copies the window `s[i..j]`.
fn copy_range(s: &Vec<char>, i: usize, j: usize) -> (r: Vec<char>)
    requires
        i <= j <= s@.len(),
    ensures
        r@ == s@.subrange(i as int, j as int),
{
    let mut out: Vec<char> = Vec::new();
    let mut k = i;
    while k < j
        invariant
            i <= k <= j <= s@.len(),
            out@ == s@.subrange(i as int, k as int),
        decreases j - k,
    {
        out.push(s[k]);
        k = k + 1;
        proof {
            assert(out@ =~= s@.subrange(i as int, k as int));
        }
    }
    out
}

/// The end of the number-character run that starts at `i`.
fn scan_numch(s: &Vec<char>, i: usize) -> (j: usize)
    requires
        i <= s@.len(),
    ensures
        i <= j <= s@.len(),
        forall|k: int| i <= k < j ==> is_numch(#[trigger] s@[k]),
        j == s@.len() || !is_numch(s@[j as int]),
{
    let l = s.len();
    let mut j = i;
    while j < l
        invariant
            i <= j <= l,
            l == s@.len(),
            forall|k: int| i <= k < j ==> is_numch(#[trigger] s@[k]),
        decreases l - j,
    {
        let c = s[j];
        let u = c as u32;
        let ok = (48 <= u && u <= 57) || c == '-' || c == '+' || c == '.' || c == 'e' || c
            == 'E';
        if !ok {
            return j;
        }
        j = j + 1;
    }
    j
}

/// A number-character run that is exactly `t`, followed by something else,
/// is scanned to exactly its own end.
proof fn lemma_numch_window(s: Seq<char>, i: int, j: int, t: Seq<char>)
    requires
        lit_at(s, i, t),
        wf_num(t),
        i <= j <= s.len(),
        forall|k: int| i <= k < j ==> is_numch(#[trigger] s[k]),
        j == s.len() || !is_numch(s[j]),
        i + t.len() == s.len() || !is_numch(s[i + t.len()]),
    ensures
        j == i + t.len(),
        s.subrange(i, j) == t,
{
    let w = s.subrange(i, i + t.len());
    assert(forall|k: int| 0 <= k < t.len() ==> s[i + k] == w[k]);
    if j < i + t.len() {
        assert(w[j - i] == s[j]);
        assert(is_numch(t[j - i]));
        assert(false);
    }
    if j > i + t.len() {
        assert(is_numch(s[i + t.len()]));
        assert(false);
    }
    assert(s.subrange(i, j) == t);
}

/// A metadata value in canonical form at `i`, not continued by a number
/// character.
pub open spec fn mval_at(s: Seq<char>, i: int, v: MetaValV) -> bool {
    &&& lit_at(s, i, ser_mval(v))
    &&& wf_mval(v)
    &&& (i + ser_mval(v).len() == s.len() || !is_numch(s[i + ser_mval(v).len()]))
}

/// A metadata entry in canonical form at `i`, not continued by a number
/// character.
pub open spec fn entry_at(s: Seq<char>, i: int, e: MetaEntryV) -> bool {
    &&& lit_at(s, i, ser_entry(e))
    &&& wf_mval(e.val)
    &&& (i + ser_entry(e).len() == s.len() || !is_numch(s[i + ser_entry(e).len()]))
}

/// Shape of a nonempty string-list tail: a comma, one quoted string, and
/// the shorter tail.
proof fn lemma_slist_step(s: Seq<char>, i: int, items: Seq<Seq<char>>)
    requires
        lit_at(s, i, ser_slist_rest(items) + seq![']']),
        s[i] == ',',
    ensures
        items.len() > 0,
        crate::jsonio::jstr_at(s, i + 1, items[0]),
        lit_at(
            s,
            i + 1 + ser_str(items[0]).len(),
            ser_slist_rest(items.drop_first()) + seq![']'],
        ),
        ser_slist_rest(items).len() == 1 + ser_str(items[0]).len() + ser_slist_rest(
            items.drop_first(),
        ).len(),
{
    let t = ser_slist_rest(items) + seq![']'];
    let w = s.subrange(i, i + t.len());
    assert(w[0] == s[i]);
    if items.len() == 0 {
        assert(t[0] == ']');
    }
    assert(t =~= seq![','] + (ser_str(items[0]) + (ser_slist_rest(items.drop_first())
        + seq![']'])));
    crate::jsonio::lemma_lit_split(
        s,
        i,
        seq![','],
        ser_str(items[0]) + (ser_slist_rest(items.drop_first()) + seq![']']),
    );
    crate::jsonio::lemma_lit_split(
        s,
        i + 1,
        ser_str(items[0]),
        ser_slist_rest(items.drop_first()) + seq![']'],
    );
}

/// Shape of an empty or nonempty string-list tail at its first character.
proof fn lemma_slist_head(s: Seq<char>, i: int, items: Seq<Seq<char>>)
    requires
        lit_at(s, i, ser_slist_rest(items) + seq![']']),
    ensures
        items.len() == 0 ==> s[i] == ']' && ser_slist_rest(items).len() == 0,
        items.len() > 0 ==> s[i] == ',',
{
    let t = ser_slist_rest(items) + seq![']'];
    let w = s.subrange(i, i + t.len());
    assert(w[0] == s[i]);
    if items.len() == 0 {
        assert(ser_slist_rest(items) =~= Seq::<char>::empty());
        assert(t[0] == ']');
    } else {
        assert(t[0] == ',');
    }
}

/// Reads the tail of a string list: zero or more `,"..."` parts and the
/// closing bracket.
#[verifier::rlimit(100)]
fn parse_slist_rest(s: &Vec<char>, i: usize) -> (res: Option<(Vec<String>, usize)>)
    requires
        i <= s@.len(),
    ensures
        res matches Some(p) ==> i < p.1 <= s@.len(),
        forall|items: Seq<Seq<char>>|
            lit_at(s@, i as int, ser_slist_rest(items) + seq![']']) ==> (res matches Some(p)
                && p.0@.map_values(|x: String| x@) == items && p.1 == i + ser_slist_rest(
                items,
            ).len() + 1),
    decreases s@.len() - i,
{
    if i >= s.len() {
        return None;
    }
    let c = s[i];
    if c == ']' {
        let out: Vec<String> = Vec::new();
        proof {
            assert forall|items: Seq<Seq<char>>|
                lit_at(s@, i as int, ser_slist_rest(items) + seq![']']) implies items
                == Seq::<Seq<char>>::empty() && out@.map_values(|x: String| x@) == items by {
                lemma_slist_head(s@, i as int, items);
                assert(items =~= Seq::<Seq<char>>::empty());
                assert(out@.map_values(|x: String| x@) =~= items);
            }
        }
        return Some((out, i + 1));
    }
    if c != ',' {
        proof {
            assert forall|items: Seq<Seq<char>>|
                !lit_at(s@, i as int, ser_slist_rest(items) + seq![']']) by {
                if lit_at(s@, i as int, ser_slist_rest(items) + seq![']']) {
                    lemma_slist_head(s@, i as int, items);
                }
            }
        }
        return None;
    }
    let first = match parse_jstring(s, i + 1) {
        Some(p) => p,
        None => {
            proof {
                assert forall|items: Seq<Seq<char>>|
                    !lit_at(s@, i as int, ser_slist_rest(items) + seq![']']) by {
                    if lit_at(s@, i as int, ser_slist_rest(items) + seq![']']) {
                        lemma_slist_step(s@, i as int, items);
                    }
                }
            }
            return None;
        },
    };
    let (st, j) = first;
    match parse_slist_rest(s, j) {
        Some(p) => {
            let (tail, j2) = p;
            let ghost tv = tail@;
            let mut out: Vec<String> = Vec::new();
            out.push(st);
            let mut rest = tail;
            out.append(&mut rest);
            proof {
                assert(out@ == seq![st] + tv);
                assert forall|items: Seq<Seq<char>>|
                    lit_at(s@, i as int, ser_slist_rest(items) + seq![']']) implies (out@
                    .map_values(|x: String| x@) == items && j2 == i + ser_slist_rest(
                    items,
                ).len() + 1) by {
                    lemma_slist_step(s@, i as int, items);
                    assert(st@ == items[0]);
                    assert(tv.map_values(|x: String| x@) == items.drop_first());
                    assert forall|k: int|
                        0 <= k < out@.len() implies out@.map_values(|x: String| x@)[k]
                        == items[k] by {
                        if k == 0 {
                            assert(out@[0] == st);
                        } else {
                            assert(out@[k] == tv[k - 1]);
                            assert(tv.map_values(|x: String| x@)[k - 1] == items.drop_first()[k
                                - 1]);
                        }
                    }
                    assert(out@.map_values(|x: String| x@) =~= items);
                }
            }
            Some((out, j2))
        },
        None => {
            proof {
                assert forall|items: Seq<Seq<char>>|
                    !lit_at(s@, i as int, ser_slist_rest(items) + seq![']']) by {
                    if lit_at(s@, i as int, ser_slist_rest(items) + seq![']']) {
                        lemma_slist_step(s@, i as int, items);
                    }
                }
            }
            None
        },
    }
}

/// Shape of a whole string list inside brackets.
proof fn lemma_list_shape(s: Seq<char>, i: int, items: Seq<Seq<char>>)
    requires
        lit_at(s, i, ser_mval(MetaValV::L(items))),
    ensures
        s[i] == '[',
        ser_mval(MetaValV::L(items)).len() >= 2,
        items.len() == 0 ==> s[i + 1] == ']' && ser_mval(MetaValV::L(items)).len() == 2,
        items.len() > 0 ==> s[i + 1] == '"' && crate::jsonio::jstr_at(s, i + 1, items[0])
            && lit_at(
            s,
            i + 1 + ser_str(items[0]).len(),
            ser_slist_rest(items.drop_first()) + seq![']'],
        ) && ser_mval(MetaValV::L(items)).len() == 2 + ser_str(items[0]).len()
            + ser_slist_rest(items.drop_first()).len(),
{
    let t = ser_mval(MetaValV::L(items));
    let w = s.subrange(i, i + t.len());
    assert(w[0] == s[i]);
    if items.len() == 0 {
        assert(ser_slist(items) =~= Seq::<char>::empty());
        assert(t =~= seq!['[', ']']);
        assert(w[1] == s[i + 1]);
    } else {
        assert(t =~= seq!['['] + (ser_str(items[0]) + (ser_slist_rest(items.drop_first())
            + seq![']'])));
        crate::jsonio::lemma_lit_split(
            s,
            i,
            seq!['['],
            ser_str(items[0]) + (ser_slist_rest(items.drop_first()) + seq![']']),
        );
        crate::jsonio::lemma_lit_split(
            s,
            i + 1,
            ser_str(items[0]),
            ser_slist_rest(items.drop_first()) + seq![']'],
        );
        let w1 = s.subrange(i + 1, i + 1 + ser_str(items[0]).len() as int);
        assert(w1[0] == s[i + 1]);
    }
}

/// Reads one metadata value.
#[verifier::rlimit(100)]
fn parse_mval(s: &Vec<char>, i: usize) -> (res: Option<(MetaValue, usize)>)
    requires
        i <= s@.len(),
    ensures
        res matches Some(p) ==> wf_mval(p.0@),
        res matches Some(p) ==> i < p.1 <= s@.len(),
        forall|v: MetaValV|
            mval_at(s@, i as int, v) ==> (res matches Some(p) && p.0@ == v && p.1 == i
                + ser_mval(v).len()),
    decreases s@.len() - i,
{
    if i >= s.len() {
        return None;
    }
    let c = s[i];
    if c == '"' {
        // a string value
        proof {
            assert forall|v: MetaValV|
                mval_at(s@, i as int, v) implies v is S && crate::jsonio::jstr_at(
                s@,
                i as int,
                v->S_0,
            ) by {
                let t = ser_mval(v);
                let w = s@.subrange(i as int, i as int + t.len());
                assert(w[0] == s@[i as int]);
                match v {
                    MetaValV::S(x) => {},
                    MetaValV::N(x) => {
                        assert(is_numch(t[0]));
                    },
                    MetaValV::L(x) => {
                        assert(t[0] == '[');
                    },
                }
            }
        }
        match parse_jstring(s, i) {
            Some(p) => {
                let (st, j) = p;
                return Some((MetaValue::MStr(st), j));
            },
            None => {
                return None;
            },
        }
    }
    if c == '[' {
        // a list of strings
        proof {
            assert forall|v: MetaValV|
                mval_at(s@, i as int, v) implies v is L by {
                let t = ser_mval(v);
                let w = s@.subrange(i as int, i as int + t.len());
                assert(w[0] == s@[i as int]);
                match v {
                    MetaValV::S(x) => {
                        assert(t[0] == '"');
                    },
                    MetaValV::N(x) => {
                        assert(is_numch(t[0]));
                    },
                    MetaValV::L(x) => {},
                }
            }
        }
        if s.len() - i < 2 {
            proof {
                assert forall|v: MetaValV| !mval_at(s@, i as int, v) by {
                    if mval_at(s@, i as int, v) {
                        lemma_list_shape(s@, i as int, v->L_0);
                    }
                }
            }
            return None;
        }
        if s[i + 1] == ']' {
            let out: Vec<String> = Vec::new();
            proof {
                assert forall|v: MetaValV|
                    mval_at(s@, i as int, v) implies (MetaValue::MList(out)@ == v && i + 2 == i
                    + ser_mval(v).len()) by {
                    lemma_list_shape(s@, i as int, v->L_0);
                    assert(v->L_0 =~= Seq::<Seq<char>>::empty());
                    assert(out@.map_values(|x: String| x@) =~= v->L_0);
                }
            }
            return Some((MetaValue::MList(out), i + 2));
        }
        let first = match parse_jstring(s, i + 1) {
            Some(p) => p,
            None => {
                proof {
                    assert forall|v: MetaValV| !mval_at(s@, i as int, v) by {
                        if mval_at(s@, i as int, v) {
                            lemma_list_shape(s@, i as int, v->L_0);
                        }
                    }
                }
                return None;
            },
        };
        let (st, j) = first;
        match parse_slist_rest(s, j) {
            Some(p) => {
                let (tail, j2) = p;
                let ghost tv = tail@;
                let mut out: Vec<String> = Vec::new();
                out.push(st);
                let mut rest = tail;
                out.append(&mut rest);
                proof {
                    assert(out@ == seq![st] + tv);
                    assert forall|v: MetaValV|
                        mval_at(s@, i as int, v) implies (MetaValue::MList(out)@ == v && j2
                        == i + ser_mval(v).len()) by {
                        let items = v->L_0;
                        lemma_list_shape(s@, i as int, items);
                        assert(st@ == items[0]);
                        assert(tv.map_values(|x: String| x@) == items.drop_first());
                        assert forall|k: int|
                            0 <= k < out@.len() implies out@.map_values(|x: String| x@)[k]
                            == items[k] by {
                            if k == 0 {
                                assert(out@[0] == st);
                            } else {
                                assert(out@[k] == tv[k - 1]);
                                assert(tv.map_values(|x: String| x@)[k - 1]
                                    == items.drop_first()[k - 1]);
                            }
                        }
                        assert(out@.map_values(|x: String| x@) =~= items);
                    }
                }
                return Some((MetaValue::MList(out), j2));
            },
            None => {
                proof {
                    assert forall|v: MetaValV| !mval_at(s@, i as int, v) by {
                        if mval_at(s@, i as int, v) {
                            lemma_list_shape(s@, i as int, v->L_0);
                        }
                    }
                }
                return None;
            },
        }
    }
    // a number value: the run of number characters from here
    proof {
        assert forall|v: MetaValV|
            mval_at(s@, i as int, v) implies v is N by {
            let t = ser_mval(v);
            let w = s@.subrange(i as int, i as int + t.len());
            assert(w[0] == s@[i as int]);
            match v {
                MetaValV::S(x) => {
                    assert(t[0] == '"');
                },
                MetaValV::N(x) => {},
                MetaValV::L(x) => {
                    assert(t[0] == '[');
                },
            }
        }
    }
    let j = scan_numch(s, i);
    if j == i {
        proof {
            assert forall|v: MetaValV| !mval_at(s@, i as int, v) by {
                if mval_at(s@, i as int, v) {
                    let t = ser_mval(v);
                    lemma_numch_window(s@, i as int, j as int, t);
                }
            }
        }
        return None;
    }
    let cs = copy_range(s, i, j);
    let text = chars_to_string(&cs);
    proof {
        assert forall|v: MetaValV|
            mval_at(s@, i as int, v) implies (MetaValue::MNum(text)@ == v && j == i + ser_mval(
            v,
        ).len()) by {
            let t = ser_mval(v);
            lemma_numch_window(s@, i as int, j as int, t);
        }
    }
    Some((MetaValue::MNum(text), j))
}

/// Shape of one entry: a quoted key, a colon, and a value.
proof fn lemma_entry_shape(s: Seq<char>, i: int, e: MetaEntryV)
    requires
        entry_at(s, i, e),
    ensures
        crate::jsonio::jstr_at(s, i, e.key),
        s[i + ser_str(e.key).len()] == ':',
        mval_at(s, i + ser_str(e.key).len() + 1, e.val),
        ser_entry(e).len() == ser_str(e.key).len() + 1 + ser_mval(e.val).len(),
{
    assert(ser_entry(e) =~= ser_str(e.key) + (seq![':'] + ser_mval(e.val)));
    crate::jsonio::lemma_lit_split(s, i, ser_str(e.key), seq![':'] + ser_mval(e.val));
    crate::jsonio::lemma_lit_split(s, i + ser_str(e.key).len(), seq![':'], ser_mval(e.val));
    let o = i + ser_str(e.key).len() as int;
    let w = s.subrange(o, o + 1);
    assert(w[0] == s[o]);
}

/// Reads one `"key":value` entry.
#[verifier::rlimit(100)]
fn parse_entry(s: &Vec<char>, i: usize) -> (res: Option<(MetaEntry, usize)>)
    requires
        i <= s@.len(),
    ensures
        res matches Some(p) ==> wf_mval(p.0@.val),
        res matches Some(p) ==> i < p.1 <= s@.len(),
        forall|e: MetaEntryV|
            entry_at(s@, i as int, e) ==> (res matches Some(p) && p.0@ == e && p.1 == i
                + ser_entry(e).len()),
    decreases s@.len() - i,
{
    let kp = match parse_jstring(s, i) {
        Some(p) => p,
        None => {
            proof {
                assert forall|e: MetaEntryV| !entry_at(s@, i as int, e) by {
                    if entry_at(s@, i as int, e) {
                        lemma_entry_shape(s@, i as int, e);
                    }
                }
            }
            return None;
        },
    };
    let (key, j) = kp;
    if j >= s.len() || s[j] != ':' {
        proof {
            assert forall|e: MetaEntryV| !entry_at(s@, i as int, e) by {
                if entry_at(s@, i as int, e) {
                    lemma_entry_shape(s@, i as int, e);
                }
            }
        }
        return None;
    }
    match parse_mval(s, j + 1) {
        Some(p) => {
            let (val, j2) = p;
            proof {
                assert forall|e: MetaEntryV|
                    entry_at(s@, i as int, e) implies (MetaEntry { key, val }@ == e && j2 == i
                    + ser_entry(e).len()) by {
                    lemma_entry_shape(s@, i as int, e);
                }
            }
            Some((MetaEntry { key, val }, j2))
        },
        None => {
            proof {
                assert forall|e: MetaEntryV| !entry_at(s@, i as int, e) by {
                    if entry_at(s@, i as int, e) {
                        lemma_entry_shape(s@, i as int, e);
                    }
                }
            }
            None
        },
    }
}

/// Shape of a nonempty entry-list tail: a comma, one entry, the shorter
/// tail; the entry is followed by a comma or the closing brace.
proof fn lemma_entries_step(s: Seq<char>, i: int, es: Seq<MetaEntryV>)
    requires
        lit_at(s, i, ser_entries_rest(es) + seq!['}']),
        wf_meta(es),
        s[i] == ',',
    ensures
        es.len() > 0,
        entry_at(s, i + 1, es[0]),
        lit_at(
            s,
            i + 1 + ser_entry(es[0]).len(),
            ser_entries_rest(es.drop_first()) + seq!['}'],
        ),
        wf_meta(es.drop_first()),
        ser_entries_rest(es).len() == 1 + ser_entry(es[0]).len() + ser_entries_rest(
            es.drop_first(),
        ).len(),
{
    let t = ser_entries_rest(es) + seq!['}'];
    let w = s.subrange(i, i + t.len());
    assert(w[0] == s[i]);
    if es.len() == 0 {
        assert(t[0] == '}');
    }
    let tail = ser_entries_rest(es.drop_first()) + seq!['}'];
    assert(t =~= seq![','] + (ser_entry(es[0]) + tail));
    crate::jsonio::lemma_lit_split(s, i, seq![','], ser_entry(es[0]) + tail);
    crate::jsonio::lemma_lit_split(s, i + 1, ser_entry(es[0]), tail);
    let o = i + 1 + ser_entry(es[0]).len() as int;
    let w2 = s.subrange(o, o + tail.len());
    assert(w2[0] == s[o]);
    if es.drop_first().len() > 0 {
        assert(tail[0] == ',');
    } else {
        assert(ser_entries_rest(es.drop_first()) =~= Seq::<char>::empty());
        assert(tail[0] == '}');
    }
    assert(!is_numch(s[o]));
    assert(wf_mval(es[0].val));
    assert(forall|k: int|
        0 <= k < es.drop_first().len() ==> wf_mval((#[trigger] es.drop_first()[k]).val));
}

/// Shape of an empty or nonempty entry-list tail at its first character.
proof fn lemma_entries_head(s: Seq<char>, i: int, es: Seq<MetaEntryV>)
    requires
        lit_at(s, i, ser_entries_rest(es) + seq!['}']),
    ensures
        es.len() == 0 ==> s[i] == '}' && ser_entries_rest(es).len() == 0,
        es.len() > 0 ==> s[i] == ',',
{
    let t = ser_entries_rest(es) + seq!['}'];
    let w = s.subrange(i, i + t.len());
    assert(w[0] == s[i]);
    if es.len() == 0 {
        assert(ser_entries_rest(es) =~= Seq::<char>::empty());
        assert(t[0] == '}');
    } else {
        assert(t[0] == ',');
    }
}

/// Reads the tail of a metadata object: zero or more `,"k":v` parts and
/// the closing brace.
#[verifier::rlimit(100)]
fn parse_entries_rest(s: &Vec<char>, i: usize) -> (res: Option<(Vec<MetaEntry>, usize)>)
    requires
        i <= s@.len(),
    ensures
        res matches Some(p) ==> i < p.1 <= s@.len(),
        res matches Some(p) ==> forall|k: int|
            0 <= k < p.0@.len() ==> wf_mval((#[trigger] p.0@[k])@.val),
        forall|es: Seq<MetaEntryV>|
            (lit_at(s@, i as int, ser_entries_rest(es) + seq!['}']) && wf_meta(es)) ==> (
            res matches Some(p) && p.0@.map_values(|x: MetaEntry| x@) == es && p.1 == i
                + ser_entries_rest(es).len() + 1),
    decreases s@.len() - i,
{
    if i >= s.len() {
        return None;
    }
    let c = s[i];
    if c == '}' {
        let out: Vec<MetaEntry> = Vec::new();
        proof {
            assert forall|es: Seq<MetaEntryV>|
                (lit_at(s@, i as int, ser_entries_rest(es) + seq!['}']) && wf_meta(
                    es,
                )) implies es == Seq::<MetaEntryV>::empty() && out@.map_values(
                |x: MetaEntry| x@,
            ) == es by {
                lemma_entries_head(s@, i as int, es);
                assert(es =~= Seq::<MetaEntryV>::empty());
                assert(out@.map_values(|x: MetaEntry| x@) =~= es);
            }
        }
        return Some((out, i + 1));
    }
    if c != ',' {
        proof {
            assert forall|es: Seq<MetaEntryV>|
                !(lit_at(s@, i as int, ser_entries_rest(es) + seq!['}']) && wf_meta(es)) by {
                if lit_at(s@, i as int, ser_entries_rest(es) + seq!['}']) {
                    lemma_entries_head(s@, i as int, es);
                }
            }
        }
        return None;
    }
    let ep = match parse_entry(s, i + 1) {
        Some(p) => p,
        None => {
            proof {
                assert forall|es: Seq<MetaEntryV>|
                    !(lit_at(s@, i as int, ser_entries_rest(es) + seq!['}']) && wf_meta(
                        es,
                    )) by {
                    if lit_at(s@, i as int, ser_entries_rest(es) + seq!['}']) && wf_meta(es) {
                        lemma_entries_step(s@, i as int, es);
                    }
                }
            }
            return None;
        },
    };
    let (entry, j) = ep;
    match parse_entries_rest(s, j) {
        Some(p) => {
            let (tail, j2) = p;
            let ghost tv = tail@;
            let mut out: Vec<MetaEntry> = Vec::new();
            out.push(entry);
            let mut rest = tail;
            out.append(&mut rest);
            proof {
                assert(out@ == seq![out@[0]] + tv);
                assert forall|es: Seq<MetaEntryV>|
                    (lit_at(s@, i as int, ser_entries_rest(es) + seq!['}']) && wf_meta(
                        es,
                    )) implies (out@.map_values(|x: MetaEntry| x@) == es && j2 == i
                    + ser_entries_rest(es).len() + 1) by {
                    lemma_entries_step(s@, i as int, es);
                    assert(out@[0]@ == es[0]);
                    assert(tv.map_values(|x: MetaEntry| x@) == es.drop_first());
                    assert forall|k: int|
                        0 <= k < out@.len() implies out@.map_values(|x: MetaEntry| x@)[k]
                        == es[k] by {
                        if k > 0 {
                            assert(out@[k] == tv[k - 1]);
                            assert(tv.map_values(|x: MetaEntry| x@)[k - 1] == es.drop_first()[k
                                - 1]);
                        }
                    }
                    assert(out@.map_values(|x: MetaEntry| x@) =~= es);
                }
            }
            Some((out, j2))
        },
        None => {
            proof {
                assert forall|es: Seq<MetaEntryV>|
                    !(lit_at(s@, i as int, ser_entries_rest(es) + seq!['}']) && wf_meta(
                        es,
                    )) by {
                    if lit_at(s@, i as int, ser_entries_rest(es) + seq!['}']) && wf_meta(es) {
                        lemma_entries_step(s@, i as int, es);
                    }
                }
            }
            None
        },
    }
}

/// Shape of a whole metadata object inside braces.
proof fn lemma_meta_shape(s: Seq<char>, i: int, m: Seq<MetaEntryV>)
    requires
        lit_at(s, i, ser_meta(m)),
        wf_meta(m),
    ensures
        s[i] == '{',
        ser_meta(m).len() >= 2,
        m.len() == 0 ==> s[i + 1] == '}' && ser_meta(m).len() == 2,
        m.len() > 0 ==> s[i + 1] == '"' && entry_at(s, i + 1, m[0]) && lit_at(
            s,
            i + 1 + ser_entry(m[0]).len(),
            ser_entries_rest(m.drop_first()) + seq!['}'],
        ) && wf_meta(m.drop_first()) && ser_meta(m).len() == 2 + ser_entry(m[0]).len()
            + ser_entries_rest(m.drop_first()).len(),
{
    let t = ser_meta(m);
    let w = s.subrange(i, i + t.len());
    assert(w[0] == s[i]);
    if m.len() == 0 {
        assert(ser_entries(m) =~= Seq::<char>::empty());
        assert(t =~= seq!['{', '}']);
        assert(w[1] == s[i + 1]);
    } else {
        let tail = ser_entries_rest(m.drop_first()) + seq!['}'];
        assert(t =~= seq!['{'] + (ser_entry(m[0]) + tail));
        crate::jsonio::lemma_lit_split(s, i, seq!['{'], ser_entry(m[0]) + tail);
        crate::jsonio::lemma_lit_split(s, i + 1, ser_entry(m[0]), tail);
        let w1 = s.subrange(i + 1, i + 1 + ser_entry(m[0]).len() as int);
        assert(w1[0] == s[i + 1]);
        assert(ser_entry(m[0])[0] == ser_str(m[0].key)[0]);
        assert(ser_str(m[0].key)[0] == '"');
        let o = i + 1 + ser_entry(m[0]).len() as int;
        let w2 = s.subrange(o, o + tail.len());
        assert(w2[0] == s[o]);
        if m.drop_first().len() > 0 {
            assert(tail[0] == ',');
        } else {
            assert(ser_entries_rest(m.drop_first()) =~= Seq::<char>::empty());
            assert(tail[0] == '}');
        }
        assert(!is_numch(s[o]));
        assert(wf_mval(m[0].val));
        assert(forall|k: int|
            0 <= k < m.drop_first().len() ==> wf_mval((#[trigger] m.drop_first()[k]).val));
    }
}

/// Reads a whole metadata object.
#[verifier::rlimit(100)]
fn parse_meta(s: &Vec<char>, i: usize) -> (res: Option<(Metadata, usize)>)
    requires
        i <= s@.len(),
    ensures
        res matches Some(p) ==> wf_meta(p.0@),
        res matches Some(p) ==> i < p.1 <= s@.len(),
        forall|m: Seq<MetaEntryV>|
            (lit_at(s@, i as int, ser_meta(m)) && wf_meta(m)) ==> (res matches Some(p) && p.0@
                == m && p.1 == i + ser_meta(m).len()),
{
    if i >= s.len() || s[i] != '{' {
        proof {
            assert forall|m: Seq<MetaEntryV>|
                !(lit_at(s@, i as int, ser_meta(m)) && wf_meta(m)) by {
                if lit_at(s@, i as int, ser_meta(m)) && wf_meta(m) {
                    lemma_meta_shape(s@, i as int, m);
                }
            }
        }
        return None;
    }
    if s.len() - i < 2 {
        proof {
            assert forall|m: Seq<MetaEntryV>|
                !(lit_at(s@, i as int, ser_meta(m)) && wf_meta(m)) by {
                if lit_at(s@, i as int, ser_meta(m)) && wf_meta(m) {
                    lemma_meta_shape(s@, i as int, m);
                }
            }
        }
        return None;
    }
    if s[i + 1] == '}' {
        let md = Metadata { entries: Vec::new() };
        proof {
            assert forall|m: Seq<MetaEntryV>|
                (lit_at(s@, i as int, ser_meta(m)) && wf_meta(m)) implies (md@ == m && i + 2
                == i + ser_meta(m).len()) by {
                lemma_meta_shape(s@, i as int, m);
                assert(m =~= Seq::<MetaEntryV>::empty());
                assert(md@ =~= m);
            }
            assert(md@ =~= Seq::<MetaEntryV>::empty());
        }
        return Some((md, i + 2));
    }
    let ep = match parse_entry(s, i + 1) {
        Some(p) => p,
        None => {
            proof {
                assert forall|m: Seq<MetaEntryV>|
                    !(lit_at(s@, i as int, ser_meta(m)) && wf_meta(m)) by {
                    if lit_at(s@, i as int, ser_meta(m)) && wf_meta(m) {
                        lemma_meta_shape(s@, i as int, m);
                    }
                }
            }
            return None;
        },
    };
    let (entry, j) = ep;
    match parse_entries_rest(s, j) {
        Some(p) => {
            let (tail, j2) = p;
            let ghost tv = tail@;
            let mut entries: Vec<MetaEntry> = Vec::new();
            entries.push(entry);
            let mut rest = tail;
            entries.append(&mut rest);
            let ghost ev = entries@;
            let md = Metadata { entries };
            proof {
                assert(ev == seq![ev[0]] + tv);
                assert forall|m: Seq<MetaEntryV>|
                    (lit_at(s@, i as int, ser_meta(m)) && wf_meta(m)) implies (md@ == m && j2
                    == i + ser_meta(m).len()) by {
                    lemma_meta_shape(s@, i as int, m);
                    assert(ev[0]@ == m[0]);
                    assert(tv.map_values(|x: MetaEntry| x@) == m.drop_first());
                    assert forall|k: int|
                        0 <= k < ev.len() implies ev.map_values(|x: MetaEntry| x@)[k]
                        == m[k] by {
                        if k > 0 {
                            assert(ev[k] == tv[k - 1]);
                            assert(tv.map_values(|x: MetaEntry| x@)[k - 1] == m.drop_first()[k
                                - 1]);
                        }
                    }
                    assert(md@ == ev.map_values(|x: MetaEntry| x@));
                    assert(md@ =~= m);
                }
            }
            Some((md, j2))
        },
        None => {
            proof {
                assert forall|m: Seq<MetaEntryV>|
                    !(lit_at(s@, i as int, ser_meta(m)) && wf_meta(m)) by {
                    if lit_at(s@, i as int, ser_meta(m)) && wf_meta(m) {
                        lemma_meta_shape(s@, i as int, m);
                    }
                }
            }
            None
        },
    }
}


// --- Reading records and chains back ---

/// A record in canonical form at `i`.
pub open spec fn record_at(s: Seq<char>, i: int, rv: RecordV) -> bool {
    &&& lit_at(s, i, ser_record(rv))
    &&& wf_record(rv)
}

/// The thirteen pieces of a record's canonical form, at their offsets.
proof fn lemma_record_pieces(s: Seq<char>, i: int, rv: RecordV)
    requires
        lit_at(s, i, ser_record(rv)),
    ensures
        lit_at(s, i, k_open_ts()),
        lit_at(s, ro1(i, rv), dec_i64(rv.ts)),
        lit_at(s, ro2(i, rv), k_event()),
        lit_at(s, ro3(i, rv), ser_str(rv.event_type)),
        lit_at(s, ro4(i, rv), k_hash()),
        lit_at(s, ro5(i, rv), ser_str(rv.data_hash)),
        lit_at(s, ro6(i, rv), k_ver()),
        lit_at(s, ro7(i, rv), ser_str(rv.software_version)),
        lit_at(s, ro8(i, rv), k_prev()),
        lit_at(s, ro9(i, rv), ser_prev(rv.prev)),
        lit_at(s, ro10(i, rv), k_meta()),
        lit_at(s, ro11(i, rv), ser_meta(rv.meta)),
        lit_at(s, ro12(i, rv), seq!['}']),
        i + ser_record(rv).len() == ro12(i, rv) + 1,
{
    let p1 = k_open_ts();
    let p2 = dec_i64(rv.ts);
    let p3 = k_event();
    let p4 = ser_str(rv.event_type);
    let p5 = k_hash();
    let p6 = ser_str(rv.data_hash);
    let p7 = k_ver();
    let p8 = ser_str(rv.software_version);
    let p9 = k_prev();
    let p10 = ser_prev(rv.prev);
    let p11 = k_meta();
    let p12 = ser_meta(rv.meta);
    let p13 = seq!['}'];
    let c2 = p1 + p2;
    let c3 = c2 + p3;
    let c4 = c3 + p4;
    let c5 = c4 + p5;
    let c6 = c5 + p6;
    let c7 = c6 + p7;
    let c8 = c7 + p8;
    let c9 = c8 + p9;
    let c10 = c9 + p10;
    let c11 = c10 + p11;
    let c12 = c11 + p12;
    reveal(ser_record);
    assert(ser_record(rv) == c12 + p13);
    crate::jsonio::lemma_lit_split(s, i, c12, p13);
    crate::jsonio::lemma_lit_split(s, i, c11, p12);
    crate::jsonio::lemma_lit_split(s, i, c10, p11);
    crate::jsonio::lemma_lit_split(s, i, c9, p10);
    crate::jsonio::lemma_lit_split(s, i, c8, p9);
    crate::jsonio::lemma_lit_split(s, i, c7, p8);
    crate::jsonio::lemma_lit_split(s, i, c6, p7);
    crate::jsonio::lemma_lit_split(s, i, c5, p6);
    crate::jsonio::lemma_lit_split(s, i, c4, p5);
    crate::jsonio::lemma_lit_split(s, i, c3, p4);
    crate::jsonio::lemma_lit_split(s, i, c2, p3);
    crate::jsonio::lemma_lit_split(s, i, p1, p2);
}

// Offsets of the pieces of a record's canonical form, relative to its
// start `i`: each one starts where the previous piece ends.
pub open spec fn ro1(i: int, rv: RecordV) -> int {
    i + k_open_ts().len()
}

pub open spec fn ro2(i: int, rv: RecordV) -> int {
    ro1(i, rv) + dec_i64(rv.ts).len()
}

pub open spec fn ro3(i: int, rv: RecordV) -> int {
    ro2(i, rv) + k_event().len()
}

pub open spec fn ro4(i: int, rv: RecordV) -> int {
    ro3(i, rv) + ser_str(rv.event_type).len()
}

pub open spec fn ro5(i: int, rv: RecordV) -> int {
    ro4(i, rv) + k_hash().len()
}

pub open spec fn ro6(i: int, rv: RecordV) -> int {
    ro5(i, rv) + ser_str(rv.data_hash).len()
}

pub open spec fn ro7(i: int, rv: RecordV) -> int {
    ro6(i, rv) + k_ver().len()
}

pub open spec fn ro8(i: int, rv: RecordV) -> int {
    ro7(i, rv) + ser_str(rv.software_version).len()
}

pub open spec fn ro9(i: int, rv: RecordV) -> int {
    ro8(i, rv) + k_prev().len()
}

pub open spec fn ro10(i: int, rv: RecordV) -> int {
    ro9(i, rv) + ser_prev(rv.prev).len()
}

pub open spec fn ro11(i: int, rv: RecordV) -> int {
    ro10(i, rv) + k_meta().len()
}

pub open spec fn ro12(i: int, rv: RecordV) -> int {
    ro11(i, rv) + ser_meta(rv.meta).len()
}

/// The timestamp digits of a record end at the comma of the next key.
proof fn lemma_ts_window(s: Seq<char>, i: int, rv: RecordV, j1: int)
    requires
        record_at(s, i, rv),
        j1 == ro1(i, rv),
    ensures
        lit_at(s, j1, dec_i64(rv.ts)),
        num_end(s, j1 + dec_i64(rv.ts).len()),
{
    lemma_record_pieces(s, i, rv);
    let o = j1 + dec_i64(rv.ts).len() as int;
    assert(o == ro2(i, rv));
    let w = s.subrange(o, o + k_event().len());
    assert(w[0] == s[o]);
    assert(k_event()[0] == ',');
}

/// The previous-hash field of a record is the word null or a quoted string.
proof fn lemma_prev_window(s: Seq<char>, start: int, rv: RecordV, j9: int)
    requires
        record_at(s, start, rv),
        j9 == ro9(start, rv),
    ensures
        lit_at(s, j9, ser_prev(rv.prev)),
        rv.prev is None <==> s[j9] == 'n',
        rv.prev is Some ==> crate::jsonio::jstr_at(s, j9, rv.prev->0) && ser_prev(
            rv.prev,
        ).len() == ser_str(rv.prev->0).len(),
        rv.prev is None ==> lit_at(s, j9, k_null()) && ser_prev(rv.prev).len()
            == k_null().len(),
{
    lemma_record_pieces(s, start, rv);
    let w = s.subrange(j9, j9 + ser_prev(rv.prev).len());
    assert(w[0] == s[j9]);
    match rv.prev {
        Option::Some(h) => {
            assert(ser_prev(rv.prev)[0] == '"');
        },
        Option::None => {
            assert(ser_prev(rv.prev)[0] == 'n');
        },
    }
}

/// Reads the timestamp, event type and data hash of a record.
#[verifier::rlimit(100)]
fn parse_record_p1(s: &Vec<char>, i: usize) -> (res: Option<(i64, String, String, usize)>)
    requires
        i <= s@.len(),
    ensures
        res matches Some(p) ==> i < p.3 <= s@.len(),
        forall|rv: RecordV|
            record_at(s@, i as int, rv) ==> (res matches Some(p) && p.0 == rv.ts && p.1@
                == rv.event_type && p.2@ == rv.data_hash && p.3 == ro6(i as int, rv)),
{
    proof {
        lemma_keys();
    }
    let j1 = match eat_lit(s, i, "{\"timestamp\":") {
        Some(j) => j,
        None => {
            proof {
                assert forall|rv: RecordV| !record_at(s@, i as int, rv) by {
                    if record_at(s@, i as int, rv) {
                        lemma_record_pieces(s@, i as int, rv);
                        assert(lit_at(s@, i as int, "{\"timestamp\":"@));
                    }
                }
            }
            return None;
        },
    };
    let tp = match parse_i64(s, j1) {
        Some(p) => p,
        None => {
            proof {
                assert forall|rv: RecordV| !record_at(s@, i as int, rv) by {
                    if record_at(s@, i as int, rv) {
                        lemma_ts_window(s@, i as int, rv, j1 as int);
                    }
                }
            }
            return None;
        },
    };
    let (ts, j2) = tp;
    let j3 = match eat_lit(s, j2, ",\"event_type\":") {
        Some(j) => j,
        None => {
            proof {
                assert forall|rv: RecordV| !record_at(s@, i as int, rv) by {
                    if record_at(s@, i as int, rv) {
                        lemma_record_pieces(s@, i as int, rv);
                        lemma_ts_window(s@, i as int, rv, j1 as int);
                        assert(j2 == ro2(i as int, rv));
                        assert(lit_at(s@, j2 as int, ",\"event_type\":"@));
                    }
                }
            }
            return None;
        },
    };
    let ep = match parse_jstring(s, j3) {
        Some(p) => p,
        None => {
            proof {
                assert forall|rv: RecordV| !record_at(s@, i as int, rv) by {
                    if record_at(s@, i as int, rv) {
                        lemma_record_pieces(s@, i as int, rv);
                        lemma_ts_window(s@, i as int, rv, j1 as int);
                        assert(j3 == ro3(i as int, rv));
                        assert(crate::jsonio::jstr_at(s@, j3 as int, rv.event_type));
                    }
                }
            }
            return None;
        },
    };
    let (event, j4) = ep;
    let j5 = match eat_lit(s, j4, ",\"data_hash\":") {
        Some(j) => j,
        None => {
            proof {
                assert forall|rv: RecordV| !record_at(s@, i as int, rv) by {
                    if record_at(s@, i as int, rv) {
                        lemma_record_pieces(s@, i as int, rv);
                        lemma_ts_window(s@, i as int, rv, j1 as int);
                        assert(crate::jsonio::jstr_at(s@, j3 as int, rv.event_type));
                        assert(j4 == ro4(i as int, rv));
                        assert(lit_at(s@, j4 as int, ",\"data_hash\":"@));
                    }
                }
            }
            return None;
        },
    };
    let hp = match parse_jstring(s, j5) {
        Some(p) => p,
        None => {
            proof {
                assert forall|rv: RecordV| !record_at(s@, i as int, rv) by {
                    if record_at(s@, i as int, rv) {
                        lemma_record_pieces(s@, i as int, rv);
                        lemma_ts_window(s@, i as int, rv, j1 as int);
                        assert(crate::jsonio::jstr_at(s@, j3 as int, rv.event_type));
                        assert(j5 == ro5(i as int, rv));
                        assert(crate::jsonio::jstr_at(s@, j5 as int, rv.data_hash));
                    }
                }
            }
            return None;
        },
    };
    let (hash, j6) = hp;
    let ghost eview = event@;
    let ghost hview = hash@;
    let result = Some((ts, event, hash, j6));
    proof {
        assert forall|rv: RecordV|
            record_at(s@, i as int, rv) implies (result matches Some(p) && p.0 == rv.ts
            && p.1@ == rv.event_type && p.2@ == rv.data_hash && p.3 == ro6(i as int, rv)) by {
            lemma_record_pieces(s@, i as int, rv);
            lemma_ts_window(s@, i as int, rv, j1 as int);
            assert(ts == rv.ts);
            assert(j2 == ro2(i as int, rv));
            assert(j3 == ro3(i as int, rv));
            assert(crate::jsonio::jstr_at(s@, j3 as int, rv.event_type));
            assert(eview == rv.event_type);
            assert(j4 == ro4(i as int, rv));
            assert(j5 == ro5(i as int, rv));
            assert(crate::jsonio::jstr_at(s@, j5 as int, rv.data_hash));
            assert(hview == rv.data_hash);
            assert(j6 == ro6(i as int, rv));
        }
    }
    result
}

/// Reads the software version and previous hash of a record whose front
/// was read from position `start`.
#[verifier::rlimit(100)]
fn parse_record_p2(s: &Vec<char>, j: usize, Ghost(start): Ghost<int>) -> (res: Option<
    (String, Option<String>, usize),
>)
    requires
        j <= s@.len(),
    ensures
        res matches Some(p) ==> j < p.2 <= s@.len(),
        forall|rv: RecordV|
            (record_at(s@, start, rv) && j == ro6(start, rv)) ==> (res matches Some(p) && p.0@
                == rv.software_version && (match p.1 {
                Option::Some(h) => rv.prev == Option::Some(h@),
                Option::None => rv.prev is None,
            }) && p.2 == ro10(start, rv)),
{
    proof {
        lemma_keys();
    }
    let j7 = match eat_lit(s, j, ",\"software_version\":") {
        Some(x) => x,
        None => {
            proof {
                assert forall|rv: RecordV|
                    !(record_at(s@, start, rv) && j == ro6(start, rv)) by {
                    if record_at(s@, start, rv) && j == ro6(start, rv) {
                        lemma_record_pieces(s@, start, rv);
                        assert(lit_at(s@, j as int, ",\"software_version\":"@));
                    }
                }
            }
            return None;
        },
    };
    let vp = match parse_jstring(s, j7) {
        Some(p) => p,
        None => {
            proof {
                assert forall|rv: RecordV|
                    !(record_at(s@, start, rv) && j == ro6(start, rv)) by {
                    if record_at(s@, start, rv) && j == ro6(start, rv) {
                        lemma_record_pieces(s@, start, rv);
                        assert(j7 == ro7(start, rv));
                        assert(crate::jsonio::jstr_at(s@, j7 as int, rv.software_version));
                    }
                }
            }
            return None;
        },
    };
    let (ver, j8) = vp;
    let j9 = match eat_lit(s, j8, ",\"previous_record_hash\":") {
        Some(x) => x,
        None => {
            proof {
                assert forall|rv: RecordV|
                    !(record_at(s@, start, rv) && j == ro6(start, rv)) by {
                    if record_at(s@, start, rv) && j == ro6(start, rv) {
                        lemma_record_pieces(s@, start, rv);
                        assert(crate::jsonio::jstr_at(s@, j7 as int, rv.software_version));
                        assert(j8 == ro8(start, rv));
                        assert(lit_at(s@, j8 as int, ",\"previous_record_hash\":"@));
                    }
                }
            }
            return None;
        },
    };
    if j9 >= s.len() {
        proof {
            assert forall|rv: RecordV|
                !(record_at(s@, start, rv) && j == ro6(start, rv)) by {
                if record_at(s@, start, rv) && j == ro6(start, rv) {
                    lemma_record_pieces(s@, start, rv);
                    assert(crate::jsonio::jstr_at(s@, j7 as int, rv.software_version));
                    assert(j9 == ro9(start, rv));
                    lemma_prev_window(s@, start, rv, j9 as int);
                }
            }
        }
        return None;
    }
    if s[j9] == 'n' {
        match eat_lit(s, j9, "null") {
            Some(j10) => {
                proof {
                    assert forall|rv: RecordV|
                        (record_at(s@, start, rv) && j == ro6(start, rv)) implies (ver@
                        == rv.software_version && rv.prev is None && j10 == ro10(
                        start,
                        rv,
                    )) by {
                        lemma_record_pieces(s@, start, rv);
                        assert(crate::jsonio::jstr_at(s@, j7 as int, rv.software_version));
                        assert(j9 == ro9(start, rv));
                        lemma_prev_window(s@, start, rv, j9 as int);
                    }
                }
                Some((ver, Option::None, j10))
            },
            None => {
                proof {
                    assert forall|rv: RecordV|
                        !(record_at(s@, start, rv) && j == ro6(start, rv)) by {
                        if record_at(s@, start, rv) && j == ro6(start, rv) {
                            lemma_record_pieces(s@, start, rv);
                            assert(crate::jsonio::jstr_at(
                                s@,
                                j7 as int,
                                rv.software_version,
                            ));
                            assert(j9 == ro9(start, rv));
                            lemma_prev_window(s@, start, rv, j9 as int);
                            assert(lit_at(s@, j9 as int, "null"@));
                        }
                    }
                }
                None
            },
        }
    } else {
        match parse_jstring(s, j9) {
            Some(p) => {
                proof {
                    assert forall|rv: RecordV|
                        (record_at(s@, start, rv) && j == ro6(start, rv)) implies (ver@
                        == rv.software_version && rv.prev == Option::Some(p.0@) && p.1
                        == ro10(start, rv)) by {
                        lemma_record_pieces(s@, start, rv);
                        assert(crate::jsonio::jstr_at(s@, j7 as int, rv.software_version));
                        assert(j9 == ro9(start, rv));
                        lemma_prev_window(s@, start, rv, j9 as int);
                        assert(crate::jsonio::jstr_at(s@, j9 as int, rv.prev->0));
                    }
                }
                Some((ver, Option::Some(p.0), p.1))
            },
            None => {
                proof {
                    assert forall|rv: RecordV|
                        !(record_at(s@, start, rv) && j == ro6(start, rv)) by {
                        if record_at(s@, start, rv) && j == ro6(start, rv) {
                            lemma_record_pieces(s@, start, rv);
                            assert(crate::jsonio::jstr_at(
                                s@,
                                j7 as int,
                                rv.software_version,
                            ));
                            assert(j9 == ro9(start, rv));
                            lemma_prev_window(s@, start, rv, j9 as int);
                            assert(crate::jsonio::jstr_at(s@, j9 as int, rv.prev->0));
                        }
                    }
                }
                None
            },
        }
    }
}

/// Reads one record.
#[verifier::rlimit(100)]
fn parse_record(s: &Vec<char>, i: usize) -> (res: Option<(ProvenanceRecord, usize)>)
    requires
        i <= s@.len(),
    ensures
        res matches Some(p) ==> i < p.1 <= s@.len() && wf_record(p.0@),
        forall|rv: RecordV|
            record_at(s@, i as int, rv) ==> (res matches Some(p) && p.0@ == rv && p.1 == i
                + ser_record(rv).len()),
    decreases s@.len() - i,
{
    proof {
        lemma_keys();
    }
    let fp = match parse_record_p1(s, i) {
        Some(p) => p,
        None => {
            return None;
        },
    };
    let (ts, event, hash, j6) = fp;
    let sp = match parse_record_p2(s, j6, Ghost(i as int)) {
        Some(p) => p,
        None => {
            return None;
        },
    };
    let (ver, prev, j10) = sp;
    let j11 = match eat_lit(s, j10, ",\"metadata\":") {
        Some(j) => j,
        None => {
            proof {
                assert forall|rv: RecordV| !record_at(s@, i as int, rv) by {
                    if record_at(s@, i as int, rv) {
                        lemma_record_pieces(s@, i as int, rv);
                        assert(j10 == ro10(i as int, rv));
                        assert(lit_at(s@, j10 as int, ",\"metadata\":"@));
                    }
                }
            }
            return None;
        },
    };
    let mp = match parse_meta(s, j11) {
        Some(p) => p,
        None => {
            proof {
                assert forall|rv: RecordV| !record_at(s@, i as int, rv) by {
                    if record_at(s@, i as int, rv) {
                        lemma_record_pieces(s@, i as int, rv);
                        assert(j11 == ro11(i as int, rv));
                        assert(lit_at(s@, j11 as int, ser_meta(rv.meta)));
                    }
                }
            }
            return None;
        },
    };
    let (meta, j12) = mp;
    let j13 = match eat_lit(s, j12, "}") {
        Some(j) => j,
        None => {
            proof {
                reveal_strlit("}");
                assert("}"@ =~= seq!['}']);
                assert forall|rv: RecordV| !record_at(s@, i as int, rv) by {
                    if record_at(s@, i as int, rv) {
                        lemma_record_pieces(s@, i as int, rv);
                        assert(lit_at(s@, j11 as int, ser_meta(rv.meta)));
                        assert(j12 == ro12(i as int, rv));
                        assert(lit_at(s@, j12 as int, "}"@));
                    }
                }
            }
            return None;
        },
    };
    let rec = ProvenanceRecord {
        timestamp_millis: ts,
        event_type: event,
        data_hash: hash,
        software_version: ver,
        previous_record_hash: prev,
        metadata: meta,
    };
    proof {
        reveal_strlit("}");
        assert("}"@ =~= seq!['}']);
        assert forall|rv: RecordV|
            record_at(s@, i as int, rv) implies (rec@ == rv && j13 == i + ser_record(
            rv,
        ).len()) by {
            lemma_record_pieces(s@, i as int, rv);
            assert(lit_at(s@, j11 as int, ser_meta(rv.meta)));
            assert(j12 == ro12(i as int, rv));
            assert(rec@.ts == rv.ts);
            assert(rec@.event_type == rv.event_type);
            assert(rec@.data_hash == rv.data_hash);
            assert(rec@.software_version == rv.software_version);
            assert(rec@.prev == rv.prev);
            assert(rec@.meta == rv.meta);
        }
    }
    Some((rec, j13))
}

/// Shape of a nonempty record-list tail.
proof fn lemma_recs_step(s: Seq<char>, i: int, rs: Seq<RecordV>)
    requires
        lit_at(s, i, ser_recs_rest(rs) + seq![']']),
        wf_records(rs),
        s[i] == ',',
    ensures
        rs.len() > 0,
        record_at(s, i + 1, rs[0]),
        lit_at(s, i + 1 + ser_record(rs[0]).len(), ser_recs_rest(rs.drop_first()) + seq![']']),
        wf_records(rs.drop_first()),
        ser_recs_rest(rs).len() == 1 + ser_record(rs[0]).len() + ser_recs_rest(
            rs.drop_first(),
        ).len(),
{
    let t = ser_recs_rest(rs) + seq![']'];
    let w = s.subrange(i, i + t.len());
    assert(w[0] == s[i]);
    if rs.len() == 0 {
        assert(t[0] == ']');
    }
    assert(t =~= seq![','] + (ser_record(rs[0]) + (ser_recs_rest(rs.drop_first())
        + seq![']'])));
    crate::jsonio::lemma_lit_split(
        s,
        i,
        seq![','],
        ser_record(rs[0]) + (ser_recs_rest(rs.drop_first()) + seq![']']),
    );
    crate::jsonio::lemma_lit_split(
        s,
        i + 1,
        ser_record(rs[0]),
        ser_recs_rest(rs.drop_first()) + seq![']'],
    );
    assert(wf_record(rs[0]));
    assert(forall|k: int|
        0 <= k < rs.drop_first().len() ==> wf_record(#[trigger] rs.drop_first()[k]));
}

/// Shape of an empty or nonempty record-list tail at its first character.
proof fn lemma_recs_head(s: Seq<char>, i: int, rs: Seq<RecordV>)
    requires
        lit_at(s, i, ser_recs_rest(rs) + seq![']']),
    ensures
        rs.len() == 0 ==> s[i] == ']' && ser_recs_rest(rs).len() == 0,
        rs.len() > 0 ==> s[i] == ',',
{
    let t = ser_recs_rest(rs) + seq![']'];
    let w = s.subrange(i, i + t.len());
    assert(w[0] == s[i]);
    if rs.len() == 0 {
        assert(ser_recs_rest(rs) =~= Seq::<char>::empty());
        assert(t[0] == ']');
    } else {
        assert(t[0] == ',');
    }
}

/// Reads the tail of a record list: zero or more `,{...}` parts and the
/// closing bracket.
#[verifier::rlimit(100)]
fn parse_recs_rest(s: &Vec<char>, i: usize) -> (res: Option<(Vec<ProvenanceRecord>, usize)>)
    requires
        i <= s@.len(),
    ensures
        res matches Some(p) ==> i < p.1 <= s@.len(),
        forall|rs: Seq<RecordV>|
            (lit_at(s@, i as int, ser_recs_rest(rs) + seq![']']) && wf_records(rs)) ==> (
            res matches Some(p) && p.0@.map_values(|x: ProvenanceRecord| x@) == rs && p.1 == i
                + ser_recs_rest(rs).len() + 1),
    decreases s@.len() - i,
{
    if i >= s.len() {
        return None;
    }
    let c = s[i];
    if c == ']' {
        let out: Vec<ProvenanceRecord> = Vec::new();
        proof {
            assert forall|rs: Seq<RecordV>|
                (lit_at(s@, i as int, ser_recs_rest(rs) + seq![']']) && wf_records(
                    rs,
                )) implies rs == Seq::<RecordV>::empty() && out@.map_values(
                |x: ProvenanceRecord| x@,
            ) == rs by {
                lemma_recs_head(s@, i as int, rs);
                assert(rs =~= Seq::<RecordV>::empty());
                assert(out@.map_values(|x: ProvenanceRecord| x@) =~= rs);
            }
        }
        return Some((out, i + 1));
    }
    if c != ',' {
        proof {
            assert forall|rs: Seq<RecordV>|
                !(lit_at(s@, i as int, ser_recs_rest(rs) + seq![']']) && wf_records(rs)) by {
                if lit_at(s@, i as int, ser_recs_rest(rs) + seq![']']) {
                    lemma_recs_head(s@, i as int, rs);
                }
            }
        }
        return None;
    }
    let fp = match parse_record(s, i + 1) {
        Some(p) => p,
        None => {
            proof {
                assert forall|rs: Seq<RecordV>|
                    !(lit_at(s@, i as int, ser_recs_rest(rs) + seq![']']) && wf_records(
                        rs,
                    )) by {
                    if lit_at(s@, i as int, ser_recs_rest(rs) + seq![']']) && wf_records(rs) {
                        lemma_recs_step(s@, i as int, rs);
                    }
                }
            }
            return None;
        },
    };
    let (first, j) = fp;
    match parse_recs_rest(s, j) {
        Some(p) => {
            let (tail, j2) = p;
            let ghost tv = tail@;
            let mut out: Vec<ProvenanceRecord> = Vec::new();
            out.push(first);
            let mut rest = tail;
            out.append(&mut rest);
            proof {
                assert(out@ == seq![out@[0]] + tv);
                assert forall|rs: Seq<RecordV>|
                    (lit_at(s@, i as int, ser_recs_rest(rs) + seq![']']) && wf_records(
                        rs,
                    )) implies (out@.map_values(|x: ProvenanceRecord| x@) == rs && j2 == i
                    + ser_recs_rest(rs).len() + 1) by {
                    lemma_recs_step(s@, i as int, rs);
                    assert(out@[0]@ == rs[0]);
                    assert(tv.map_values(|x: ProvenanceRecord| x@) == rs.drop_first());
                    assert forall|k: int|
                        0 <= k < out@.len() implies out@.map_values(|x: ProvenanceRecord| x@)[k]
                        == rs[k] by {
                        if k > 0 {
                            assert(out@[k] == tv[k - 1]);
                            assert(tv.map_values(|x: ProvenanceRecord| x@)[k - 1]
                                == rs.drop_first()[k - 1]);
                        }
                    }
                    assert(out@.map_values(|x: ProvenanceRecord| x@) =~= rs);
                }
            }
            Some((out, j2))
        },
        None => {
            proof {
                assert forall|rs: Seq<RecordV>|
                    !(lit_at(s@, i as int, ser_recs_rest(rs) + seq![']']) && wf_records(
                        rs,
                    )) by {
                    if lit_at(s@, i as int, ser_recs_rest(rs) + seq![']']) && wf_records(rs) {
                        lemma_recs_step(s@, i as int, rs);
                    }
                }
            }
            None
        },
    }
}

/// Shape of a whole chain inside brackets.
proof fn lemma_chain_shape(s: Seq<char>, rs: Seq<RecordV>)
    requires
        s == ser_chain(rs),
        wf_records(rs),
    ensures
        s.len() >= 2,
        s[0] == '[',
        rs.len() == 0 ==> s.len() == 2 && s[1] == ']',
        rs.len() > 0 ==> s[1] == '{' && record_at(s, 1, rs[0]) && lit_at(
            s,
            1 + ser_record(rs[0]).len() as int,
            ser_recs_rest(rs.drop_first()) + seq![']'],
        ) && wf_records(rs.drop_first()) && s.len() == 2 + ser_record(rs[0]).len()
            + ser_recs_rest(rs.drop_first()).len(),
{
    assert(s.subrange(0, s.len() as int) =~= s);
    assert(lit_at(s, 0, ser_chain(rs)));
    let w = s.subrange(0, ser_chain(rs).len() as int);
    assert(w[0] == s[0]);
    if rs.len() == 0 {
        assert(ser_recs(rs) =~= Seq::<char>::empty());
        assert(ser_chain(rs) =~= seq!['[', ']']);
        assert(w[1] == s[1]);
    } else {
        let tail = ser_recs_rest(rs.drop_first()) + seq![']'];
        assert(ser_chain(rs) =~= seq!['['] + (ser_record(rs[0]) + tail));
        crate::jsonio::lemma_lit_split(s, 0, seq!['['], ser_record(rs[0]) + tail);
        crate::jsonio::lemma_lit_split(s, 1, ser_record(rs[0]), tail);
        assert(wf_record(rs[0]));
        lemma_record_pieces(s, 1, rs[0]);
        let w1 = s.subrange(1, 1 + k_open_ts().len() as int);
        assert(w1[0] == s[1]);
        assert(k_open_ts()[0] == '{');
        assert(forall|k: int|
            0 <= k < rs.drop_first().len() ==> wf_record(#[trigger] rs.drop_first()[k]));
    }
}

impl ProvenanceChain {
    /// Serializes the whole chain to its canonical text.
    pub fn to_json(&self) -> (r: Result<String, String>)
        ensures
            r matches Ok(s) && s@ == ser_chain(self@),
    {
        let mut out: Vec<char> = Vec::new();
        out.push('[');
        if self.records.len() > 0 {
            w_record(&mut out, &self.records[0]);
            self.w_recs_rest(&mut out, 1);
            proof {
                assert(self@[0] == self.records@[0]@);
                assert(self@.drop_first() =~= self@.skip(1));
                assert(out@ =~= seq!['['] + ser_recs(self@));
            }
        } else {
            proof {
                assert(self@ =~= Seq::<RecordV>::empty());
                assert(out@ =~= seq!['['] + ser_recs(self@));
            }
        }
        out.push(']');
        proof {
            assert(out@ =~= ser_chain(self@));
        }
        Result::Ok(chars_to_string(&out))
    }

    /// Appends the canonical form of the chain's tail, from `k` on.
    fn w_recs_rest(&self, out: &mut Vec<char>, k: usize)
        requires
            k <= self.records@.len(),
        ensures
            final(out)@ == old(out)@ + ser_recs_rest(self@.skip(k as int)),
        decreases self.records@.len() - k,
    {
        if k == self.records.len() {
            proof {
                assert(self@.skip(k as int) =~= Seq::<RecordV>::empty());
            }
        } else {
            out.push(',');
            w_record(out, &self.records[k]);
            self.w_recs_rest(out, k + 1);
            proof {
                assert(self@.skip(k as int)[0] == self@[k as int]);
                assert(self@[k as int] == self.records@[k as int]@);
                assert(self@.skip(k as int).drop_first() =~= self@.skip(k as int + 1));
                assert(final(out)@ =~= old(out)@ + ser_recs_rest(self@.skip(k as int)));
            }
        }
    }

    /// Reads a chain back from its canonical text.  Whenever the text is
    /// the canonical serialization of some record sequence, the chain that
    /// comes back holds exactly those records, in order: together with
    /// `to_json` this is the ledger round trip.
    pub fn from_json(json_str: &str) -> (r: Result<ProvenanceChain, String>)
        ensures
            forall|rs: Seq<RecordV>|
                (wf_records(rs) && json_str@ == ser_chain(rs)) ==> (r matches Ok(c) && c@
                    == rs),
            r matches Ok(c) ==> json_str@ == ser_chain(c@),
    {
        let cs = str_chars(json_str);
        let n = cs.len();
        if n < 2 || cs[0] != '[' {
            proof {
                assert forall|rs: Seq<RecordV>|
                    !(wf_records(rs) && json_str@ == ser_chain(rs)) by {
                    if wf_records(rs) && json_str@ == ser_chain(rs) {
                        lemma_chain_shape(cs@, rs);
                    }
                }
            }
            return Result::Err(String::from_str("not a provenance chain serialization"));
        }
        if cs[1] == ']' {
            if n == 2 {
                let chain = ProvenanceChain { records: Vec::new() };
                proof {
                    assert forall|rs: Seq<RecordV>|
                        (wf_records(rs) && json_str@ == ser_chain(rs)) implies chain@ == rs by {
                        lemma_chain_shape(cs@, rs);
                        if rs.len() > 0 {
                            assert(cs@[1] == '{');
                        }
                        assert(rs =~= Seq::<RecordV>::empty());
                        assert(chain@ =~= rs);
                    }
                    assert(chain@ =~= Seq::<RecordV>::empty());
                    assert(ser_recs(chain@) =~= Seq::<char>::empty());
                    assert(json_str@ =~= ser_chain(chain@));
                }
                return Result::Ok(chain);
            }
            proof {
                assert forall|rs: Seq<RecordV>|
                    !(wf_records(rs) && json_str@ == ser_chain(rs)) by {
                    if wf_records(rs) && json_str@ == ser_chain(rs) {
                        lemma_chain_shape(cs@, rs);
                        if rs.len() > 0 {
                            assert(cs@[1] == '{');
                        }
                    }
                }
            }
            return Result::Err(String::from_str("not a provenance chain serialization"));
        }
        let fp = match parse_record(&cs, 1) {
            Some(p) => p,
            None => {
                proof {
                    assert forall|rs: Seq<RecordV>|
                        !(wf_records(rs) && json_str@ == ser_chain(rs)) by {
                        if wf_records(rs) && json_str@ == ser_chain(rs) {
                            lemma_chain_shape(cs@, rs);
                            if rs.len() == 0 {
                                assert(cs@[1] == ']');
                            }
                        }
                    }
                }
                return Result::Err(String::from_str("not a provenance chain serialization"));
            },
        };
        let (first, j) = fp;
        let tp = match parse_recs_rest(&cs, j) {
            Some(p) => p,
            None => {
                proof {
                    assert forall|rs: Seq<RecordV>|
                        !(wf_records(rs) && json_str@ == ser_chain(rs)) by {
                        if wf_records(rs) && json_str@ == ser_chain(rs) {
                            lemma_chain_shape(cs@, rs);
                            if rs.len() == 0 {
                                assert(cs@[1] == ']');
                            }
                        }
                    }
                }
                return Result::Err(String::from_str("not a provenance chain serialization"));
            },
        };
        let (tail, j2) = tp;
        if j2 != n {
            proof {
                assert forall|rs: Seq<RecordV>|
                    !(wf_records(rs) && json_str@ == ser_chain(rs)) by {
                    if wf_records(rs) && json_str@ == ser_chain(rs) {
                        lemma_chain_shape(cs@, rs);
                        if rs.len() == 0 {
                            assert(cs@[1] == ']');
                        }
                    }
                }
            }
            return Result::Err(String::from_str("not a provenance chain serialization"));
        }
        let ghost tv = tail@;
        let mut records: Vec<ProvenanceRecord> = Vec::new();
        records.push(first);
        let mut rest = tail;
        records.append(&mut rest);
        let ghost ev = records@;
        let chain = ProvenanceChain { records };
        proof {
            assert(ev == seq![ev[0]] + tv);
            assert forall|rs: Seq<RecordV>|
                (wf_records(rs) && json_str@ == ser_chain(rs)) implies chain@ == rs by {
                lemma_chain_shape(cs@, rs);
                if rs.len() == 0 {
                    assert(cs@[1] == ']');
                }
                assert(ev[0]@ == rs[0]);
                assert(tv.map_values(|x: ProvenanceRecord| x@) == rs.drop_first());
                assert forall|k: int|
                    0 <= k < ev.len() implies ev.map_values(|x: ProvenanceRecord| x@)[k]
                    == rs[k] by {
                    if k > 0 {
                        assert(ev[k] == tv[k - 1]);
                        assert(tv.map_values(|x: ProvenanceRecord| x@)[k - 1]
                            == rs.drop_first()[k - 1]);
                    }
                }
                assert(chain@ == ev.map_values(|x: ProvenanceRecord| x@));
                assert(chain@ =~= rs);
            }
        }
        // the parsed chain must serialize back to exactly the input, so
        // nothing that is not a canonical serialization comes back as one
        let echo = match chain.to_json() {
            Result::Ok(s) => s,
            Result::Err(_) => {
                return Result::Err(String::from_str("not a provenance chain serialization"));
            },
        };
        let original = json_str.to_owned();
        if !(echo == original) {
            proof {
                assert forall|rs: Seq<RecordV>|
                    !(wf_records(rs) && json_str@ == ser_chain(rs)) by {
                    if wf_records(rs) && json_str@ == ser_chain(rs) {
                        assert(chain@ == rs);
                        assert(echo@ == ser_chain(chain@));
                    }
                }
            }
            return Result::Err(String::from_str("not a provenance chain serialization"));
        }
        Result::Ok(chain)
    }
}


} // verus!
