//! Building a `Trace` from CSV records. The row layouts are told apart by
//! their field count (and, for 4 or 5 fields, by the file's header):
//! - 10 or more: Valkey MONITOR TRACE (`ts_us, seq, db_id, cmd, key,
//!   access_type, key_exists, obj_type, key_bytes, value_bytes`); key names
//!   are interned, unreadable sizes count as 0;
//! - 6 to 9: synthetic (`t, op, key, key_size, value_size, workload`), all
//!   numbers required;
//! - 4 or 5: in a file whose header is `key,op,value_size,workload_label`,
//!   synthetic rows of that layout (a numeric key is taken as its id, another
//!   is interned; key size 0; the value size is required); in any other
//!   file, Twitter (`timestamp, op, key, size`): key names interned, key
//!   size 0, an unreadable size counts as 0;
//! - fewer: minimal (`key, value_size`); a numeric key is taken as its id,
//!   another is interned; key size 0; the size is required.
use vstd::prelude::*;
use rustc_hash::{FxHashMap, FxHashSet};
use crate::fxmap::{fx_set_new, fx_set_insert};
use crate::sim::{
    Trace, is_repeat, first_total, distinct_count, totals_exact, lemma_first_total_mono, lemma_seen_step,
};
use crate::text::{
    trimmed, str_trim, str_contains_char, str_starts_with, str_eq, parse_u64_spec, parse_u64,
};

verus! {

/// Whether the first line of a trace file is a header to skip: it has no
/// comma, or (trimmed) starts with `t,`, `ts_us,` or `workload,`, or is the
/// synthetic header.
pub open spec fn is_header_spec(line: Seq<char>) -> bool {
    let t = trimmed(line);
    ||| !t.contains(',')
    ||| "t,"@.is_prefix_of(t)
    ||| "ts_us,"@.is_prefix_of(t)
    ||| "workload,"@.is_prefix_of(t)
    ||| is_synthetic_header_spec(line)
}

pub fn is_header_line(line: &str) -> (r: bool)
    ensures
        r == is_header_spec(line@),
{
    let t = str_trim(line);
    !str_contains_char(t, ',') || str_starts_with(t, "t,") || str_starts_with(t, "ts_us,")
        || str_starts_with(t, "workload,") || is_synthetic_header(line)
}

/// Whether the first line of a trace file is, trimmed, the header of the
/// synthetic layout: `key,op,value_size,workload_label`.
pub open spec fn is_synthetic_header_spec(line: Seq<char>) -> bool {
    trimmed(line) == "key,op,value_size,workload_label"@
}

pub fn is_synthetic_header(line: &str) -> (r: bool)
    ensures
        r == is_synthetic_header_spec(line@),
{
    str_eq(str_trim(line), "key,op,value_size,workload_label")
}

/// The ids that key names were given, by name.
pub uninterp spec fn interned_ids(m: FxHashMap<String, u64>) -> Map<Seq<char>, u64>;

/// `FxHashMap::<String, u64>::default()`: no names.
#[verifier::external_body]
fn intern_new() -> (r: FxHashMap<String, u64>)
    ensures
        interned_ids(r).dom() == Set::<Seq<char>>::empty(),
{
    FxHashMap::default()
}

/// `HashMap::get` on the name table: the id of `name`, if it has one.
#[verifier::external_body]
fn intern_get(m: &FxHashMap<String, u64>, name: &str) -> (r: Option<u64>)
    ensures
        r == (if interned_ids(*m).contains_key(name@) {
            Some(interned_ids(*m)[name@])
        } else {
            None::<u64>
        }),
{
    m.get(name).copied()
}

/// `HashMap::insert` on the name table: gives `name` the id `id`.
#[verifier::external_body]
fn intern_insert(m: &mut FxHashMap<String, u64>, name: &str, id: u64)
    ensures
        interned_ids(*final(m)) == interned_ids(*old(m)).insert(name@, id),
{
    m.insert(name.to_string(), id);
}

/// Why a trace cannot be read.
#[derive(Clone, Copy, PartialEq, Eq, Debug)]
pub enum TraceError {
    /// A synthetic row whose key is not a number.
    BadKey,
    /// A synthetic row whose key size is not a number.
    BadKeySize,
    /// A synthetic row whose value size is not a number.
    BadValueSize,
    /// A minimal row whose size is not a number.
    BadSize,
    /// A row with fewer than two fields.
    MissingField,
    /// A key size plus the per-key overhead passes `u64::MAX`.
    KeySizeOverflow,
    /// A byte total passes `u64::MAX`.
    TotalOverflow,
    /// The first line of the file is not UTF-8 text.
    NotText,
    /// The file is not CSV the reader accepts (or not UTF-8 text).
    BadCsv,
}

/// How a row names its key: by number, or by a name to intern.
pub enum KeyRef {
    Numeric(u64),
    Named(Seq<char>),
}

/// What a row holds: its key, key size and value size; or why it is bad.
/// In a file of the synthetic layout (`synthetic`), a row of 4 or 5 fields
/// is `key, op, value_size, workload_label`; elsewhere it is a Twitter row.
pub open spec fn row_spec(f: Seq<Seq<char>>, synthetic: bool) -> Result<(KeyRef, u64, u64), TraceError> {
    let n = f.len();
    if n >= 10 {
        Ok((
            KeyRef::Named(f[4]),
            match parse_u64_spec(f[8]) { Some(v) => v, None => 0 },
            match parse_u64_spec(f[9]) { Some(v) => v, None => 0 },
        ))
    } else if n >= 6 {
        match (parse_u64_spec(f[2]), parse_u64_spec(f[3]), parse_u64_spec(f[4])) {
            (None, _, _) => Err(TraceError::BadKey),
            (Some(_), None, _) => Err(TraceError::BadKeySize),
            (Some(_), Some(_), None) => Err(TraceError::BadValueSize),
            (Some(k), Some(ks), Some(vs)) => Ok((KeyRef::Numeric(k), ks, vs)),
        }
    } else if n >= 4 && synthetic {
        match parse_u64_spec(f[2]) {
            None => Err(TraceError::BadValueSize),
            Some(vs) => match parse_u64_spec(f[0]) {
                Some(k) => Ok((KeyRef::Numeric(k), 0, vs)),
                None => Ok((KeyRef::Named(f[0]), 0, vs)),
            },
        }
    } else if n >= 4 {
        Ok((KeyRef::Named(f[2]), 0, match parse_u64_spec(f[3]) { Some(v) => v, None => 0 }))
    } else if n < 2 {
        Err(TraceError::MissingField)
    } else {
        match parse_u64_spec(f[1]) {
            None => Err(TraceError::BadSize),
            Some(vs) => match parse_u64_spec(f[0]) {
                Some(k) => Ok((KeyRef::Numeric(k), 0, vs)),
                None => Ok((KeyRef::Named(f[0]), 0, vs)),
            },
        }
    }
}

/// The contents of a row of strings.
pub open spec fn fields_view(fields: Seq<String>) -> Seq<Seq<char>> {
    fields.map_values(|s: String| s@)
}


/// Each size raised by `overhead`.
pub open spec fn add_overhead(sizes: Seq<u64>, overhead: u64) -> Seq<u64> {
    sizes.map_values(|s: u64| (s + overhead) as u64)
}

/// Some size plus `overhead` passes `u64::MAX`.
pub open spec fn overhead_overflows(sizes: Seq<u64>, overhead: u64) -> bool {
    exists|i: int| 0 <= i < sizes.len() && sizes[i] + overhead > u64::MAX
}

/// What `finish` gives for the accesses read: an overflowing key size,
/// overflowing totals, or the trace with each key size raised by
/// `key_overhead` and its totals over distinct keys at their first sizes.
pub open spec fn finished(
    keys: Seq<u64>,
    key_sizes: Seq<u64>,
    value_sizes: Seq<u64>,
    workload: Seq<char>,
    key_overhead: u64,
    r: Result<Trace, TraceError>,
) -> bool {
    let n = keys.len() as int;
    let ks = add_overhead(key_sizes, key_overhead);
    if overhead_overflows(key_sizes, key_overhead) {
        r == Err::<Trace, TraceError>(TraceError::KeySizeOverflow)
    } else if first_total(keys, ks, n) + first_total(keys, value_sizes, n) > u64::MAX {
        r == Err::<Trace, TraceError>(TraceError::TotalOverflow)
    } else {
        &&& r is Ok
        &&& r->Ok_0.workload@ == workload
        &&& r->Ok_0.keys@ == keys
        &&& r->Ok_0.key_sizes@ == ks
        &&& r->Ok_0.value_sizes@ == value_sizes
        &&& r->Ok_0.total_key_bytes == first_total(keys, ks, n)
        &&& r->Ok_0.total_value_bytes == first_total(keys, value_sizes, n)
        &&& r->Ok_0.total_bytes == r->Ok_0.total_key_bytes + r->Ok_0.total_value_bytes
        &&& r->Ok_0.n_unique == distinct_count(keys, n)
        &&& totals_exact(r->Ok_0)
    }
}

/// Accumulates the accesses of a trace, record by record.
pub struct TraceBuilder {
    skip_first: bool,
    synthetic: bool,
    records: u64,
    keys: Vec<u64>,
    key_sizes: Vec<u64>,
    value_sizes: Vec<u64>,
    key_map: FxHashMap<String, u64>,
    next_id: u64,
}

impl TraceBuilder {
    pub closed spec fn skips_first(&self) -> bool {
        self.skip_first
    }

    /// Rows of 4 or 5 fields are read in the synthetic layout.
    pub closed spec fn synthetic(&self) -> bool {
        self.synthetic
    }

    /// Records seen so far, the skipped one included.
    pub closed spec fn records(&self) -> u64 {
        self.records
    }

    pub closed spec fn keys(&self) -> Seq<u64> {
        self.keys@
    }

    pub closed spec fn key_sizes(&self) -> Seq<u64> {
        self.key_sizes@
    }

    pub closed spec fn value_sizes(&self) -> Seq<u64> {
        self.value_sizes@
    }

    /// The ids given to key names so far.
    pub closed spec fn names(&self) -> Map<Seq<char>, u64> {
        interned_ids(self.key_map)
    }

    /// The id the next new key name gets.
    pub closed spec fn next_id(&self) -> u64 {
        self.next_id
    }

    pub closed spec fn wf(&self) -> bool {
        &&& self.key_sizes@.len() == self.keys@.len()
        &&& self.value_sizes@.len() == self.keys@.len()
        &&& self.next_id <= self.records
    }

    /// A builder that skips the first record when `skip_first_record` (the
    /// first line was a header) and reads rows of 4 or 5 fields in the
    /// synthetic layout when `synthetic_layout`.
    pub fn new(skip_first_record: bool, synthetic_layout: bool) -> (r: Self)
        ensures
            r.wf(),
            r.skips_first() == skip_first_record,
            r.synthetic() == synthetic_layout,
            r.records() == 0,
            r.keys() == Seq::<u64>::empty(),
            r.key_sizes() == Seq::<u64>::empty(),
            r.value_sizes() == Seq::<u64>::empty(),
            r.names().dom() == Set::<Seq<char>>::empty(),
            r.next_id() == 0,
    {
        TraceBuilder {
            skip_first: skip_first_record,
            synthetic: synthetic_layout,
            records: 0,
            keys: Vec::new(),
            key_sizes: Vec::new(),
            value_sizes: Vec::new(),
            key_map: intern_new(),
            next_id: 0,
        }
    }

    pub fn records_read(&self) -> (r: u64)
        ensures
            r == self.records(),
    {
        self.records
    }

    /// The id of a key name: its existing one, or the next fresh id.
    fn intern(&mut self, name: &str) -> (r: u64)
        requires
            old(self).next_id < u64::MAX,
        ensures
            old(self).names().contains_key(name@) ==> r == old(self).names()[name@],
            old(self).names().contains_key(name@) ==> final(self).names() == old(self).names(),
            old(self).names().contains_key(name@) ==> final(self).next_id == old(self).next_id,
            !old(self).names().contains_key(name@) ==> r == old(self).next_id,
            !old(self).names().contains_key(name@) ==> final(self).names() == old(
                self,
            ).names().insert(name@, old(self).next_id),
            !old(self).names().contains_key(name@) ==> final(self).next_id == old(self).next_id + 1,
            final(self).keys@ == old(self).keys@,
            final(self).key_sizes@ == old(self).key_sizes@,
            final(self).value_sizes@ == old(self).value_sizes@,
            final(self).records == old(self).records,
            final(self).skip_first == old(self).skip_first,
            final(self).synthetic == old(self).synthetic,
    {
        match intern_get(&self.key_map, name) {
            Some(id) => id,
            None => {
                let id = self.next_id;
                self.next_id = self.next_id + 1;
                intern_insert(&mut self.key_map, name, id);
                id
            },
        }
    }

    /// Reads one CSV record (its fields). The first record is skipped when
    /// the builder was told so. On an error nothing but the record count
    /// changes.
    pub fn push_record(&mut self, fields: &Vec<String>) -> (r: Result<(), TraceError>)
        requires
            old(self).wf(),
            old(self).records() < u64::MAX,
        ensures
            final(self).wf(),
            final(self).records() == old(self).records() + 1,
            final(self).skips_first() == old(self).skips_first(),
            final(self).synthetic() == old(self).synthetic(),
            ({
                let row = row_spec(fields_view(fields@), old(self).synthetic());
                if old(self).records() == 0 && old(self).skips_first() {
                    &&& r is Ok
                    &&& final(self).keys() == old(self).keys()
                    &&& final(self).key_sizes() == old(self).key_sizes()
                    &&& final(self).value_sizes() == old(self).value_sizes()
                    &&& final(self).names() == old(self).names()
                    &&& final(self).next_id() == old(self).next_id()
                } else {
                    match row {
                        Err(e) => {
                            &&& r == Err::<(), TraceError>(e)
                            &&& final(self).keys() == old(self).keys()
                            &&& final(self).key_sizes() == old(self).key_sizes()
                            &&& final(self).value_sizes() == old(self).value_sizes()
                            &&& final(self).names() == old(self).names()
                            &&& final(self).next_id() == old(self).next_id()
                        },
                        Ok((kr, ks, vs)) => {
                            &&& r is Ok
                            &&& final(self).key_sizes() == old(self).key_sizes().push(ks)
                            &&& final(self).value_sizes() == old(self).value_sizes().push(vs)
                            &&& match kr {
                                KeyRef::Numeric(k) => {
                                    &&& final(self).keys() == old(self).keys().push(k)
                                    &&& final(self).names() == old(self).names()
                                    &&& final(self).next_id() == old(self).next_id()
                                },
                                KeyRef::Named(name) => if old(self).names().contains_key(name) {
                                    &&& final(self).keys() == old(self).keys().push(
                                        old(self).names()[name],
                                    )
                                    &&& final(self).names() == old(self).names()
                                    &&& final(self).next_id() == old(self).next_id()
                                } else {
                                    &&& final(self).keys() == old(self).keys().push(
                                        old(self).next_id(),
                                    )
                                    &&& final(self).names() == old(self).names().insert(
                                        name,
                                        old(self).next_id(),
                                    )
                                    &&& final(self).next_id() == old(self).next_id() + 1
                                },
                            }
                        },
                    }
                }
            }),
    {
        let first = self.records == 0;
        self.records = self.records + 1;
        if first && self.skip_first {
            return Ok(());
        }
        let ghost f = fields_view(fields@);
        let ncols = fields.len();
        proof {
            assert(f.len() == ncols);
            assert forall|i: int| 0 <= i < ncols implies #[trigger] f[i] == fields@[i]@ by {
            }
        }
        if ncols >= 10 {
            let kb = match parse_u64(fields[8].as_str()) {
                Some(v) => v,
                None => 0,
            };
            let vb = match parse_u64(fields[9].as_str()) {
                Some(v) => v,
                None => 0,
            };
            let key_id = self.intern(fields[4].as_str());
            self.keys.push(key_id);
            self.key_sizes.push(kb);
            self.value_sizes.push(vb);
        } else if ncols >= 6 {
            let k = match parse_u64(fields[2].as_str()) {
                Some(v) => v,
                None => {
                    return Err(TraceError::BadKey);
                },
            };
            let ks = match parse_u64(fields[3].as_str()) {
                Some(v) => v,
                None => {
                    return Err(TraceError::BadKeySize);
                },
            };
            let vs = match parse_u64(fields[4].as_str()) {
                Some(v) => v,
                None => {
                    return Err(TraceError::BadValueSize);
                },
            };
            self.keys.push(k);
            self.key_sizes.push(ks);
            self.value_sizes.push(vs);
        } else if ncols >= 4 && self.synthetic {
            let vs = match parse_u64(fields[2].as_str()) {
                Some(v) => v,
                None => {
                    return Err(TraceError::BadValueSize);
                },
            };
            let key_id = match parse_u64(fields[0].as_str()) {
                Some(k) => k,
                None => self.intern(fields[0].as_str()),
            };
            self.keys.push(key_id);
            self.key_sizes.push(0);
            self.value_sizes.push(vs);
        } else if ncols >= 4 {
            let vb = match parse_u64(fields[3].as_str()) {
                Some(v) => v,
                None => 0,
            };
            let key_id = self.intern(fields[2].as_str());
            self.keys.push(key_id);
            self.key_sizes.push(0);
            self.value_sizes.push(vb);
        } else if ncols < 2 {
            return Err(TraceError::MissingField);
        } else {
            let vs = match parse_u64(fields[1].as_str()) {
                Some(v) => v,
                None => {
                    return Err(TraceError::BadSize);
                },
            };
            let key_id = match parse_u64(fields[0].as_str()) {
                Some(k) => k,
                None => self.intern(fields[0].as_str()),
            };
            self.keys.push(key_id);
            self.key_sizes.push(0);
            self.value_sizes.push(vs);
        }
        Ok(())
    }

    /// The trace read so far, each key size raised by `key_overhead`, with
    /// the totals over distinct keys at their first sizes.
    #[verifier::loop_isolation(false)]
    pub fn finish(self, workload: String, key_overhead: u64) -> (r: Result<Trace, TraceError>)
        requires
            self.wf(),
        ensures
            overhead_overflows(self.key_sizes(), key_overhead) <==> r == Err::<Trace, TraceError>(
                TraceError::KeySizeOverflow,
            ),
            r matches Ok(tr) ==> {
                let n = self.keys().len() as int;
                let ks = add_overhead(self.key_sizes(), key_overhead);
                &&& tr.workload@ == workload@
                &&& tr.keys@ == self.keys()
                &&& tr.key_sizes@ == ks
                &&& tr.value_sizes@ == self.value_sizes()
                &&& tr.total_key_bytes == first_total(self.keys(), ks, n)
                &&& tr.total_value_bytes == first_total(self.keys(), self.value_sizes(), n)
                &&& tr.total_bytes == tr.total_key_bytes + tr.total_value_bytes
                &&& tr.n_unique == distinct_count(self.keys(), n)
                &&& totals_exact(tr)
            },
            r == Err::<Trace, TraceError>(TraceError::TotalOverflow) ==> {
                let n = self.keys().len() as int;
                let ks = add_overhead(self.key_sizes(), key_overhead);
                first_total(self.keys(), ks, n) + first_total(self.keys(), self.value_sizes(), n)
                    > u64::MAX
            },
            r is Err ==> r == Err::<Trace, TraceError>(TraceError::KeySizeOverflow) || r == Err::<
                Trace,
                TraceError,
            >(TraceError::TotalOverflow),
            finished(self.keys(), self.key_sizes(), self.value_sizes(), workload@, key_overhead, r),
    {
        let ghost s0 = self.key_sizes();
        let ghost k0 = self.keys();
        let ghost v0 = self.value_sizes();
        let keys = self.keys;
        let value_sizes = self.value_sizes;
        let mut key_sizes = self.key_sizes;
        let n = keys.len();
        proof {
            assert(key_sizes@ == s0);
            assert(keys@ == k0);
            assert(value_sizes@ == v0);
        }
        let ghost ks0 = key_sizes@;
        let ghost ks1 = add_overhead(ks0, key_overhead);
        if key_overhead > 0 {
            let mut i: usize = 0;
            while i < n
                invariant
                    n == key_sizes@.len(),
                    ks0.len() == n,
                    ks0 == s0,
                    ks1 == add_overhead(ks0, key_overhead),
                    i <= n,
                    forall|j: int| 0 <= j < i ==> key_sizes@[j] == ks1[j],
                    forall|j: int| i <= j < n ==> key_sizes@[j] == ks0[j],
                    forall|j: int| 0 <= j < i ==> ks0[j] + key_overhead <= u64::MAX,
                decreases n - i,
            {
                let ks = key_sizes[i];
                if ks > u64::MAX - key_overhead {
                    proof {
                        assert(s0[i as int] + key_overhead > u64::MAX);
                        assert(overhead_overflows(s0, key_overhead));
                    }
                    return Err(TraceError::KeySizeOverflow);
                }
                key_sizes.set(i, ks + key_overhead);
                i = i + 1;
            }
            proof {
                assert(key_sizes@ =~= ks1);
            }
        } else {
            proof {
                assert(key_sizes@ =~= ks1);
            }
        }
        proof {
            assert forall|j: int| 0 <= j < ks0.len() implies !(s0[j] + key_overhead > u64::MAX) by {
                if key_overhead > 0 {
                    assert(key_sizes@[j] == ks1[j]);
                }
            }
        }
        let mut seen: FxHashSet<u64> = fx_set_new();
        let mut total_key_bytes: u64 = 0;
        let mut total_value_bytes: u64 = 0;
        let mut n_unique: usize = 0;
        let ghost kv = keys@;
        let ghost vv = value_sizes@;
        proof {
            assert(kv.subrange(0, 0).to_set() =~= Set::<u64>::empty());
        }
        let mut i: usize = 0;
        while i < n
            invariant
                n == kv.len(),
                kv == keys@,
                vv == value_sizes@,
                vv.len() == n,
                key_sizes@ == ks1,
                ks1.len() == n,
                i <= n,
                seen@ == kv.subrange(0, i as int).to_set(),
                total_key_bytes == first_total(kv, ks1, i as int),
                total_value_bytes == first_total(kv, vv, i as int),
                n_unique == distinct_count(kv, i as int),
                n_unique <= i,
                ks0 == s0,
                kv == k0,
                vv == v0,
                ks1 == add_overhead(s0, key_overhead),
                forall|j: int| 0 <= j < ks0.len() ==> !(s0[j] + key_overhead > u64::MAX),
            decreases n - i,
        {
            let k = keys[i];
            let fresh = fx_set_insert(&mut seen, k);
            proof {
                lemma_seen_step(kv, i as int);
                assert(fresh == !is_repeat(kv, i as int));
            }
            if fresh {
                let kb = key_sizes[i];
                let vb = value_sizes[i];
                if total_key_bytes > u64::MAX - kb || total_value_bytes > u64::MAX - vb {
                    proof {
                        assert(first_total(kv, ks1, i as int + 1) == total_key_bytes + kb);
                        assert(first_total(kv, vv, i as int + 1) == total_value_bytes + vb);
                        lemma_first_total_mono(kv, ks1, i as int + 1, n as int);
                        lemma_first_total_mono(kv, vv, i as int + 1, n as int);
                        lemma_first_total_mono(kv, ks1, n as int, n as int);
                        lemma_first_total_mono(kv, vv, n as int, n as int);
                    }
                    return Err(TraceError::TotalOverflow);
                }
                total_key_bytes = total_key_bytes + kb;
                total_value_bytes = total_value_bytes + vb;
                n_unique = n_unique + 1;
            }
            i = i + 1;
        }
        if total_key_bytes > u64::MAX - total_value_bytes {
            return Err(TraceError::TotalOverflow);
        }
        let total_bytes = total_key_bytes + total_value_bytes;
        Ok(
            Trace {
                workload,
                keys,
                key_sizes,
                value_sizes,
                total_key_bytes,
                total_value_bytes,
                total_bytes,
                n_unique,
            },
        )
    }
}



/// The records the `csv` crate reads from `bytes` with no header row and
/// rows of any length, each record as its fields; `None` when it reports an
/// error (malformed CSV, or a field that is not UTF-8 text).
pub uninterp spec fn csv_fields(bytes: Seq<u8>) -> Option<Seq<Seq<Seq<char>>>>;

/// The contents of rows of strings.
pub open spec fn rows_view(rows: Seq<Vec<String>>) -> Seq<Seq<Seq<char>>> {
    rows.map_values(|row: Vec<String>| fields_view(row@))
}

/// `csv::ReaderBuilder::new().has_headers(false).flexible(true)` over
/// `bytes`, every record read with `records()`: the fields of each, or
/// `None` at the first record the reader refuses. What the reader makes of
/// the bytes (quoting, line ends, blank lines) is left to the name
/// `csv_fields`; only that the result is a function of the bytes is claimed.
#[verifier::external_body]
fn csv_records(bytes: &[u8]) -> (r: Option<Vec<Vec<String>>>)
    ensures
        r is None <==> csv_fields(bytes@) is None,
        r matches Some(rows) ==> rows_view(rows@) == csv_fields(bytes@)->Some_0,
{
    let mut rdr = csv::ReaderBuilder::new().has_headers(false).flexible(true).from_reader(bytes);
    let mut rows: Vec<Vec<String>> = Vec::new();
    for record in rdr.records() {
        match record {
            Ok(rec) => rows.push(rec.iter().map(|f| f.to_string()).collect()),
            Err(_) => return None,
        }
    }
    Some(rows)
}

/// `std::str::from_utf8`: the text `bytes` encode, or `None` when they are
/// not valid UTF-8.
#[verifier::external_body]
fn utf8_text(bytes: &[u8]) -> (r: Option<String>)
    ensures
        r is Some <==> vstd::utf8::valid_utf8(bytes@),
        r matches Some(t) ==> t@ == vstd::utf8::decode_utf8(bytes@),
{
    match std::str::from_utf8(bytes) {
        Ok(t) => Some(t.to_string()),
        Err(_) => None,
    }
}

/// Where the first line of `bytes`, read from position `i` on, ends: just
/// past the first newline at or after `i`, or at the end.
pub open spec fn line_end(bytes: Seq<u8>, i: int) -> int
    decreases bytes.len() - i,
{
    if i >= bytes.len() {
        bytes.len() as int
    } else if bytes[i] == 10u8 {
        i + 1
    } else {
        line_end(bytes, i + 1)
    }
}

/// The first line of `bytes`, its newline included.
pub open spec fn first_line(bytes: Seq<u8>) -> Seq<u8> {
    bytes.subrange(0, line_end(bytes, 0))
}

/// What the records read so far hold: the accesses, and the ids given to
/// key names.
pub struct RowsRead {
    pub keys: Seq<u64>,
    pub key_sizes: Seq<u64>,
    pub value_sizes: Seq<u64>,
    pub names: Map<Seq<char>, u64>,
    pub next_id: u64,
}

/// One more record read: its access appended (a new key name gets the next
/// id), or why it is bad.
pub open spec fn read_row(s: RowsRead, f: Seq<Seq<char>>, synthetic: bool) -> Result<RowsRead, TraceError> {
    match row_spec(f, synthetic) {
        Err(e) => Err(e),
        Ok((kr, ks, vs)) => {
            let (id, names, next) = match kr {
                KeyRef::Numeric(k) => (k, s.names, s.next_id),
                KeyRef::Named(name) => if s.names.contains_key(name) {
                    (s.names[name], s.names, s.next_id)
                } else {
                    (s.next_id, s.names.insert(name, s.next_id), (s.next_id + 1) as u64)
                },
            };
            Ok(
                RowsRead {
                    keys: s.keys.push(id),
                    key_sizes: s.key_sizes.push(ks),
                    value_sizes: s.value_sizes.push(vs),
                    names,
                    next_id: next,
                },
            )
        },
    }
}

/// The first `n` records read in order, the first one skipped when
/// `skip_first`; the error of the first bad record.
pub open spec fn read_rows(rows: Seq<Seq<Seq<char>>>, n: int, skip_first: bool, synthetic: bool) -> Result<
    RowsRead,
    TraceError,
>
    decreases n,
{
    if n <= 0 {
        Ok(
            RowsRead {
                keys: Seq::empty(),
                key_sizes: Seq::empty(),
                value_sizes: Seq::empty(),
                names: Map::empty(),
                next_id: 0,
            },
        )
    } else {
        match read_rows(rows, n - 1, skip_first, synthetic) {
            Err(e) => Err(e),
            Ok(s) => if n == 1 && skip_first {
                Ok(s)
            } else {
                read_row(s, rows[n - 1], synthetic)
            },
        }
    }
}

/// Once a record is bad, reading more records keeps its error.
pub proof fn lemma_read_rows_error(rows: Seq<Seq<Seq<char>>>, a: int, b: int, skip_first: bool, synthetic: bool)
    requires
        0 <= a <= b,
        read_rows(rows, a, skip_first, synthetic) is Err,
    ensures
        read_rows(rows, b, skip_first, synthetic) == read_rows(rows, a, skip_first, synthetic),
    decreases b,
{
    if b > a {
        lemma_read_rows_error(rows, a, b - 1, skip_first, synthetic);
    }
}

/// The trace a file's bytes hold: its first line (UTF-8 text) says whether
/// the first record is a header and whether rows of 4 or 5 fields are in the
/// synthetic layout; the CSV records are read in order; `finish` gives the
/// trace and its totals.
pub open spec fn trace_loaded(workload: Seq<char>, bytes: Seq<u8>, key_overhead: u64, r: Result<Trace, TraceError>) -> bool {
    let line = first_line(bytes);
    if !vstd::utf8::valid_utf8(line) {
        r == Err::<Trace, TraceError>(TraceError::NotText)
    } else {
        match csv_fields(bytes) {
            None => r == Err::<Trace, TraceError>(TraceError::BadCsv),
            Some(rows) => trace_read(workload, vstd::utf8::decode_utf8(line), rows, key_overhead, r),
        }
    }
}

/// The trace that CSV records hold, given the first line of their file:
/// the records read in order (the first skipped when the line is a header),
/// then `finish`.
pub open spec fn trace_read(
    workload: Seq<char>,
    line: Seq<char>,
    rows: Seq<Seq<Seq<char>>>,
    key_overhead: u64,
    r: Result<Trace, TraceError>,
) -> bool {
    match read_rows(rows, rows.len() as int, is_header_spec(line), is_synthetic_header_spec(line)) {
        Err(e) => r == Err::<Trace, TraceError>(e),
        Ok(s) => finished(s.keys, s.key_sizes, s.value_sizes, workload, key_overhead, r),
    }
}

/// Reads the trace that the contents of a trace file hold (see
/// `trace_loaded`), named `workload`, each key size raised by
/// `key_overhead`.
pub fn load_trace(workload: String, bytes: &[u8], key_overhead: u64) -> (r: Result<Trace, TraceError>)
    ensures
        trace_loaded(workload@, bytes@, key_overhead, r),
{
    let ghost b = bytes@;
    let mut e: usize = 0;
    while e < bytes.len() && bytes[e] != 10u8
        invariant
            b == bytes@,
            e <= b.len(),
            line_end(b, 0) == line_end(b, e as int),
        decreases b.len() - e,
    {
        e = e + 1;
    }
    if e < bytes.len() {
        e = e + 1;
    }
    let line_bytes = vstd::slice::slice_subrange(bytes, 0, e);
    proof {
        assert(line_bytes@ == first_line(b));
    }
    let line = match utf8_text(line_bytes) {
        Some(t) => t,
        None => {
            return Err(TraceError::NotText);
        },
    };
    let rows = match csv_records(bytes) {
        Some(v) => v,
        None => {
            return Err(TraceError::BadCsv);
        },
    };
    trace_from_records(workload, line.as_str(), &rows, key_overhead)
}

/// Reads CSV records, given the first line of their file, into a trace (see
/// `trace_read`), named `workload`, each key size raised by `key_overhead`.
pub fn trace_from_records(workload: String, line: &str, rows: &Vec<Vec<String>>, key_overhead: u64) -> (r: Result<
    Trace,
    TraceError,
>)
    ensures
        trace_read(workload@, line@, rows_view(rows@), key_overhead, r),
{
    let ghost fields = rows_view(rows@);
    let skip = is_header_line(line);
    let synthetic = is_synthetic_header(line);
    let mut builder = TraceBuilder::new(skip, synthetic);
    let n = rows.len();
    let mut i: usize = 0;
    while i < n
        invariant
            n == rows@.len(),
            skip == is_header_spec(line@),
            synthetic == is_synthetic_header_spec(line@),
            fields == rows_view(rows@),
            fields.len() == n,
            i <= n,
            builder.wf(),
            builder.records() == i,
            builder.skips_first() == skip,
            builder.synthetic() == synthetic,
            read_rows(fields, i as int, skip, synthetic) is Ok,
            ({
                let s = read_rows(fields, i as int, skip, synthetic)->Ok_0;
                &&& s.keys == builder.keys()
                &&& s.key_sizes == builder.key_sizes()
                &&& s.value_sizes == builder.value_sizes()
                &&& s.names == builder.names()
                &&& s.next_id == builder.next_id()
            }),
        decreases n - i,
    {
        proof {
            assert(fields[i as int] == fields_view(rows@[i as int]@));
        }
        match builder.push_record(&rows[i]) {
            Ok(()) => {},
            Err(err) => {
                proof {
                    let s0 = read_rows(fields, i as int, skip, synthetic)->Ok_0;
                    assert(row_spec(fields[i as int], synthetic) == Err::<(KeyRef, u64, u64), TraceError>(err));
                    assert(read_row(s0, fields[i as int], synthetic) == Err::<RowsRead, TraceError>(err));
                    assert(read_rows(fields, i as int + 1, skip, synthetic) == Err::<RowsRead, TraceError>(err));
                    lemma_read_rows_error(fields, i as int + 1, n as int, skip, synthetic);
                }
                return Err(err);
            },
        }
        i = i + 1;
    }
    builder.finish(workload, key_overhead)
}

} // verus!
