use vstd::prelude::*;
use crate::predictor::{DictionaryWord, Predictor, valid_entries};

verus! {

/// A model entry as it is stored: name, total, counts.
pub type Record = (String, u32, Vec<u32>);

/// A stored record as plain values.
pub open spec fn record_view(r: Record) -> (Seq<char>, u32, Seq<u32>) {
    (r.0@, r.1, r.2@)
}

/// Stored records as plain values.
pub open spec fn records_view(v: Seq<Record>) -> Seq<(Seq<char>, u32, Seq<u32>)> {
    v.map_values(|r: Record| record_view(r))
}

/// A model entry as plain values, in the shape of a stored record.
pub open spec fn entry_view(d: DictionaryWord) -> (Seq<char>, u32, Seq<u32>) {
    (d.name@, d.total, d.amounts@)
}

/// Model entries as plain values.
pub open spec fn entries_view(e: Seq<DictionaryWord>) -> Seq<(Seq<char>, u32, Seq<u32>)> {
    e.map_values(|d: DictionaryWord| entry_view(d))
}

/// The CBOR bytes that ciborium writes for a sequence of records.
pub uninterp spec fn cbor_of(records: Seq<(Seq<char>, u32, Seq<u32>)>) -> Seq<u8>;

/// The records that ciborium reads from `bytes`, if they hold a sequence of
/// records.
pub uninterp spec fn cbor_records(bytes: Seq<u8>) -> Option<Seq<(Seq<char>, u32, Seq<u32>)>>;

/// Relies on ciborium::ser::into_writer: the CBOR encoding of the records,
/// written into a fresh buffer. Writing into a `Vec` cannot fail, and text,
/// unsigned integers and sequences raise no encoder error; what is written
/// (definite-length arrays, text, unsigned integers) ciborium::de::from_reader
/// reads back as the same records.
#[verifier::external_body]
fn encode_records(records: &Vec<Record>) -> (r: Option<Vec<u8>>)
    ensures
        r is Some,
        r matches Some(b) ==> b@ == cbor_of(records_view(records@)),
        r matches Some(b) ==> cbor_records(b@) == Some(records_view(records@)),
{
    let mut buf: Vec<u8> = Vec::new();
    match ciborium::ser::into_writer(records, &mut buf) {
        Ok(()) => Some(buf),
        Err(_) => None,
    }
}

/// Relies on ciborium::de::from_reader: the records that the bytes encode,
/// or `None` where they are not CBOR of that shape.
#[verifier::external_body]
fn decode_records(bytes: &[u8]) -> (r: Option<Vec<Record>>)
    ensures
        r is None <==> cbor_records(bytes@) is None,
        r matches Some(v) ==> cbor_records(bytes@) == Some(records_view(v@)),
{
    ciborium::de::from_reader::<Vec<Record>, &[u8]>(bytes).ok()
}

/// Why stored bytes do not give a model.
pub enum ModelError {
    /// The bytes are not the CBOR of a sequence of records.
    Decode,
    /// The records do not make a model (see `valid_entries`).
    Invalid,
}

impl Predictor {
    /// The model's entries as stored records, encoded as CBOR.
    pub fn to_bytes(&self) -> (r: Vec<u8>)
        ensures
            r@ == cbor_of(entries_view(self@)),
            cbor_records(r@) == Some(entries_view(self@)),
    {
        let entries = self.entries();
        let mut records: Vec<Record> = Vec::new();
        let mut i: usize = 0;
        while i < entries.len()
            invariant
                entries@ == self@,
                i <= entries@.len(),
                records_view(records@) == entries_view(entries@.subrange(0, i as int)),
            decreases entries@.len() - i,
        {
            let e = &entries[i];
            let amounts = e.amounts.clone();
            assert(amounts@ =~= e.amounts@);
            let rec: Record = (e.name.clone(), e.total, amounts);
            let ghost before = records@;
            records.push(rec);
            proof {
                assert(records_view(records@) =~= records_view(before).push(record_view(rec)));
                assert(entries_view(entries@.subrange(0, i + 1))
                    =~= entries_view(entries@.subrange(0, i as int)).push(entry_view(entries@[i as int])));
            }
            i = i + 1;
        }
        assert(entries@.subrange(0, i as int) =~= entries@);
        match encode_records(&records) {
            Some(b) => b,
            None => {
                assert(false);
                Vec::new()
            },
        }
    }

    /// The model stored in `bytes`.
    pub fn from_bytes(bytes: &[u8]) -> (r: Result<Self, ModelError>)
        ensures
            loads_as(bytes@, r),
    {
        let records = match decode_records(bytes) {
            None => {
                return Err(ModelError::Decode);
            },
            Some(v) => v,
        };
        let ghost x = records_view(records@);
        let mut entries: Vec<DictionaryWord> = Vec::new();
        let n = records.len();
        let mut i: usize = 0;
        while i < n
            invariant
                n == x.len(),
                x == records_view(records@),
                i <= n,
                entries_view(entries@) == x.subrange(0, i as int),
            decreases n - i,
        {
            let amounts = records[i].2.clone();
            assert(amounts@ =~= records@[i as int].2@);
            let d = DictionaryWord { name: records[i].0.clone(), total: records[i].1, amounts };
            let ghost before = entries@;
            entries.push(d);
            proof {
                assert(entry_view(d) == x[i as int]);
                assert(entries_view(entries@) =~= entries_view(before).push(entry_view(d)));
                assert(x.subrange(0, i + 1) =~= x.subrange(0, i as int).push(x[i as int]));
            }
            i = i + 1;
        }
        assert(x.subrange(0, n as int) =~= x);
        let ghost e = entries@;
        match Predictor::from_entries(entries) {
            Some(p) => Ok(p),
            None => {
                proof {
                    assert forall|f: Seq<DictionaryWord>| entries_view(f) == x implies !valid_entries(f) by {
                        lemma_valid_by_view(e, f);
                    }
                }
                Err(ModelError::Invalid)
            },
        }
    }
}

proof fn lemma_valid_transfers(e: Seq<DictionaryWord>, f: Seq<DictionaryWord>)
    requires
        entries_view(e) == entries_view(f),
        valid_entries(e),
    ensures
        valid_entries(f),
{
    assert(e.len() == entries_view(e).len());
    assert(f.len() == entries_view(f).len());
    assert forall|i: int| 0 <= i < e.len() implies #[trigger] e[i].name@ == f[i].name@
        && e[i].total == f[i].total && e[i].amounts@ == f[i].amounts@ by {
        assert(entries_view(e)[i] == entries_view(f)[i]);
    }
    assert(crate::predictor::names_of(e) =~= crate::predictor::names_of(f));
    assert forall|i: int| 0 <= i < f.len() implies (#[trigger] f[i]).amounts@.len() == f.len()
        && f[i].total == crate::predictor::sum(f[i].amounts@) by {
        assert(e[i].name@ == f[i].name@ && e[i].total == f[i].total && e[i].amounts@ == f[i].amounts@);
    }
}

/// What loading `bytes` gives: `Decode` exactly when they are not the CBOR
/// of a sequence of records; else a model exactly when the records make one,
/// and then a model with those entries.
pub open spec fn loads_as(bytes: Seq<u8>, r: Result<Predictor, ModelError>) -> bool {
    &&& (cbor_records(bytes) is None <==> r matches Err(ModelError::Decode))
    &&& (cbor_records(bytes) matches Some(x) ==> (r is Ok <==> exists|e: Seq<DictionaryWord>|
            entries_view(e) == x && valid_entries(e)))
    &&& (r matches Ok(p) ==> cbor_records(bytes) == Some(entries_view(p@)))
    &&& (r matches Ok(p) ==> valid_entries(p@))
}

/// A stored model loads back as itself: where `bytes` decode to the entries
/// of a model `m` (as the bytes that `to_bytes` gives for `m` do), loading
/// them gives a model with the same names, totals and counts, in the same
/// order.
pub proof fn lemma_stored_model_loads_back(m: Predictor, bytes: Seq<u8>, r: Result<Predictor, ModelError>)
    requires
        valid_entries(m@),
        cbor_records(bytes) == Some(entries_view(m@)),
        loads_as(bytes, r),
    ensures
        r matches Ok(p) && entries_view(p@) == entries_view(m@),
{
}

/// Whether entries make a model depends only on their names, totals and
/// counts.
pub proof fn lemma_valid_by_view(e: Seq<DictionaryWord>, f: Seq<DictionaryWord>)
    requires
        entries_view(e) == entries_view(f),
    ensures
        valid_entries(e) == valid_entries(f),
{
    if valid_entries(e) {
        lemma_valid_transfers(e, f);
    }
    if valid_entries(f) {
        lemma_valid_transfers(f, e);
    }
}

} // verus!
