//! CSV import and export of the record store.
//!
//! An imported row first gets `what_id = i` and `location_id = n + i`
//! (`n` rows, row `i`); a duplicate `what` aborts the import.  Each
//! `location_id` is then re-resolved: a location string that equals some
//! row's `what` takes that row's id, otherwise every occurrence of the
//! same location string shares the id of its first occurrence.  A
//! compaction pass makes the ids dense.  Export writes one row per
//! record, in store order.

use vstd::prelude::*;
use crate::compact::compact_spec;
use crate::compact::optimize_records_ids;
use crate::data::Record;
use crate::errors::Error;

verus! {

/// One row of the CSV schema: `what, location, updated, notes`.
#[derive(Debug, PartialEq, Eq)]
pub struct CsvRecord {
    pub what: String,
    pub location: String,
    pub updated: String,
    pub notes: String,
}

impl Clone for CsvRecord {
    fn clone(&self) -> (r: CsvRecord)
        ensures
            r == *self,
    {
        CsvRecord {
            what: self.what.clone(),
            location: self.location.clone(),
            updated: self.updated.clone(),
            notes: self.notes.clone(),
        }
    }
}

/// Some row's `what` equals `s`.
pub open spec fn has_what(rows: Seq<CsvRecord>, s: Seq<char>) -> bool {
    exists|k: int| 0 <= k < rows.len() && (#[trigger] rows[k]).what@ == s
}

/// The row whose `what` equals `s` (unique when no `what` repeats).
pub open spec fn what_index(rows: Seq<CsvRecord>, s: Seq<char>) -> int {
    choose|k: int| 0 <= k < rows.len() && (#[trigger] rows[k]).what@ == s
}

/// The first row whose `location` equals `s`.
pub open spec fn first_loc_index(rows: Seq<CsvRecord>, s: Seq<char>) -> int
    decreases rows.len(),
{
    if rows.len() == 0 {
        0
    } else if rows.first().location@ == s {
        0
    } else {
        1 + first_loc_index(rows.drop_first(), s)
    }
}

proof fn lemma_first_loc_index(rows: Seq<CsvRecord>, s: Seq<char>)
    requires
        exists|k: int| 0 <= k < rows.len() && (#[trigger] rows[k]).location@ == s,
    ensures
        0 <= first_loc_index(rows, s) < rows.len(),
        rows[first_loc_index(rows, s)].location@ == s,
        forall|k: int| 0 <= k < first_loc_index(rows, s) ==> (#[trigger] rows[k]).location@ != s,
    decreases rows.len(),
{
    if rows.len() > 0 && rows.first().location@ != s {
        let k = choose|k: int| 0 <= k < rows.len() && (#[trigger] rows[k]).location@ == s;
        assert(rows.drop_first()[k - 1].location@ == s);
        lemma_first_loc_index(rows.drop_first(), s);
        let f = first_loc_index(rows.drop_first(), s);
        assert(rows[1 + f] == rows.drop_first()[f]);
        assert forall|j: int| 0 <= j < 1 + f implies (#[trigger] rows[j]).location@ != s by {
            if j > 0 {
                assert(rows.drop_first()[j - 1] == rows[j]);
            }
        }
    }
}

/// The re-resolved `location_id` of row `i`.
pub open spec fn import_loc_id(rows: Seq<CsvRecord>, i: int) -> int {
    if has_what(rows, rows[i].location@) {
        what_index(rows, rows[i].location@)
    } else {
        rows.len() + first_loc_index(rows, rows[i].location@)
    }
}

/// The records of an import before the compaction pass: row `i` becomes
/// the record with `what_id = i`, its re-resolved `location_id`, and
/// `created = updated` taken from the row.
pub open spec fn import_spec(rows: Seq<CsvRecord>) -> Seq<Record> {
    Seq::new(
        rows.len(),
        |i: int|
            Record {
                created: rows[i].updated,
                location: rows[i].location,
                location_id: import_loc_id(rows, i) as usize,
                notes: rows[i].notes,
                updated: rows[i].updated,
                what: rows[i].what,
                what_id: i as usize,
            },
    )
}

/// Two rows share a `what` string.
pub open spec fn dup_what(rows: Seq<CsvRecord>) -> bool {
    exists|i: int, j: int|
        0 <= i < j < rows.len() && (#[trigger] rows[i]).what@ == (#[trigger] rows[j]).what@
}

/// Builds the records of a CSV import: assigns ids, rejects a duplicate
/// `what`, re-resolves each location against the imported `what`s, and
/// compacts the ids.  On `Err` the import gives no records.
pub fn import_csv_records(rows: &Vec<CsvRecord>) -> (res: Result<Vec<Record>, Error>)
    requires
        2 * rows@.len() <= usize::MAX as int,
    ensures
        res is Ok <==> !dup_what(rows@),
        ({
            match res {
                Ok(out) => out@ == compact_spec(import_spec(rows@)) && crate::data::store_wf(
                    out@,
                ),
                Err(Error::Conflict(s)) => exists|i: int, j: int|
                    0 <= i < j < rows@.len() && (#[trigger] rows@[i]).what@ == (
                    #[trigger] rows@[j]).what@ && s@ == rows@[j].what@,
                Err(_) => false,
            }
        }),
{
    let n = rows.len();
    let mut j: usize = 0;
    while j < n
        invariant
            0 <= j <= n,
            n == rows@.len(),
            forall|a: int, b: int|
                0 <= a < b < j ==> (#[trigger] rows@[a]).what@ != (#[trigger] rows@[b]).what@,
        decreases n - j,
    {
        let mut i: usize = 0;
        while i < j
            invariant
                0 <= i <= j < n,
                n == rows@.len(),
                forall|a: int, b: int|
                    0 <= a < b < j ==> (#[trigger] rows@[a]).what@ != (#[trigger] rows@[b]).what@,
                forall|a: int| 0 <= a < i ==> (#[trigger] rows@[a]).what@ != rows@[j as int].what@,
            decreases j - i,
        {
            if rows[i].what == rows[j].what {
                assert(rows@[i as int].what@ == rows@[j as int].what@);
                assert(dup_what(rows@));
                return Err(Error::Conflict(rows[j].what.clone()));
            }
            i += 1;
        }
        j += 1;
    }
    assert(!dup_what(rows@));
    let mut out: Vec<Record> = Vec::new();
    let mut i: usize = 0;
    while i < n
        invariant
            0 <= i <= n,
            n == rows@.len(),
            2 * n <= usize::MAX,
            !dup_what(rows@),
            out@.len() == i,
            forall|k: int| 0 <= k < i ==> out@[k] == import_spec(rows@)[k],
        decreases n - i,
    {
        let loc_id = resolve_import_location(rows, i);
        let r = &rows[i];
        out.push(
            Record {
                created: r.updated.clone(),
                location: r.location.clone(),
                location_id: loc_id,
                notes: r.notes.clone(),
                updated: r.updated.clone(),
                what: r.what.clone(),
                what_id: i,
            },
        );
        i += 1;
    }
    proof {
        assert(out@ =~= import_spec(rows@));
    }
    optimize_records_ids(&mut out);
    proof {
        lemma_import_spec_store_wf(rows@);
    }
    Ok(out)
}

/// The re-resolved `location_id` of row `i`: the id of the row whose
/// `what` equals this location, or the first occurrence of the location
/// string offset by the row count.
fn resolve_import_location(rows: &Vec<CsvRecord>, i: usize) -> (r: usize)
    requires
        0 <= i < rows@.len(),
        2 * rows@.len() <= usize::MAX as int,
        !dup_what(rows@),
    ensures
        r as int == import_loc_id(rows@, i as int),
{
    let n = rows.len();
    let mut k: usize = 0;
    while k < n
        invariant
            0 <= k <= n,
            i < n,
            n == rows@.len(),
            !dup_what(rows@),
            forall|a: int| 0 <= a < k ==> (#[trigger] rows@[a]).what@ != rows@[i as int].location@,
        decreases n - k,
    {
        if rows[k].what == rows[i].location {
            proof {
                assert(rows@[k as int].what@ == rows@[i as int].location@);
                assert(has_what(rows@, rows@[i as int].location@));
                let w = what_index(rows@, rows@[i as int].location@);
                assert(0 <= w < rows@.len() && rows@[w].what@ == rows@[i as int].location@);
                if w != k as int {
                    if w < k as int {
                        assert(rows@[w].what@ == rows@[k as int].what@);
                    } else {
                        assert(rows@[k as int].what@ == rows@[w].what@);
                    }
                    assert(false);
                }
            }
            return k;
        }
        k += 1;
    }
    assert(!has_what(rows@, rows@[i as int].location@));
    let mut k: usize = 0;
    while k < n
        invariant
            0 <= k <= n,
            i < n,
            n == rows@.len(),
            2 * n <= usize::MAX,
            !has_what(rows@, rows@[i as int].location@),
            forall|a: int|
                0 <= a < k ==> (#[trigger] rows@[a]).location@ != rows@[i as int].location@,
        decreases n - k,
    {
        if rows[k].location == rows[i].location {
            proof {
                assert(rows@[k as int].location@ == rows@[i as int].location@);
                lemma_first_loc_index(rows@, rows@[i as int].location@);
                let f = first_loc_index(rows@, rows@[i as int].location@);
                if f != k as int {
                    assert(false);
                }
            }
            return n + k;
        }
        k += 1;
    }
    assert(rows@[i as int].location@ == rows@[i as int].location@);
    assert(false);
    0
}

/// The records of an import satisfy the store invariant before the
/// compaction pass: each row owns its index as `what_id`, and every
/// location string resolves to one id.
pub proof fn lemma_import_spec_store_wf(rows: Seq<CsvRecord>)
    requires
        !dup_what(rows),
        2 * rows.len() <= usize::MAX as nat,
    ensures
        crate::data::store_wf(import_spec(rows)),
{
    let out = import_spec(rows);
    let n = rows.len() as int;
    assert(crate::data::whats_unique(out)) by {
        assert forall|i: int, j: int|
            0 <= i < out.len() && 0 <= j < out.len() && i != j implies (#[trigger] out[i]).what_id
            != (#[trigger] out[j]).what_id by {}
    }
    assert(crate::data::id_strings_consistent(out)) by {
        assert forall|i: int, j: int|
            0 <= i < out.len() && 0 <= j < out.len() implies {
            &&& ((#[trigger] out[i]).what_id == (#[trigger] out[j]).what_id ==> out[i].what@
                == out[j].what@)
            &&& (out[i].what_id == out[j].location_id ==> out[i].what@ == out[j].location@)
            &&& (out[i].location_id == out[j].location_id ==> out[i].location@ == out[j].location@)
        } by {
            lemma_import_loc_entry(rows, i);
            lemma_import_loc_entry(rows, j);
        }
    }
}

proof fn lemma_import_loc_entry(rows: Seq<CsvRecord>, i: int)
    requires
        0 <= i < rows.len(),
    ensures
        has_what(rows, rows[i].location@) ==> 0 <= import_loc_id(rows, i) < rows.len() && rows[
            import_loc_id(rows, i)
        ].what@ == rows[i].location@,
        !has_what(rows, rows[i].location@) ==> rows.len() <= import_loc_id(rows, i) < 2 * rows.len()
            && rows[import_loc_id(rows, i) - rows.len()].location@ == rows[i].location@,
{
    if has_what(rows, rows[i].location@) {
        let w = what_index(rows, rows[i].location@);
        assert(0 <= w < rows.len() && rows[w].what@ == rows[i].location@);
    } else {
        assert(exists|k: int|
            0 <= k < rows.len() && (#[trigger] rows[k]).location@ == rows[i].location@) by {
            assert(rows[i].location@ == rows[i].location@);
        }
        lemma_first_loc_index(rows, rows[i].location@);
    }
}

/// The rows of an export: the four CSV columns of each record, in store
/// order.
pub fn export_csv_rows(records: &Vec<Record>) -> (r: Vec<CsvRecord>)
    ensures
        r@.len() == records@.len(),
        forall|i: int|
            0 <= i < records@.len() ==> {
                &&& (#[trigger] r@[i]).what == records@[i].what
                &&& r@[i].location == records@[i].location
                &&& r@[i].updated == records@[i].updated
                &&& r@[i].notes == records@[i].notes
            },
{
    let mut r: Vec<CsvRecord> = Vec::new();
    let n = records.len();
    let mut i: usize = 0;
    while i < n
        invariant
            0 <= i <= n,
            n == records@.len(),
            r@.len() == i,
            forall|k: int|
                0 <= k < i ==> {
                    &&& (#[trigger] r@[k]).what == records@[k].what
                    &&& r@[k].location == records@[k].location
                    &&& r@[k].updated == records@[k].updated
                    &&& r@[k].notes == records@[k].notes
                },
        decreases n - i,
    {
        let rec = &records[i];
        r.push(
            CsvRecord {
                what: rec.what.clone(),
                location: rec.location.clone(),
                updated: rec.updated.clone(),
                notes: rec.notes.clone(),
            },
        );
        i += 1;
    }
    r
}

} // verus!
