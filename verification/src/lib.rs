//! Decoder for flight-controller blackbox logs: an ASCII header block that
//! describes a column schema, followed by a binary stream of records whose
//! values are variable-length or fixed-width encoded.

use vstd::prelude::*;

pub mod vlq;
pub mod text;
pub mod header;
pub mod schema;
pub mod decoder;
pub mod project;

verus! {

/// The fatal conditions of a decode. Everything else degrades locally:
/// malformed attributes fall back to defaults and truncated or undecodable
/// records end the record stream early.
#[derive(Clone, Copy, Debug, PartialEq, Eq, Structural)]
pub enum LogError {
    /// No header line carries the field-name list, so no schema exists.
    MissingNameHeader,
    /// The schema offers no columns to decode records by.
    EmptySchema,
}

/// A decoded, projected table: a header row of column names and one row
/// of values per complete record, all rows the header's width.
#[derive(Debug)]
pub struct Table {
    pub header: Vec<Vec<u8>>,
    pub rows: Vec<Vec<i32>>,
}

/// The projected rows of a payload: every complete record's values at the
/// projection positions of the desired columns.
pub open spec fn table_rows_spec(
    payload: Seq<u8>,
    fields: Seq<schema::FieldDefView>,
    desired: Seq<Seq<u8>>,
) -> Seq<Seq<i32>> {
    decoder::decode_all(payload, 0, fields).map(
        |i: int, vs: Seq<i32>| project::project_vals(vs, project::proj_indices(fields, desired)),
    )
}

/// Decodes a whole file image: scans the header block off the front,
/// derives the schema from it, decodes the binary payload into records,
/// and projects each record to the desired columns, in the caller's order.
/// Fails exactly when no header line carries the field-name list.
pub fn decode_log(data: &[u8], desired: &Vec<Vec<u8>>) -> (r: Result<Table, LogError>)
    ensures
        ({
            let hs = header::header_lines(data@, 0);
            let fields = schema::schema_spec(hs);
            let payload = data@.skip(header::payload_start(data@, 0));
            match r {
                Ok(t) => schema::last_rest(hs, schema::name_prefix()) is Some
                    && t.header.deep_view() == project::proj_names(fields, desired.deep_view())
                    && t.rows.deep_view() == table_rows_spec(payload, fields, desired.deep_view()),
                Err(e) => schema::last_rest(hs, schema::name_prefix()) is None && e
                    == LogError::MissingNameHeader,
            }
        }),
{
    let ghost ds = desired.deep_view();
    let (headers, payload) = header::scan_header(data);
    let schema = match schema::build_schema(&headers) {
        Ok(s) => s,
        Err(e) => {
            return Err(e);
        },
    };
    // A schema from build_schema always has at least one column, so
    // decode_records cannot reject it; the arm is dead.
    let recs = match decoder::decode_records(payload.as_slice(), &schema) {
        Ok(rs) => rs,
        Err(_) => {
            return Err(LogError::MissingNameHeader);
        },
    };
    let indices = project::projection_indices(&schema, desired);
    let head = project::projection_header(&schema, desired);
    let ghost pidx = project::proj_indices(schema@, ds);
    let ghost target = table_rows_spec(payload@, schema@, ds);
    proof {
        decoder::lemma_decode_all_record_len(payload@, 0, schema@);
    }
    let mut rows: Vec<Vec<i32>> = Vec::new();
    let n = recs.len();
    let mut k: usize = 0;
    while k < n
        invariant
            k <= n == recs@.len(),
            ds == desired.deep_view(),
            pidx == project::proj_indices(schema@, ds),
            recs.deep_view() == decoder::decode_all(payload@, 0, schema@),
            forall|i: int|
                0 <= i < recs@.len() ==> #[trigger] decoder::decode_all(
                    payload@,
                    0,
                    schema@,
                )[i].len() == schema@.len(),
            indices@.len() == pidx.len(),
            forall|m: int|
                0 <= m < indices@.len() ==> (#[trigger] indices@[m]) as int == pidx[m] && (
                indices@[m] as int) < schema@.len(),
            rows.deep_view().len() == k,
            forall|i: int|
                0 <= i < k ==> #[trigger] rows.deep_view()[i] == project::project_vals(
                    recs.deep_view()[i],
                    pidx,
                ),
        decreases n - k,
    {
        let rec = &recs[k];
        proof {
            assert(rec@ == recs.deep_view()[k as int]);
            assert(recs.deep_view()[k as int] == decoder::decode_all(payload@, 0, schema@)[
            k as int]);
            assert(decoder::decode_all(payload@, 0, schema@)[k as int].len() == schema@.len());
            assert forall|m: int| 0 <= m < indices@.len() implies (indices@[m] as int)
                < rec@.len() by {
                assert((indices@[m] as int) < schema@.len());
            }
        }
        let ghost rows0 = rows.deep_view();
        let row = project::project_record(rec, &indices);
        proof {
            assert(row@ =~= project::project_vals(rec@, pidx));
            assert(row.deep_view() =~= row@);
        }
        rows.push(row);
        proof {
            assert(rows.deep_view() =~= rows0.push(row@));
        }
        k = k + 1;
    }
    proof {
        assert(rows.deep_view() =~= target);
    }
    Ok(Table { header: head, rows })
}

} // verus!
