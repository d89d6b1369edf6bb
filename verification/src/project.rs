//! Selecting and ordering a caller-chosen subset of columns.
//!
//! The caller names the columns it wants, in the order it wants them. A
//! name the schema does not carry is silently skipped; the rest keep the
//! caller's order, not the schema's. Lookups go through an index list
//! built once per schema, so each record is projected by plain indexing.

use vstd::prelude::*;
use crate::schema::{FieldDefView, Schema};
use crate::decoder::DecodedRecord;
use crate::text::{bytes_eq, bytes_range};

verus! {

/// Index of the first schema column bearing `name`, if any.
pub open spec fn find_name(fields: Seq<FieldDefView>, name: Seq<u8>) -> Option<int>
    decreases fields.len(),
{
    if fields.len() == 0 {
        Option::None
    } else if fields[0].name == name {
        Option::Some(0)
    } else {
        match find_name(fields.drop_first(), name) {
            Option::None => Option::None,
            Option::Some(i) => Option::Some(i + 1),
        }
    }
}

/// A found index is in range, bears the name, and is the first to do so.
pub proof fn lemma_find_name_props(fields: Seq<FieldDefView>, name: Seq<u8>)
    ensures
        match find_name(fields, name) {
            Option::Some(i) => 0 <= i < fields.len() && fields[i].name == name && (forall|j: int|
                0 <= j < i ==> fields[j].name != name),
            Option::None => forall|j: int| 0 <= j < fields.len() ==> fields[j].name != name,
        },
    decreases fields.len(),
{
    if fields.len() > 0 && fields[0].name != name {
        lemma_find_name_props(fields.drop_first(), name);
        assert(forall|j: int| 1 <= j < fields.len() ==> fields[j] == fields.drop_first()[j - 1]);
    }
}

/// The schema positions of the desired names the schema has, in the
/// caller's order.
pub open spec fn proj_indices(fields: Seq<FieldDefView>, desired: Seq<Seq<u8>>) -> Seq<int>
    decreases desired.len(),
{
    if desired.len() == 0 {
        Seq::empty()
    } else {
        let rest = proj_indices(fields, desired.drop_first());
        match find_name(fields, desired[0]) {
            Option::None => rest,
            Option::Some(i) => seq![i] + rest,
        }
    }
}

/// The desired names the schema has, in the caller's order.
pub open spec fn proj_names(fields: Seq<FieldDefView>, desired: Seq<Seq<u8>>) -> Seq<Seq<u8>>
    decreases desired.len(),
{
    if desired.len() == 0 {
        Seq::empty()
    } else {
        let rest = proj_names(fields, desired.drop_first());
        match find_name(fields, desired[0]) {
            Option::None => rest,
            Option::Some(i) => seq![desired[0]] + rest,
        }
    }
}

/// One output row: the record's values at the projection indices.
pub open spec fn project_vals(values: Seq<i32>, indices: Seq<int>) -> Seq<i32> {
    indices.map(|k: int, ix: int| values[ix])
}

/// The header row and every projected row have the same width, and every
/// projection index points into the schema: no row can come up short of
/// the header.
pub proof fn lemma_projection_widths(fields: Seq<FieldDefView>, desired: Seq<Seq<u8>>)
    ensures
        proj_names(fields, desired).len() == proj_indices(fields, desired).len(),
        forall|m: int|
            0 <= m < proj_indices(fields, desired).len() ==> 0 <= #[trigger] proj_indices(
                fields,
                desired,
            )[m] < fields.len(),
    decreases desired.len(),
{
    if desired.len() > 0 {
        lemma_projection_widths(fields, desired.drop_first());
        lemma_find_name_props(fields, desired[0]);
    }
}

/// Index of the first schema column bearing `name`, if any.
pub fn find_field_index(schema: &Schema, name: &[u8]) -> (r: Option<usize>)
    ensures
        match find_name(schema@, name@) {
            Option::Some(i) => r is Some && r->0 as int == i,
            Option::None => r is None,
        },
{
    let n = schema.fields.len();
    let mut k: usize = 0;
    proof {
        assert(schema@.skip(0) =~= schema@);
    }
    while k < n
        invariant
            k <= n == schema.fields@.len(),
            find_name(schema@, name@) == (match find_name(schema@.skip(k as int), name@) {
                Option::None => Option::None::<int>,
                Option::Some(i) => Option::Some(i + k as int),
            }),
        decreases n - k,
    {
        let fd = &schema.fields[k];
        proof {
            assert(fd@ == schema@[k as int]);
            assert(schema@.skip(k as int)[0] == schema@[k as int]);
            assert(schema@.skip(k as int).drop_first() =~= schema@.skip(k as int + 1));
        }
        if bytes_eq(fd.name.as_slice(), name) {
            return Some(k);
        }
        k = k + 1;
    }
    proof {
        assert(schema@.skip(n as int) =~= Seq::<FieldDefView>::empty());
    }
    None
}

/// The schema positions of the desired names the schema has, in the
/// caller's order, built once so each record can be projected by plain
/// indexing.
pub fn projection_indices(schema: &Schema, desired: &Vec<Vec<u8>>) -> (r: Vec<usize>)
    ensures
        r@.len() == proj_indices(schema@, desired.deep_view()).len(),
        forall|m: int|
            0 <= m < r@.len() ==> r@[m] as int == proj_indices(schema@, desired.deep_view())[m]
                && (r@[m] as int) < schema@.len(),
{
    let ghost ds = desired.deep_view();
    let n = desired.len();
    let mut out: Vec<usize> = Vec::new();
    let ghost target = proj_indices(schema@, ds);
    proof {
        lemma_projection_widths(schema@, ds);
    }
    let mut k: usize = 0;
    proof {
        assert(ds.skip(0) =~= ds);
    }
    while k < n
        invariant
            k <= n == desired@.len(),
            ds == desired.deep_view(),
            target == proj_indices(schema@, ds),
            target =~= out@.map(|m: int, x: usize| x as int) + proj_indices(
                schema@,
                ds.skip(k as int),
            ),
        decreases n - k,
    {
        let name = &desired[k];
        let ghost out0 = out@;
        proof {
            assert(name@ =~= ds[k as int]);
            assert(ds.skip(k as int)[0] == ds[k as int]);
            assert(ds.skip(k as int).drop_first() =~= ds.skip(k as int + 1));
        }
        match find_field_index(schema, name.as_slice()) {
            Some(ix) => {
                out.push(ix);
                proof {
                    assert(out@.map(|m: int, x: usize| x as int) =~= out0.map(
                        |m: int, x: usize| x as int,
                    ).push(ix as int));
                    assert(target =~= out@.map(|m: int, x: usize| x as int) + proj_indices(
                        schema@,
                        ds.skip(k as int + 1),
                    ));
                }
            },
            None => {
            },
        }
        k = k + 1;
    }
    proof {
        assert(ds.skip(n as int) =~= Seq::<Seq<u8>>::empty());
        let mv = out@.map(|m: int, x: usize| x as int);
        assert(target =~= mv);
        lemma_projection_widths(schema@, ds);
        assert forall|m: int| 0 <= m < out@.len() implies out@[m] as int == proj_indices(
            schema@,
            desired.deep_view(),
        )[m] && (out@[m] as int) < schema@.len() by {
            assert(mv[m] == out@[m] as int);
            assert(0 <= proj_indices(schema@, ds)[m] < schema@.len());
        }
    }
    out
}

/// The header row: the desired names the schema has, in the caller's
/// order.
pub fn projection_header(schema: &Schema, desired: &Vec<Vec<u8>>) -> (r: Vec<Vec<u8>>)
    ensures
        r.deep_view() == proj_names(schema@, desired.deep_view()),
{
    let ghost ds = desired.deep_view();
    let n = desired.len();
    let mut out: Vec<Vec<u8>> = Vec::new();
    let mut k: usize = 0;
    proof {
        assert(ds.skip(0) =~= ds);
        assert(out.deep_view() + proj_names(schema@, ds) =~= proj_names(schema@, ds));
    }
    while k < n
        invariant
            k <= n == desired@.len(),
            ds == desired.deep_view(),
            proj_names(schema@, ds) == out.deep_view() + proj_names(schema@, ds.skip(k as int)),
        decreases n - k,
    {
        let name = &desired[k];
        let ghost out0 = out.deep_view();
        proof {
            assert(name@ =~= ds[k as int]);
            assert(ds.skip(k as int)[0] == ds[k as int]);
            assert(ds.skip(k as int).drop_first() =~= ds.skip(k as int + 1));
        }
        match find_field_index(schema, name.as_slice()) {
            Some(_) => {
                let kept = bytes_range(name.as_slice(), 0, name.len());
                proof {
                    assert(kept@ =~= ds[k as int]);
                }
                out.push(kept);
                proof {
                    assert(out.deep_view() =~= out0.push(kept@));
                    assert(proj_names(schema@, ds) =~= out.deep_view() + proj_names(
                        schema@,
                        ds.skip(k as int + 1),
                    ));
                }
            },
            None => {
            },
        }
        k = k + 1;
    }
    proof {
        assert(ds.skip(n as int) =~= Seq::<Seq<u8>>::empty());
        assert(out.deep_view() =~= proj_names(schema@, ds));
    }
    out
}

/// Projects one record: its values at the given indices, in their order.
pub fn project_record(record: &DecodedRecord, indices: &Vec<usize>) -> (r: Vec<i32>)
    requires
        forall|m: int| 0 <= m < indices@.len() ==> (indices@[m] as int) < record@.len(),
    ensures
        r@.len() == indices@.len(),
        forall|m: int| 0 <= m < indices@.len() ==> r@[m] == record@[indices@[m] as int],
{
    let n = indices.len();
    let mut out: Vec<i32> = Vec::new();
    let mut k: usize = 0;
    while k < n
        invariant
            k <= n == indices@.len(),
            forall|m: int| 0 <= m < indices@.len() ==> (indices@[m] as int) < record.values@.len(),
            out@.len() == k,
            forall|m: int| 0 <= m < k ==> out@[m] == record.values@[indices@[m] as int],
        decreases n - k,
    {
        let ix = indices[k];
        out.push(record.values[ix]);
        k = k + 1;
    }
    out
}

} // verus!
