//! Decoding the binary payload into records.
//!
//! A single cursor runs through the payload. Each record decodes one value
//! per schema column, in schema order; the cursor only ever moves forward.
//! A record that cannot be completed — the payload ran out mid-field, or a
//! column carries an unknown encoding — is dropped, and decoding stops
//! there: after a failed field the cursor's position is unreliable, so no
//! resynchronization is attempted.

use vstd::prelude::*;
use crate::schema::{EncodingKind, FieldDefinition, FieldDefView, Schema};
use crate::vlq::{uvlq_len, unsigned_vlq_at, signed_vlq_at, read_unsigned_vlq, read_signed_vlq};

verus! {

/// One decoded record: a signed 32-bit value for every schema column, in
/// schema order.
#[derive(Debug, PartialEq, Eq)]
pub struct DecodedRecord {
    pub values: Vec<i32>,
}

impl View for DecodedRecord {
    type V = Seq<i32>;

    open spec fn view(&self) -> Seq<i32> {
        self.values@
    }
}

impl DeepView for DecodedRecord {
    type V = Seq<i32>;

    open spec fn deep_view(&self) -> Seq<i32> {
        self.values@
    }
}

/// Value of one byte as a column value: two's complement if the column is
/// signed, plain if not.
pub open spec fn fixed8_val(b: u8, signed: bool) -> i32 {
    if signed && b >= 128 {
        (b - 256) as i32
    } else {
        b as i32
    }
}

/// Four little-endian bytes as an unsigned 32-bit quantity.
pub open spec fn le32(b0: u8, b1: u8, b2: u8, b3: u8) -> u32 {
    (b0 as u32) | ((b1 as u32) << 8) | ((b2 as u32) << 16) | ((b3 as u32) << 24)
}

/// Decoding one value at `pos`: the value and the position after it, or
/// nothing when the field cannot be decoded there — the cursor already sits
/// at the end, a fixed 32-bit field lacks its four bytes, or the encoding
/// is unknown.
pub open spec fn decode_value(data: Seq<u8>, pos: int, fd: FieldDefView) -> Option<(i32, int)> {
    if !(0 <= pos < data.len()) {
        Option::None
    } else {
        match fd.encoding {
            EncodingKind::SignedVlq => Option::Some(
                (signed_vlq_at(data, pos), pos + uvlq_len(data, pos)),
            ),
            EncodingKind::UnsignedVlq => Option::Some(
                (unsigned_vlq_at(data, pos) as i32, pos + uvlq_len(data, pos)),
            ),
            EncodingKind::Fixed8 => Option::Some((fixed8_val(data[pos], fd.signed), pos + 1)),
            EncodingKind::Fixed32Le => if pos + 4 <= data.len() {
                Option::Some(
                    (le32(data[pos], data[pos + 1], data[pos + 2], data[pos + 3]) as i32, pos + 4),
                )
            } else {
                Option::None
            },
            EncodingKind::Unknown(_) => Option::None,
        }
    }
}

/// Decoding the given fields in order from `pos`: their values and the
/// position after them, or nothing if any field fails.
pub open spec fn decode_fields(data: Seq<u8>, pos: int, fields: Seq<FieldDefView>) -> Option<
    (Seq<i32>, int),
>
    decreases fields.len(),
{
    if fields.len() == 0 {
        Option::Some((Seq::empty(), pos))
    } else {
        match decode_value(data, pos, fields[0]) {
            Option::None => Option::None,
            Option::Some((v, p2)) => match decode_fields(data, p2, fields.drop_first()) {
                Option::None => Option::None,
                Option::Some((vs, p3)) => Option::Some((seq![v] + vs, p3)),
            },
        }
    }
}

/// A successful record decode stays within the buffer, yields one value
/// per field, and, when there is at least one field, strictly advances.
pub proof fn lemma_decode_fields_advances(data: Seq<u8>, pos: int, fields: Seq<FieldDefView>)
    requires
        0 <= pos <= data.len(),
        decode_fields(data, pos, fields) is Some,
    ensures
        ({
            let (vs, p2) = decode_fields(data, pos, fields)->0;
            pos <= p2 <= data.len() && vs.len() == fields.len() && (fields.len() > 0 ==> pos < p2)
        }),
    decreases fields.len(),
{
    if fields.len() > 0 {
        crate::vlq::lemma_uvlq_len_bounds(data, pos);
        let (v, p2) = decode_value(data, pos, fields[0])->0;
        lemma_decode_fields_advances(data, p2, fields.drop_first());
    }
}

/// All the complete records the payload holds from `pos` on: one after the
/// other, until the payload is exhausted or a record fails. There are none
/// when there are no fields to decode by.
pub open spec fn decode_all(data: Seq<u8>, pos: int, fields: Seq<FieldDefView>) -> Seq<Seq<i32>>
    decreases data.len() - pos,
    via decode_all_decreases
{
    if !(0 <= pos < data.len()) || fields.len() == 0 {
        Seq::empty()
    } else {
        match decode_fields(data, pos, fields) {
            Option::None => Seq::empty(),
            Option::Some((vs, p2)) => seq![vs] + decode_all(data, p2, fields),
        }
    }
}

#[via_fn]
proof fn decode_all_decreases(data: Seq<u8>, pos: int, fields: Seq<FieldDefView>) {
    if 0 <= pos < data.len() && fields.len() > 0 && decode_fields(data, pos, fields) is Some {
        lemma_decode_fields_advances(data, pos, fields);
    }
}

/// A payload of length zero yields no records at all.
pub proof fn lemma_empty_payload(data: Seq<u8>, fields: Seq<FieldDefView>)
    requires
        data.len() == 0,
    ensures
        decode_all(data, 0, fields) =~= Seq::<Seq<i32>>::empty(),
{
}

/// A position where the next record cannot be completed contributes no
/// record: the trailing partial record is dropped, not emitted.
pub proof fn lemma_truncated_tail(data: Seq<u8>, pos: int, fields: Seq<FieldDefView>)
    requires
        decode_fields(data, pos, fields) is None,
    ensures
        decode_all(data, pos, fields) =~= Seq::<Seq<i32>>::empty(),
{
}

/// Every record decoded from `pos` on has one value per field.
pub proof fn lemma_decode_all_record_len(data: Seq<u8>, pos: int, fields: Seq<FieldDefView>)
    requires
        0 <= pos <= data.len(),
    ensures
        forall|i: int|
            0 <= i < decode_all(data, pos, fields).len() ==> #[trigger] decode_all(
                data,
                pos,
                fields,
            )[i].len() == fields.len(),
    decreases data.len() - pos,
{
    if 0 <= pos < data.len() && fields.len() > 0 && decode_fields(data, pos, fields) is Some {
        lemma_decode_fields_advances(data, pos, fields);
        let (vs, p2) = decode_fields(data, pos, fields)->0;
        lemma_decode_all_record_len(data, p2, fields);
        assert forall|i: int| 0 <= i < decode_all(data, pos, fields).len() implies #[trigger] decode_all(
            data,
            pos,
            fields,
        )[i].len() == fields.len() by {
            if i > 0 {
                assert(decode_all(data, pos, fields)[i] == decode_all(data, p2, fields)[i - 1]);
            }
        }
    }
}

/// Reads one byte as a column value, sign-extending when `signed` says to.
/// At the end of the buffer it reads nothing and returns zero.
pub fn read_fixed8(data: &[u8], cursor: &mut usize, signed: bool) -> (r: i32)
    ensures
        *old(cursor) < data@.len() ==> r == fixed8_val(data@[*old(cursor) as int], signed)
            && *final(cursor) == *old(cursor) + 1,
        *old(cursor) >= data@.len() ==> r == 0 && *final(cursor) == *old(cursor),
{
    if *cursor < data.len() {
        let b = data[*cursor];
        *cursor = *cursor + 1;
        if signed {
            proof {
                assert(b >= 128 ==> (b as i8) as i32 == b - 256) by (bit_vector);
                assert(b < 128 ==> (b as i8) as i32 == b) by (bit_vector);
            }
            (b as i8) as i32
        } else {
            b as i32
        }
    } else {
        0
    }
}

/// Reads four little-endian bytes as a 32-bit value. With fewer than four
/// bytes left it reads nothing and returns zero.
pub fn read_fixed32_le(data: &[u8], cursor: &mut usize) -> (r: i32)
    ensures
        *old(cursor) + 4 <= data@.len() ==> r == le32(
            data@[*old(cursor) as int],
            data@[*old(cursor) + 1],
            data@[*old(cursor) + 2],
            data@[*old(cursor) + 3],
        ) as i32 && *final(cursor) == *old(cursor) + 4,
        *old(cursor) + 4 > data@.len() ==> r == 0 && *final(cursor) == *old(cursor),
{
    if *cursor <= data.len() && data.len() - *cursor >= 4 {
        let b0 = data[*cursor];
        let b1 = data[*cursor + 1];
        let b2 = data[*cursor + 2];
        let b3 = data[*cursor + 3];
        *cursor = *cursor + 4;
        let v: u32 = (b0 as u32) | ((b1 as u32) << 8) | ((b2 as u32) << 16) | ((b3 as u32) << 24);
        v as i32
    } else {
        0
    }
}

/// Decodes one value at the cursor according to the field's encoding, or
/// reports that the field cannot be decoded there. On failure the cursor
/// stays put.
fn decode_one(data: &[u8], cursor: &mut usize, fd: &FieldDefinition) -> (r: Option<i32>)
    requires
        *old(cursor) <= data@.len(),
    ensures
        *final(cursor) <= data@.len(),
        *old(cursor) <= *final(cursor),
        match decode_value(data@, *old(cursor) as int, fd@) {
            Option::Some((v, p2)) => r == Option::Some(v) && *final(cursor) as int == p2,
            Option::None => r is None && *final(cursor) == *old(cursor),
        },
{
    if *cursor >= data.len() {
        return None;
    }
    proof {
        crate::vlq::lemma_uvlq_len_bounds(data@, *cursor as int);
    }
    match fd.encoding {
        EncodingKind::SignedVlq => Some(read_signed_vlq(data, cursor)),
        EncodingKind::UnsignedVlq => Some(read_unsigned_vlq(data, cursor) as i32),
        EncodingKind::Fixed8 => Some(read_fixed8(data, cursor, fd.signed)),
        EncodingKind::Fixed32Le => {
            if data.len() - *cursor >= 4 {
                Some(read_fixed32_le(data, cursor))
            } else {
                None
            }
        },
        EncodingKind::Unknown(_) => None,
    }
}

/// Decodes one record at the cursor: one value per schema column. On
/// failure the record is discarded; the cursor may then stand anywhere
/// between the record's start and the end of the buffer.
fn decode_record(data: &[u8], cursor: &mut usize, schema: &Schema) -> (r: Option<DecodedRecord>)
    requires
        *old(cursor) <= data@.len(),
    ensures
        *final(cursor) <= data@.len(),
        *old(cursor) <= *final(cursor),
        match decode_fields(data@, *old(cursor) as int, schema@) {
            Option::Some((vs, p2)) => r is Some && r->0@ == vs && *final(cursor) as int == p2,
            Option::None => r is None,
        },
{
    let ghost p0 = *cursor as int;
    let mut values: Vec<i32> = Vec::new();
    let n = schema.fields.len();
    let mut k: usize = 0;
    proof {
        assert(schema@.skip(0) =~= schema@);
        if decode_fields(data@, p0, schema@) is Some {
            let (vs, p2) = decode_fields(data@, p0, schema@)->0;
            assert(values@ + vs =~= vs);
        }
    }
    while k < n
        invariant
            k <= n == schema.fields@.len(),
            *cursor <= data@.len(),
            p0 == *old(cursor) as int,
            p0 <= *cursor as int,
            values@.len() == k,
            decode_fields(data@, p0, schema@) == (match decode_fields(
                data@,
                *cursor as int,
                schema@.skip(k as int),
            ) {
                Option::None => Option::None::<(Seq<i32>, int)>,
                Option::Some((vs, p2)) => Option::Some((values@ + vs, p2)),
            }),
        decreases n - k,
    {
        let fd = &schema.fields[k];
        proof {
            assert(fd@ == schema@[k as int]);
            assert(schema@.skip(k as int)[0] == schema@[k as int]);
            assert(schema@.skip(k as int).drop_first() =~= schema@.skip(k as int + 1));
        }
        let ghost c0 = *cursor as int;
        let ghost values0 = values@;
        let v = decode_one(data, cursor, fd);
        match v {
            Some(x) => {
                values.push(x);
                proof {
                    if decode_fields(data@, *cursor as int, schema@.skip(k as int + 1)) is Some {
                        let (vs, p3) = decode_fields(
                            data@,
                            *cursor as int,
                            schema@.skip(k as int + 1),
                        )->0;
                        assert(values@ + vs =~= values0 + (seq![x] + vs));
                    }
                }
            },
            None => {
                return None;
            },
        }
        k = k + 1;
    }
    proof {
        assert(schema@.skip(n as int) =~= Seq::<FieldDefView>::empty());
        assert(values@ + Seq::<i32>::empty() =~= values@);
    }
    Some(DecodedRecord { values })
}

/// Decodes records until the payload is exhausted or a record fails, the
/// failed record being dropped. A schema with no columns cannot drive the
/// cursor forward and is rejected as a whole.
pub fn decode_records(payload: &[u8], schema: &Schema) -> (r: Result<
    Vec<DecodedRecord>,
    crate::LogError,
>)
    ensures
        match r {
            Ok(recs) => schema@.len() > 0 && recs.deep_view() == decode_all(payload@, 0, schema@),
            Err(e) => schema@.len() == 0 && e == crate::LogError::EmptySchema,
        },
{
    if schema.fields.len() == 0 {
        return Err(crate::LogError::EmptySchema);
    }
    let mut recs: Vec<DecodedRecord> = Vec::new();
    let mut cursor: usize = 0;
    proof {
        assert(recs.deep_view() + decode_all(payload@, 0, schema@) =~= decode_all(
            payload@,
            0,
            schema@,
        ));
    }
    loop
        invariant_except_break
            cursor <= payload@.len(),
            schema@.len() > 0,
            decode_all(payload@, 0, schema@) == recs.deep_view() + decode_all(
                payload@,
                cursor as int,
                schema@,
            ),
        ensures
            recs.deep_view() == decode_all(payload@, 0, schema@),
        decreases payload@.len() - cursor,
    {
        if cursor >= payload.len() {
            proof {
                assert(recs.deep_view() =~= decode_all(payload@, 0, schema@));
            }
            break;
        }
        let ghost c0 = cursor as int;
        let ghost recs0 = recs.deep_view();
        let rec = decode_record(payload, &mut cursor, schema);
        match rec {
            Some(record) => {
                proof {
                    lemma_decode_fields_advances(payload@, c0, schema@);
                }
                recs.push(record);
                proof {
                    assert(recs.deep_view() =~= recs0.push(record@));
                    assert(decode_all(payload@, 0, schema@) =~= recs.deep_view() + decode_all(
                        payload@,
                        cursor as int,
                        schema@,
                    ));
                }
            },
            None => {
                proof {
                    assert(recs.deep_view() =~= decode_all(payload@, 0, schema@));
                }
                break;
            },
        }
    }
    Ok(recs)
}

} // verus!
