//! Deriving the column schema from the header lines.
//!
//! Four kinds of header line describe the columns, each carrying a
//! comma-separated list aligned by position with the others: the field
//! names, the encoding codes, the signedness flags, and the predictor
//! codes. When a kind of line occurs more than once the last occurrence
//! wins. The name list fixes the column count; the other lists are read at
//! the name's position and fall back to defaults where they are shorter.

use vstd::prelude::*;
use crate::text::{
    has_prefix, split_trim_commas, parse_u8_spec, split_and_trim, parse_u8_or_zero,
    bytes_have_prefix, bytes_eq, bytes_range,
};

verus! {

/// How one column's values are laid out in the binary stream.
#[derive(Clone, Copy, Debug, PartialEq, Eq, Structural)]
pub enum EncodingKind {
    /// Variable-length quantity carrying a zig-zag signed value.
    SignedVlq,
    /// Variable-length quantity read as-is.
    UnsignedVlq,
    /// One byte, sign- or zero-extended according to the signed flag.
    Fixed8,
    /// Four bytes, little endian.
    Fixed32Le,
    /// Any other code from the header; such a column cannot be decoded.
    Unknown(u8),
}

/// One column of the schema: its name and how to decode its values. The
/// predictor code is metadata carried for diagnostics, not applied.
#[derive(Debug)]
pub struct FieldDefinition {
    pub name: Vec<u8>,
    pub encoding: EncodingKind,
    pub signed: bool,
    pub predictor: u8,
}

/// Mathematical image of a field definition.
pub ghost struct FieldDefView {
    pub name: Seq<u8>,
    pub encoding: EncodingKind,
    pub signed: bool,
    pub predictor: u8,
}

impl View for FieldDefinition {
    type V = FieldDefView;

    open spec fn view(&self) -> FieldDefView {
        FieldDefView {
            name: self.name@,
            encoding: self.encoding,
            signed: self.signed,
            predictor: self.predictor,
        }
    }
}

impl DeepView for FieldDefinition {
    type V = FieldDefView;

    open spec fn deep_view(&self) -> FieldDefView {
        self.view()
    }
}

/// The ordered column definitions derived from one file's header.
#[derive(Debug)]
pub struct Schema {
    pub fields: Vec<FieldDefinition>,
}

impl View for Schema {
    type V = Seq<FieldDefView>;

    open spec fn view(&self) -> Seq<FieldDefView> {
        self.fields.deep_view()
    }
}

/// `"H Field I name:"` as bytes.
pub open spec fn name_prefix() -> Seq<u8> {
    seq![72u8, 32u8, 70u8, 105u8, 101u8, 108u8, 100u8, 32u8, 73u8, 32u8, 110u8, 97u8, 109u8, 101u8, 58u8]
}

/// `"H Field I encoding:"` as bytes.
pub open spec fn encoding_prefix() -> Seq<u8> {
    seq![72u8, 32u8, 70u8, 105u8, 101u8, 108u8, 100u8, 32u8, 73u8, 32u8, 101u8, 110u8, 99u8, 111u8, 100u8, 105u8, 110u8, 103u8, 58u8]
}

/// `"H Field I signed:"` as bytes.
pub open spec fn signed_prefix() -> Seq<u8> {
    seq![72u8, 32u8, 70u8, 105u8, 101u8, 108u8, 100u8, 32u8, 73u8, 32u8, 115u8, 105u8, 103u8, 110u8, 101u8, 100u8, 58u8]
}

/// `"H Field I predictor:"` as bytes.
pub open spec fn predictor_prefix() -> Seq<u8> {
    seq![72u8, 32u8, 70u8, 105u8, 101u8, 108u8, 100u8, 32u8, 73u8, 32u8, 112u8, 114u8, 101u8, 100u8, 105u8, 99u8, 116u8, 111u8, 114u8, 58u8]
}

/// What follows `prefix` on the last header line that starts with it, if
/// any line does.
pub open spec fn last_rest(headers: Seq<Seq<u8>>, prefix: Seq<u8>) -> Option<Seq<u8>>
    decreases headers.len(),
{
    if headers.len() == 0 {
        Option::None
    } else if has_prefix(headers.last(), prefix) {
        Option::Some(headers.last().skip(prefix.len() as int))
    } else {
        last_rest(headers.drop_last(), prefix)
    }
}

/// The encoding codes carried by one attribute list.
pub open spec fn codes_of(rest: Seq<u8>) -> Seq<u8> {
    split_trim_commas(rest).map(|i: int, p: Seq<u8>| parse_u8_spec(p))
}

/// The signedness flags carried by one attribute list: a piece is a set
/// flag exactly when it reads `1`.
pub open spec fn signs_of(rest: Seq<u8>) -> Seq<bool> {
    split_trim_commas(rest).map(|i: int, p: Seq<u8>| p == seq![49u8])
}

/// The column names: the trimmed pieces of the last name line, or nothing
/// when no header line carries one.
pub open spec fn parsed_names(headers: Seq<Seq<u8>>) -> Seq<Seq<u8>> {
    match last_rest(headers, name_prefix()) {
        Option::None => Seq::empty(),
        Option::Some(r) => split_trim_commas(r),
    }
}

/// The encoding codes, aligned by position with the names.
pub open spec fn parsed_codes(headers: Seq<Seq<u8>>) -> Seq<u8> {
    match last_rest(headers, encoding_prefix()) {
        Option::None => Seq::empty(),
        Option::Some(r) => codes_of(r),
    }
}

/// The signedness flags, aligned by position with the names.
pub open spec fn parsed_signs(headers: Seq<Seq<u8>>) -> Seq<bool> {
    match last_rest(headers, signed_prefix()) {
        Option::None => Seq::empty(),
        Option::Some(r) => signs_of(r),
    }
}

/// The predictor codes, aligned by position with the names.
pub open spec fn parsed_preds(headers: Seq<Seq<u8>>) -> Seq<u8> {
    match last_rest(headers, predictor_prefix()) {
        Option::None => Seq::empty(),
        Option::Some(r) => codes_of(r),
    }
}

/// The encoding kind a numeric header code stands for.
pub open spec fn kind_of_code(c: u8) -> EncodingKind {
    if c == 0 {
        EncodingKind::SignedVlq
    } else if c == 1 {
        EncodingKind::UnsignedVlq
    } else {
        EncodingKind::Unknown(c)
    }
}

/// Column `i` of the schema: the name at `i`, and each attribute at `i`
/// where its list reaches that far, its default where not.
pub open spec fn field_at(headers: Seq<Seq<u8>>, i: int) -> FieldDefView {
    FieldDefView {
        name: parsed_names(headers)[i],
        encoding: kind_of_code(
            if 0 <= i < parsed_codes(headers).len() {
                parsed_codes(headers)[i]
            } else {
                0
            },
        ),
        signed: 0 <= i < parsed_signs(headers).len() && parsed_signs(headers)[i],
        predictor: if 0 <= i < parsed_preds(headers).len() {
            parsed_preds(headers)[i]
        } else {
            0
        },
    }
}

/// The whole schema: one column per parsed name.
pub open spec fn schema_spec(headers: Seq<Seq<u8>>) -> Seq<FieldDefView> {
    Seq::new(parsed_names(headers).len(), |i: int| field_at(headers, i))
}

/// The column count equals the length of the parsed name list, whatever
/// the lengths of the other three attribute lists.
pub proof fn lemma_schema_column_count(headers: Seq<Seq<u8>>)
    ensures
        schema_spec(headers).len() == parsed_names(headers).len(),
{
}

/// Extending the scanned header sequence by one line either replaces an
/// attribute's source line (when the new line carries that prefix) or
/// leaves it alone.
proof fn lemma_last_rest_step(headers: Seq<Seq<u8>>, i: int, prefix: Seq<u8>)
    requires
        0 <= i < headers.len(),
    ensures
        last_rest(headers.take(i + 1), prefix) == (if has_prefix(headers[i], prefix) {
            Option::Some(headers[i].skip(prefix.len() as int))
        } else {
            last_rest(headers.take(i), prefix)
        }),
{
    let t = headers.take(i + 1);
    assert(t.last() == headers[i]);
    assert(t.drop_last() =~= headers.take(i));
}

/// No line can carry two of the four attribute prefixes: they differ at
/// the byte just after `"H Field I "`.
proof fn lemma_prefixes_distinct(line: Seq<u8>)
    ensures
        !(has_prefix(line, name_prefix()) && has_prefix(line, encoding_prefix())),
        !(has_prefix(line, name_prefix()) && has_prefix(line, signed_prefix())),
        !(has_prefix(line, name_prefix()) && has_prefix(line, predictor_prefix())),
        !(has_prefix(line, encoding_prefix()) && has_prefix(line, signed_prefix())),
        !(has_prefix(line, encoding_prefix()) && has_prefix(line, predictor_prefix())),
        !(has_prefix(line, signed_prefix()) && has_prefix(line, predictor_prefix())),
{
    if has_prefix(line, name_prefix()) {
        assert(line[10] == name_prefix()[10]);
    }
    if has_prefix(line, encoding_prefix()) {
        assert(line[10] == encoding_prefix()[10]);
    }
    if has_prefix(line, signed_prefix()) {
        assert(line[10] == signed_prefix()[10]);
    }
    if has_prefix(line, predictor_prefix()) {
        assert(line[10] == predictor_prefix()[10]);
    }
}

/// `"H Field I name:"` as a byte array.
fn name_prefix_bytes() -> (r: [u8; 15])
    ensures
        r@ == name_prefix(),
{
    let a: [u8; 15] = [72, 32, 70, 105, 101, 108, 100, 32, 73, 32, 110, 97, 109, 101, 58];
    proof {
        assert(a@ =~= name_prefix());
    }
    a
}

/// `"H Field I encoding:"` as a byte array.
fn encoding_prefix_bytes() -> (r: [u8; 19])
    ensures
        r@ == encoding_prefix(),
{
    let a: [u8; 19] = [
        72,
        32,
        70,
        105,
        101,
        108,
        100,
        32,
        73,
        32,
        101,
        110,
        99,
        111,
        100,
        105,
        110,
        103,
        58,
    ];
    proof {
        assert(a@ =~= encoding_prefix());
    }
    a
}

/// `"H Field I signed:"` as a byte array.
fn signed_prefix_bytes() -> (r: [u8; 17])
    ensures
        r@ == signed_prefix(),
{
    let a: [u8; 17] = [72, 32, 70, 105, 101, 108, 100, 32, 73, 32, 115, 105, 103, 110, 101, 100, 58];
    proof {
        assert(a@ =~= signed_prefix());
    }
    a
}

/// `"H Field I predictor:"` as a byte array.
fn predictor_prefix_bytes() -> (r: [u8; 20])
    ensures
        r@ == predictor_prefix(),
{
    let a: [u8; 20] = [
        72,
        32,
        70,
        105,
        101,
        108,
        100,
        32,
        73,
        32,
        112,
        114,
        101,
        100,
        105,
        99,
        116,
        111,
        114,
        58,
    ];
    proof {
        assert(a@ =~= predictor_prefix());
    }
    a
}

/// The encoding kind a numeric header code stands for.
pub fn kind_from_code(c: u8) -> (r: EncodingKind)
    ensures
        r == kind_of_code(c),
{
    if c == 0 {
        EncodingKind::SignedVlq
    } else if c == 1 {
        EncodingKind::UnsignedVlq
    } else {
        EncodingKind::Unknown(c)
    }
}

/// Parses one attribute list into encoding or predictor codes.
fn parse_codes(rest: &[u8]) -> (r: Vec<u8>)
    ensures
        r@ == codes_of(rest@),
{
    let pieces = split_and_trim(rest);
    let mut out: Vec<u8> = Vec::new();
    let mut k: usize = 0;
    while k < pieces.len()
        invariant
            k <= pieces@.len(),
            pieces.deep_view() == split_trim_commas(rest@),
            out@.len() == k,
            forall|m: int| 0 <= m < k ==> out@[m] == parse_u8_spec(pieces.deep_view()[m]),
        decreases pieces@.len() - k,
    {
        let piece = &pieces[k];
        proof {
            assert(piece@ =~= pieces.deep_view()[k as int]);
        }
        let v = parse_u8_or_zero(piece.as_slice());
        out.push(v);
        k = k + 1;
    }
    proof {
        assert(out@ =~= codes_of(rest@));
    }
    out
}

/// Parses one attribute list into signedness flags.
fn parse_signs(rest: &[u8]) -> (r: Vec<bool>)
    ensures
        r@ == signs_of(rest@),
{
    let one: [u8; 1] = [49];
    let pieces = split_and_trim(rest);
    let mut out: Vec<bool> = Vec::new();
    let mut k: usize = 0;
    while k < pieces.len()
        invariant
            k <= pieces@.len(),
            pieces.deep_view() == split_trim_commas(rest@),
            one@ =~= seq![49u8],
            out@.len() == k,
            forall|m: int| 0 <= m < k ==> out@[m] == (pieces.deep_view()[m] == seq![49u8]),
        decreases pieces@.len() - k,
    {
        let piece = &pieces[k];
        proof {
            assert(piece@ =~= pieces.deep_view()[k as int]);
        }
        let v = bytes_eq(piece.as_slice(), one.as_slice());
        out.push(v);
        k = k + 1;
    }
    proof {
        assert(out@ =~= signs_of(rest@));
    }
    out
}

/// Builds the ordered column definitions from the header lines: the last
/// line of each attribute kind wins, the name list fixes the column count,
/// and attributes missing at a position fall back to their defaults.
pub fn parse_field_definitions(headers: &Vec<Vec<u8>>) -> (r: Vec<FieldDefinition>)
    ensures
        r.deep_view() == schema_spec(headers.deep_view()),
        r@.len() == parsed_names(headers.deep_view()).len(),
{
    let ghost hs = headers.deep_view();
    let mut names: Vec<Vec<u8>> = Vec::new();
    let mut codes: Vec<u8> = Vec::new();
    let mut signs: Vec<bool> = Vec::new();
    let mut preds: Vec<u8> = Vec::new();
    let mut i: usize = 0;
    proof {
        assert(names.deep_view() =~= parsed_names(hs.take(0)));
    }
    while i < headers.len()
        invariant
            i <= headers@.len(),
            hs == headers.deep_view(),
            names.deep_view() == parsed_names(hs.take(i as int)),
            codes@ == parsed_codes(hs.take(i as int)),
            signs@ == parsed_signs(hs.take(i as int)),
            preds@ == parsed_preds(hs.take(i as int)),
        decreases headers@.len() - i,
    {
        let line = &headers[i];
        proof {
            assert(hs[i as int] =~= line@);
            lemma_prefixes_distinct(line@);
            lemma_last_rest_step(hs, i as int, name_prefix());
            lemma_last_rest_step(hs, i as int, encoding_prefix());
            lemma_last_rest_step(hs, i as int, signed_prefix());
            lemma_last_rest_step(hs, i as int, predictor_prefix());
        }
        let np = name_prefix_bytes();
        let ep = encoding_prefix_bytes();
        let sp = signed_prefix_bytes();
        let pp = predictor_prefix_bytes();
        if bytes_have_prefix(line.as_slice(), np.as_slice()) {
            let rest = vstd::slice::slice_subrange(line.as_slice(), 15, line.len());
            proof {
                assert(rest@ =~= hs[i as int].skip(name_prefix().len() as int));
            }
            names = split_and_trim(rest);
        } else if bytes_have_prefix(line.as_slice(), ep.as_slice()) {
            let rest = vstd::slice::slice_subrange(line.as_slice(), 19, line.len());
            proof {
                assert(rest@ =~= hs[i as int].skip(encoding_prefix().len() as int));
            }
            codes = parse_codes(rest);
        } else if bytes_have_prefix(line.as_slice(), sp.as_slice()) {
            let rest = vstd::slice::slice_subrange(line.as_slice(), 17, line.len());
            proof {
                assert(rest@ =~= hs[i as int].skip(signed_prefix().len() as int));
            }
            signs = parse_signs(rest);
        } else if bytes_have_prefix(line.as_slice(), pp.as_slice()) {
            let rest = vstd::slice::slice_subrange(line.as_slice(), 20, line.len());
            proof {
                assert(rest@ =~= hs[i as int].skip(predictor_prefix().len() as int));
            }
            preds = parse_codes(rest);
        }
        i = i + 1;
    }
    proof {
        assert(hs.take(headers@.len() as int) =~= hs);
    }
    let mut fields: Vec<FieldDefinition> = Vec::new();
    let mut j: usize = 0;
    while j < names.len()
        invariant
            j <= names@.len(),
            names.deep_view() == parsed_names(hs),
            codes@ == parsed_codes(hs),
            signs@ == parsed_signs(hs),
            preds@ == parsed_preds(hs),
            fields.deep_view().len() == j,
            forall|m: int| 0 <= m < j ==> fields.deep_view()[m] == field_at(hs, m),
        decreases names@.len() - j,
    {
        let ghost fields0 = fields.deep_view();
        let nm = &names[j];
        let name = bytes_range(nm.as_slice(), 0, nm.len());
        proof {
            assert(name@ =~= names.deep_view()[j as int]);
        }
        let encoding = if j < codes.len() {
            kind_from_code(codes[j])
        } else {
            kind_from_code(0)
        };
        let signed = if j < signs.len() {
            signs[j]
        } else {
            false
        };
        let predictor = if j < preds.len() {
            preds[j]
        } else {
            0
        };
        let fd = FieldDefinition { name, encoding, signed, predictor };
        proof {
            assert(fd@ == field_at(hs, j as int));
        }
        fields.push(fd);
        proof {
            assert(fields.deep_view() =~= fields0.push(fd@));
        }
        j = j + 1;
    }
    proof {
        assert(fields.deep_view() =~= schema_spec(hs));
    }
    fields
}

/// Every split has at least one piece, so a present name line always
/// yields at least one column.
pub proof fn lemma_split_nonempty(s: Seq<u8>)
    ensures
        split_trim_commas(s).len() >= 1,
{
    crate::text::lemma_first_comma(s);
}

/// Assembles the schema, or reports that no header line carries the field
/// names, the one condition under which no schema can be built.
pub fn build_schema(headers: &Vec<Vec<u8>>) -> (r: Result<Schema, crate::LogError>)
    ensures
        match r {
            Ok(s) => last_rest(headers.deep_view(), name_prefix()) is Some && s@ == schema_spec(
                headers.deep_view(),
            ) && s@.len() >= 1,
            Err(e) => last_rest(headers.deep_view(), name_prefix()) is None && e
                == crate::LogError::MissingNameHeader,
        },
{
    let fields = parse_field_definitions(headers);
    proof {
        if last_rest(headers.deep_view(), name_prefix()) is Some {
            let rest = last_rest(headers.deep_view(), name_prefix()).unwrap();
            lemma_split_nonempty(rest);
        }
    }
    if fields.len() == 0 {
        Err(crate::LogError::MissingNameHeader)
    } else {
        Ok(Schema { fields })
    }
}

} // verus!
