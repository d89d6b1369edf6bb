use bbl_reader::decoder::decode_records;
use bbl_reader::header::scan_header;
use bbl_reader::project::{find_field_index, project_record, projection_header, projection_indices};
use bbl_reader::schema::{
    build_schema, parse_field_definitions, EncodingKind, FieldDefinition, Schema,
};
use bbl_reader::text::{parse_u8_or_zero, split_and_trim, trim_bytes};
use bbl_reader::{decode_log, LogError};

fn lines(ls: &[&str]) -> Vec<Vec<u8>> {
    ls.iter().map(|s| s.as_bytes().to_vec()).collect()
}

fn file(header: &str, payload: &[u8]) -> Vec<u8> {
    let mut v = header.as_bytes().to_vec();
    v.extend_from_slice(payload);
    v
}

fn field(name: &str, encoding: EncodingKind, signed: bool) -> FieldDefinition {
    FieldDefinition { name: name.as_bytes().to_vec(), encoding, signed, predictor: 0 }
}

#[test]
fn scan_splits_and_trims() {
    let data = file("H one \n  H two\n", &[0xC0, 0x01, 0x02]);
    let (headers, payload) = scan_header(&data);
    assert_eq!(headers, lines(&["H one", "H two"]));
    assert_eq!(payload, vec![0xC0, 0x01, 0x02]);
}

#[test]
fn scan_is_idempotent() {
    let data = file("H one\nH two\n", &[0xC0, 0x50, 0x0A, 0x51]);
    let (_, payload) = scan_header(&data);
    let (again_headers, again_payload) = scan_header(&payload);
    assert_eq!(again_headers.len(), 0);
    assert_eq!(again_payload, payload);

    let header_only = file("H one\nH two\n", &[]);
    let (hs, empty_payload) = scan_header(&header_only);
    assert_eq!(hs.len(), 2);
    let (h2, p2) = scan_header(&empty_payload);
    assert_eq!(h2.len(), 0);
    assert_eq!(p2, empty_payload);
}

#[test]
fn scan_keeps_whole_non_ascii_line_in_payload() {
    let mut data = b"H ok\nab".to_vec();
    data.push(0xFF);
    data.extend_from_slice(b"cd\nrest");
    let (headers, payload) = scan_header(&data);
    assert_eq!(headers, lines(&["H ok"]));
    let mut expected = b"ab".to_vec();
    expected.push(0xFF);
    expected.extend_from_slice(b"cd\nrest");
    assert_eq!(payload, expected);
}

#[test]
fn schema_count_follows_name_list() {
    let headers = lines(&[
        "H Field I name:a,b,c",
        "H Field I encoding:1",
        "H Field I signed:",
        "H Field I predictor:7,8,9,10",
    ]);
    let defs = parse_field_definitions(&headers);
    assert_eq!(defs.len(), 3);
    assert_eq!(defs[0].encoding, EncodingKind::UnsignedVlq);
    assert_eq!(defs[1].encoding, EncodingKind::SignedVlq);
    assert_eq!(defs[2].encoding, EncodingKind::SignedVlq);
    assert!(!defs[0].signed && !defs[1].signed && !defs[2].signed);
    assert_eq!(defs[0].predictor, 7);
    assert_eq!(defs[1].predictor, 8);
    assert_eq!(defs[2].predictor, 9);
}

#[test]
fn attribute_parsing_details() {
    let headers = lines(&[
        "H Field I name: a , b,c ,d,e",
        "H Field I encoding: 1 ,x,256,+1,9",
        "H Field I signed:1,0, 1 ,2,",
    ]);
    let defs = parse_field_definitions(&headers);
    assert_eq!(defs.len(), 5);
    assert_eq!(defs[0].name, b"a".to_vec());
    assert_eq!(defs[1].name, b"b".to_vec());
    assert_eq!(defs[0].encoding, EncodingKind::UnsignedVlq);
    assert_eq!(defs[1].encoding, EncodingKind::SignedVlq);
    assert_eq!(defs[2].encoding, EncodingKind::SignedVlq);
    assert_eq!(defs[3].encoding, EncodingKind::UnsignedVlq);
    assert_eq!(defs[4].encoding, EncodingKind::Unknown(9));
    assert!(defs[0].signed);
    assert!(!defs[1].signed);
    assert!(defs[2].signed);
    assert!(!defs[3].signed);
    assert!(!defs[4].signed);
}

#[test]
fn last_attribute_line_wins() {
    let headers = lines(&[
        "H Field I name:a,b",
        "H Field I name:x,y,z",
        "H Field I encoding:0,0,0",
        "H Field I encoding:1,1,1",
    ]);
    let defs = parse_field_definitions(&headers);
    assert_eq!(defs.len(), 3);
    assert_eq!(defs[0].name, b"x".to_vec());
    assert_eq!(defs[2].name, b"z".to_vec());
    assert_eq!(defs[0].encoding, EncodingKind::UnsignedVlq);
}

#[test]
fn missing_name_header_is_fatal() {
    let headers = lines(&["H Field I encoding:1,1"]);
    assert!(matches!(build_schema(&headers), Err(LogError::MissingNameHeader)));

    let data = file("H Field I encoding:1,1\n", &[0xFF, 0x05]);
    let desired = lines(&["a"]);
    assert!(matches!(decode_log(&data, &desired), Err(LogError::MissingNameHeader)));
}

#[test]
fn empty_schema_is_rejected() {
    let schema = Schema { fields: Vec::new() };
    let payload = [0x05u8, 0x0A];
    assert!(matches!(decode_records(&payload, &schema), Err(LogError::EmptySchema)));
}

#[test]
fn two_column_example() {
    let headers = lines(&[
        "H Field I name:loopIteration,time",
        "H Field I encoding:1,1",
        "H Field I signed:0,0",
    ]);
    let schema = build_schema(&headers).unwrap();
    assert_eq!(schema.fields.len(), 2);
    let payload = [0x05u8, 0x0A];
    let recs = decode_records(&payload, &schema).unwrap();
    assert_eq!(recs.len(), 1);
    assert_eq!(recs[0].values, vec![5, 10]);
}

#[test]
fn whole_file_decode() {
    // The payload's first line holds a byte past the ASCII range, so the
    // scanner leaves it to the decoder: a = 0x80 0x01 -> 128, b = 0x0A -> 10.
    let data = file(
        "H Field I name:loopIteration,time\nH Field I encoding:1,1\nH Field I signed:0,0\n",
        &[0x80, 0x01, 0x0A],
    );
    let desired = lines(&["loopIteration", "time"]);
    let table = decode_log(&data, &desired).unwrap();
    assert_eq!(table.header, lines(&["loopIteration", "time"]));
    assert_eq!(table.rows, vec![vec![128, 10]]);
}

#[test]
fn empty_payload_yields_header_only_table() {
    let data = file(
        "H Field I name:loopIteration,time\nH Field I encoding:1,1\nH Field I signed:0,0\n",
        &[],
    );
    let desired = lines(&["loopIteration", "time"]);
    let table = decode_log(&data, &desired).unwrap();
    assert_eq!(table.header, lines(&["loopIteration", "time"]));
    assert_eq!(table.rows.len(), 0);
}

#[test]
fn truncated_last_record_is_dropped() {
    let headers = lines(&["H Field I name:a,b", "H Field I encoding:1,1"]);
    let schema = build_schema(&headers).unwrap();
    // Two complete values, then a third byte short of a full record.
    let payload = [0x05u8, 0x0A, 0x07];
    let recs = decode_records(&payload, &schema).unwrap();
    assert_eq!(recs.len(), 1);
    assert_eq!(recs[0].values, vec![5, 10]);

    // End to end: the payload line starts past the ASCII range; its one
    // complete record survives, the trailing partial one does not.
    let data = file("H Field I name:a,b\nH Field I encoding:1,1\n", &[0x80, 0x01, 0x0A, 0x87]);
    let desired = lines(&["a", "b"]);
    let table = decode_log(&data, &desired).unwrap();
    assert_eq!(table.rows, vec![vec![128, 10]]);

    let short = file("H Field I name:a,b\nH Field I encoding:1,1\n", &[0x80]);
    let table2 = decode_log(&short, &desired).unwrap();
    assert_eq!(table2.rows.len(), 0);
}

#[test]
fn multi_record_stream_decodes_in_order() {
    let headers = lines(&["H Field I name:a,b", "H Field I encoding:1,0"]);
    let schema = build_schema(&headers).unwrap();
    // Records: (5, +2 as zig-zag 0x04), (128 as 0x80 0x01, -3 as zig-zag 0x07).
    let payload = [0x05u8, 0x04, 0x80, 0x01, 0x07];
    let recs = decode_records(&payload, &schema).unwrap();
    assert_eq!(recs.len(), 2);
    assert_eq!(recs[0].values, vec![5, 2]);
    assert_eq!(recs[1].values, vec![128, -3]);
}

#[test]
fn unknown_encoding_stops_the_stream() {
    let headers = lines(&["H Field I name:a,b", "H Field I encoding:1,9"]);
    let schema = build_schema(&headers).unwrap();
    let payload = [0x05u8, 0x0A, 0x06, 0x0B];
    let recs = decode_records(&payload, &schema).unwrap();
    assert_eq!(recs.len(), 0);
}

#[test]
fn projection_keeps_caller_order_and_skips_absent() {
    // a = 0xFF 0x01 -> 255, b = 0x02, c = 0x03; the 0xFF keeps the payload
    // out of the header block.
    let data = file("H Field I name:a,b,c\nH Field I encoding:1,1,1\n", &[0xFF, 0x01, 0x02, 0x03]);
    let desired = lines(&["c", "a"]);
    let table = decode_log(&data, &desired).unwrap();
    assert_eq!(table.header, lines(&["c", "a"]));
    assert_eq!(table.rows, vec![vec![3, 255]]);

    let desired2 = lines(&["c", "nosuch", "a"]);
    let table2 = decode_log(&data, &desired2).unwrap();
    assert_eq!(table2.header, lines(&["c", "a"]));
    assert_eq!(table2.rows, vec![vec![3, 255]]);
}

#[test]
fn projection_indices_and_rows() {
    let schema = Schema {
        fields: vec![
            field("a", EncodingKind::UnsignedVlq, false),
            field("b", EncodingKind::UnsignedVlq, false),
            field("c", EncodingKind::UnsignedVlq, false),
        ],
    };
    let desired = lines(&["c", "a"]);
    let indices = projection_indices(&schema, &desired);
    assert_eq!(indices, vec![2, 0]);
    let head = projection_header(&schema, &desired);
    assert_eq!(head, lines(&["c", "a"]));

    let payload = [0x0Bu8, 0x16, 0x21];
    let recs = decode_records(&payload, &schema).unwrap();
    let row = project_record(&recs[0], &indices);
    assert_eq!(row, vec![33, 11]);
    assert_eq!(row.len(), head.len());
}

#[test]
fn duplicate_name_lookup_takes_first() {
    let schema = Schema {
        fields: vec![
            field("a", EncodingKind::UnsignedVlq, false),
            field("a", EncodingKind::UnsignedVlq, false),
        ],
    };
    assert_eq!(find_field_index(&schema, b"a"), Some(0));
    assert_eq!(find_field_index(&schema, b"z"), None);
}

#[test]
fn mixed_encodings_in_one_record() {
    let schema = Schema {
        fields: vec![
            field("s", EncodingKind::SignedVlq, true),
            field("f8", EncodingKind::Fixed8, true),
            field("f32", EncodingKind::Fixed32Le, false),
        ],
    };
    let payload = [0x07u8, 0xFE, 0x01, 0x00, 0x00, 0x00];
    let recs = decode_records(&payload, &schema).unwrap();
    assert_eq!(recs.len(), 1);
    assert_eq!(recs[0].values, vec![-3, -2, 1]);
}

#[test]
fn fixed32_field_short_of_bytes_ends_stream() {
    let schema = Schema { fields: vec![field("f32", EncodingKind::Fixed32Le, false)] };
    let payload = [0x01u8, 0x02, 0x03];
    let recs = decode_records(&payload, &schema).unwrap();
    assert_eq!(recs.len(), 0);
}

#[test]
fn parse_u8_edge_cases() {
    assert_eq!(parse_u8_or_zero(b"7"), 7);
    assert_eq!(parse_u8_or_zero(b"+7"), 7);
    assert_eq!(parse_u8_or_zero(b"007"), 7);
    assert_eq!(parse_u8_or_zero(b"255"), 255);
    assert_eq!(parse_u8_or_zero(b"256"), 0);
    assert_eq!(parse_u8_or_zero(b"99999999999999999999"), 0);
    assert_eq!(parse_u8_or_zero(b""), 0);
    assert_eq!(parse_u8_or_zero(b"+"), 0);
    assert_eq!(parse_u8_or_zero(b"12a"), 0);
    assert_eq!(parse_u8_or_zero(b"-1"), 0);
}

#[test]
fn split_and_trim_pieces() {
    let pieces = split_and_trim(b" a , b ,, c");
    assert_eq!(pieces, lines(&["a", "b", "", "c"]));
    assert_eq!(split_and_trim(b""), lines(&[""]));
}

#[test]
fn trim_surrounding_whitespace() {
    assert_eq!(trim_bytes(b"  x y\t \r\n"), b"x y".to_vec());
    assert_eq!(trim_bytes(b"\t \n"), Vec::<u8>::new());
}
