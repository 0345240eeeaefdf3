use steam_vdf::{
    get_prefix_from_type, get_type_from_prefix, read_data, read_null_string, write_data,
    write_null_string, ByteReader, ReadError, ValveData, ValveDataType,
};

fn text(s: &str) -> String {
    s.to_string()
}

fn shortcuts_tree() -> ValveData {
    ValveData::List(
        text("shortcuts"),
        vec![
            ValveData::String(text("AppName"), text("Chess")),
            ValveData::Bytes4(text("tags"), [0x01, 0x02, 0x03, 0x04]),
        ],
    )
}

fn shortcuts_bytes() -> Vec<u8> {
    vec![
        0x00, 0x73, 0x68, 0x6F, 0x72, 0x74, 0x63, 0x75, 0x74, 0x73, 0x00, //
        0x01, 0x41, 0x70, 0x70, 0x4E, 0x61, 0x6D, 0x65, 0x00, 0x43, 0x68, 0x65, 0x73, 0x73, 0x00,
        0x02, 0x74, 0x61, 0x67, 0x73, 0x00, 0x01, 0x02, 0x03, 0x04, //
        0x08,
    ]
}

fn encode(data: &ValveData) -> Vec<u8> {
    let mut out = Vec::new();
    write_data(&mut out, data);
    out
}

fn decode(bytes: Vec<u8>) -> (Result<Option<ValveData>, ReadError>, usize) {
    let mut input = ByteReader::new(bytes);
    let r = read_data(&mut input);
    (r, input.position())
}

#[test]
fn shortcuts_list_encodes_to_expected_bytes() {
    assert_eq!(encode(&shortcuts_tree()), shortcuts_bytes());
}

#[test]
fn shortcuts_bytes_decode_to_tree() {
    let (r, pos) = decode(shortcuts_bytes());
    assert_eq!(r, Ok(Some(shortcuts_tree())));
    assert_eq!(pos, shortcuts_bytes().len());
}

#[test]
fn file_terminator_is_left_unread() {
    let mut bytes = shortcuts_bytes();
    bytes.push(0x08);
    let (r, pos) = decode(bytes);
    assert_eq!(r, Ok(Some(shortcuts_tree())));
    assert_eq!(pos, shortcuts_bytes().len());
}

#[test]
fn tags_map_to_kinds_and_back() {
    let kinds = [
        ValveDataType::List,
        ValveDataType::String,
        ValveDataType::Bytes4,
        ValveDataType::EndOfList,
    ];
    let tags = [0x00u8, 0x01, 0x02, 0x08];
    for i in 0..4 {
        assert_eq!(get_prefix_from_type(kinds[i]), tags[i]);
        assert_eq!(get_type_from_prefix(tags[i]), Some(kinds[i]));
    }
}

#[test]
fn other_bytes_are_no_kind() {
    for b in 0u8..=255 {
        if b != 0x00 && b != 0x01 && b != 0x02 && b != 0x08 {
            assert_eq!(get_type_from_prefix(b), None);
        }
    }
}

#[test]
fn data_type_follows_variant() {
    assert_eq!(shortcuts_tree().data_type(), ValveDataType::List);
    assert_eq!(ValveData::String(text("a"), text("b")).data_type(), ValveDataType::String);
    assert_eq!(ValveData::Bytes4(text("a"), [0; 4]).data_type(), ValveDataType::Bytes4);
    assert_eq!(ValveData::EndOfList.data_type(), ValveDataType::EndOfList);
}

#[test]
fn empty_input_fails() {
    let (r, _) = decode(vec![]);
    assert_eq!(r, Err(ReadError::UnexpectedEof));
}

#[test]
fn unknown_top_level_tag_is_no_node() {
    let (r, pos) = decode(vec![0x05, 0x00, 0x00]);
    assert_eq!(r, Ok(None));
    assert_eq!(pos, 1);
}

#[test]
fn end_of_list_reads_alone() {
    let (r, pos) = decode(vec![0x08, 0x08]);
    assert_eq!(r, Ok(Some(ValveData::EndOfList)));
    assert_eq!(pos, 1);
}

#[test]
fn unknown_tag_inside_list_is_skipped() {
    let bytes = vec![
        0x00, b'l', 0x00, //
        0x01, b'a', 0x00, b'x', 0x00, //
        0x07, //
        0x01, b'b', 0x00, b'y', 0x00, //
        0x08,
    ];
    let (r, pos) = decode(bytes);
    let expected = ValveData::List(
        text("l"),
        vec![
            ValveData::String(text("a"), text("x")),
            ValveData::String(text("b"), text("y")),
        ],
    );
    assert_eq!(r, Ok(Some(expected)));
    assert_eq!(pos, 15);
}

#[test]
fn terminators_are_not_kept_as_children() {
    let bytes = vec![
        0x00, b'o', 0x00, //
        0x00, b'i', 0x00, 0x08, //
        0x00, b'j', 0x00, 0x02, b'k', 0x00, 9, 8, 7, 6, 0x08, //
        0x08,
    ];
    let (r, _) = decode(bytes);
    let expected = ValveData::List(
        text("o"),
        vec![
            ValveData::List(text("i"), vec![]),
            ValveData::List(text("j"), vec![ValveData::Bytes4(text("k"), [9, 8, 7, 6])]),
        ],
    );
    assert_eq!(r, Ok(Some(expected)));
}

#[test]
fn truncated_name_fails() {
    let (r, _) = decode(vec![0x01, b'A', b'p', b'p']);
    assert_eq!(r, Err(ReadError::UnexpectedEof));
}

#[test]
fn truncated_value_fails() {
    let (r, _) = decode(vec![0x01, b'A', 0x00, b'C', b'h']);
    assert_eq!(r, Err(ReadError::UnexpectedEof));
}

#[test]
fn short_bytes4_fails() {
    let (r, _) = decode(vec![0x02, b't', 0x00, 0x01, 0x02, 0x03]);
    assert_eq!(r, Err(ReadError::UnexpectedEof));
}

#[test]
fn unclosed_list_fails() {
    let mut bytes = shortcuts_bytes();
    bytes.pop();
    let (r, _) = decode(bytes);
    assert_eq!(r, Err(ReadError::UnexpectedEof));
}

#[test]
fn nested_tree_round_trips() {
    let tree = ValveData::List(
        text("shortcuts"),
        vec![
            ValveData::List(
                text("0"),
                vec![
                    ValveData::Bytes4(text("appid"), [0xAA, 0xBB, 0xCC, 0xDD]),
                    ValveData::String(text("AppName"), text("Échecs ♞")),
                    ValveData::List(text("tags"), vec![]),
                ],
            ),
            ValveData::String(text(""), text("")),
        ],
    );
    let bytes = encode(&tree);
    let len = bytes.len();
    let (r, pos) = decode(bytes);
    assert_eq!(r, Ok(Some(tree)));
    assert_eq!(pos, len);
}

#[test]
fn end_of_list_encodes_as_its_tag() {
    assert_eq!(encode(&ValveData::EndOfList), vec![0x08]);
}

#[test]
fn encoding_appends_to_existing_output() {
    let mut out = vec![0xEE];
    write_data(&mut out, &ValveData::Bytes4(text("k"), [1, 2, 3, 4]));
    assert_eq!(out, vec![0xEE, 0x02, b'k', 0x00, 1, 2, 3, 4]);
}

#[test]
fn null_string_reads_up_to_nul() {
    let mut input = ByteReader::new(vec![b'C', b'h', b'e', b's', b's', 0x00, b'x']);
    assert_eq!(read_null_string(&mut input), Ok(text("Chess")));
    assert_eq!(input.position(), 6);
}

#[test]
fn null_string_decodes_utf8() {
    let mut input = ByteReader::new(vec![0xC3, 0xA9, 0x00]);
    assert_eq!(read_null_string(&mut input), Ok(text("é")));
}

#[test]
fn null_string_replaces_invalid_bytes() {
    let mut input = ByteReader::new(vec![0xFF, b'a', 0x00]);
    assert_eq!(read_null_string(&mut input), Ok(text("\u{FFFD}a")));
}

#[test]
fn null_string_without_nul_fails() {
    let mut input = ByteReader::new(vec![b'a', b'b']);
    assert_eq!(read_null_string(&mut input), Err(ReadError::UnexpectedEof));
}

#[test]
fn null_string_writes_utf8_and_nul() {
    let mut out = Vec::new();
    write_null_string(&mut out, &text("é!"));
    assert_eq!(out, vec![0xC3, 0xA9, b'!', 0x00]);
}

#[test]
fn read_byte_stops_at_end() {
    let mut input = ByteReader::new(vec![7]);
    assert_eq!(input.read_byte(), Ok(7));
    assert_eq!(input.read_byte(), Err(ReadError::UnexpectedEof));
    assert_eq!(input.position(), 1);
}
