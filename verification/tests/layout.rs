use project_asset::asset::{Annotation, File, Node, Project, Range};
use project_asset::error::AssetError;
use project_asset::layout::{ASSET_ENCODING_VERSION, HEADER_LEN, MAGIC, TABLE_OFFSET_POS};
use project_asset::stream::ByteCursor;

fn encode(project: &Project) -> Vec<u8> {
    let mut buf = ByteCursor::new(Vec::new());
    project.encode(&mut buf).expect("encode");
    buf.into_inner()
}

fn decode(bytes: Vec<u8>) -> Result<Project, AssetError> {
    let mut buf = ByteCursor::new(bytes);
    Project::decode(&mut buf)
}

fn le(bytes: &[u8], at: usize) -> u32 {
    u32::from_le_bytes([bytes[at], bytes[at + 1], bytes[at + 2], bytes[at + 3]])
}

fn sample() -> Project {
    Project {
        files: vec![
            File {
                path: "foo".to_string(),
                content: "fn main() {}".to_string(),
                tree: vec![Node {
                    range: Range { offset: 0, end_offset: 10 },
                    node_type: "Function".to_string(),
                }],
                errors: vec![Annotation {
                    range: Range { offset: 3, end_offset: 7 },
                    text: "error: something".to_string(),
                }],
            },
            File {
                path: "bar".to_string(),
                content: "fn main() {}".to_string(),
                tree: vec![Node {
                    range: Range { offset: 0, end_offset: 12 },
                    node_type: "Function".to_string(),
                }],
                errors: vec![],
            },
        ],
    }
}

#[test]
fn constants_of_the_format() {
    assert_eq!(MAGIC, 0xde);
    assert_eq!(ASSET_ENCODING_VERSION, 1);
    assert_eq!(HEADER_LEN, 13);
    assert_eq!(TABLE_OFFSET_POS, 5);
}

#[test]
fn container_of_a_project_without_files() {
    let bytes = encode(&Project { files: vec![] });
    assert_eq!(
        bytes,
        vec![
            0xde, // magic
            1, 0, 0, 0, // version
            13, 0, 0, 0, // the table follows the header
            0, 0, 0, 0, // no file
            0, 0, 0, 0, // no string
        ]
    );
}

#[test]
fn container_of_one_file_byte_by_byte() {
    let project = Project {
        files: vec![File {
            path: "a".to_string(),
            content: "bc".to_string(),
            tree: vec![Node {
                range: Range { offset: 1, end_offset: 258 },
                node_type: "a".to_string(),
            }],
            errors: vec![Annotation {
                range: Range { offset: 0x01020304, end_offset: 2 },
                text: "é".to_string(),
            }],
        }],
    };
    let expected: Vec<u8> = vec![
        0xde, // magic
        1, 0, 0, 0, // version
        53, 0, 0, 0, // table at 13 + 16 + 12 + 12
        1, 0, 0, 0, // one file
        0, 0, 0, 0, // path: string 0
        1, 0, 0, 0, // content: string 1
        1, 0, 0, 0, // one node
        1, 0, 0, 0, // its offset
        2, 1, 0, 0, // its end
        0, 0, 0, 0, // its type: string 0 again
        1, 0, 0, 0, // one annotation
        4, 3, 2, 1, // its offset
        2, 0, 0, 0, // its end
        2, 0, 0, 0, // its text: string 2
        3, 0, 0, 0, // three strings
        1, 0, 0, 0, b'a', // "a"
        2, 0, 0, 0, b'b', b'c', // "bc"
        2, 0, 0, 0, 0xc3, 0xa9, // "é" in UTF-8
    ];
    assert_eq!(encode(&project), expected);
    assert_eq!(decode(expected), Ok(project));
}

#[test]
fn shared_content_is_stored_once() {
    let project = sample();
    let bytes = encode(&project);
    let table_at = le(&bytes, TABLE_OFFSET_POS) as usize;
    let entries = le(&bytes, table_at);
    // foo, the content, Function, the error text, bar
    assert_eq!(entries, 5);
    let occurrences: usize =
        project.files.iter().map(|f| 2 + f.tree.len() + f.errors.len()).sum();
    assert_eq!(occurrences, 7);
    assert!((entries as usize) < occurrences);
    assert_eq!(decode(bytes), Ok(project));
}

#[test]
fn strings_get_their_index_in_the_order_of_first_use() {
    let bytes = encode(&sample());
    // the second record begins behind the first: 13 + 16 + 12 + 12
    assert_eq!(le(&bytes, 13), 0); // foo
    assert_eq!(le(&bytes, 17), 1); // content
    assert_eq!(le(&bytes, 33), 2); // Function
    assert_eq!(le(&bytes, 49), 3); // error text
    assert_eq!(le(&bytes, 53), 4); // bar
    assert_eq!(le(&bytes, 57), 1); // content again
    assert_eq!(le(&bytes, 73), 2); // Function again
}

#[test]
fn header_records_where_the_table_begins() {
    let bytes = encode(&sample());
    let table_at = le(&bytes, TABLE_OFFSET_POS) as usize;
    assert_eq!(table_at, 13 + (16 + 12 + 12) + (16 + 12));
    assert_eq!(le(&bytes, 9), 2);
    assert_eq!(le(&bytes, table_at + 4), 3);
    assert_eq!(&bytes[table_at + 8..table_at + 11], b"foo");
}

#[test]
fn version_gate() {
    let mut bytes = encode(&sample());
    bytes[1] = 2;
    assert_eq!(decode(bytes), Err(AssetError::VersionMismatch { expected: 1, got: 2 }));
    let mut bytes = encode(&sample());
    bytes[4] = 1;
    assert_eq!(
        decode(bytes),
        Err(AssetError::VersionMismatch { expected: 1, got: 0x0100_0001 })
    );
}

#[test]
fn version_gate_comes_before_everything_behind_it() {
    assert_eq!(
        decode(vec![0xde, 0, 0, 0, 0]),
        Err(AssetError::VersionMismatch { expected: 1, got: 0 })
    );
}

#[test]
fn magic_gate() {
    assert_eq!(decode(vec![0; 64]), Err(AssetError::InvalidMagic { expected: 0xde, got: 0 }));
    assert_eq!(decode(vec![0]), Err(AssetError::InvalidMagic { expected: 0xde, got: 0 }));
    let mut bytes = encode(&sample());
    bytes[0] = 0xdf;
    assert_eq!(decode(bytes), Err(AssetError::InvalidMagic { expected: 0xde, got: 0xdf }));
}

#[test]
fn empty_source_is_truncated() {
    assert_eq!(decode(vec![]), Err(AssetError::Truncated));
}

#[test]
fn truncation_of_the_last_byte() {
    let mut bytes = encode(&sample());
    bytes.pop();
    assert_eq!(decode(bytes), Err(AssetError::Truncated));
    let mut bytes = encode(&Project { files: vec![] });
    bytes.pop();
    assert_eq!(decode(bytes), Err(AssetError::Truncated));
}

#[test]
fn truncation_anywhere() {
    let bytes = encode(&sample());
    for n in 0..bytes.len() {
        assert_eq!(decode(bytes[..n].to_vec()), Err(AssetError::Truncated));
    }
}

#[test]
fn table_offset_beyond_the_table() {
    let good = encode(&sample());
    let table_at = le(&good, TABLE_OFFSET_POS);
    // at the end and beyond it
    for offset in [good.len() as u32 - 3, good.len() as u32, good.len() as u32 + 1000, u32::MAX] {
        let mut bytes = good.clone();
        bytes[5..9].copy_from_slice(&offset.to_le_bytes());
        assert_eq!(decode(bytes), Err(AssetError::Truncated));
    }
    // within the table
    for offset in table_at + 1..good.len() as u32 {
        let mut bytes = good.clone();
        bytes[5..9].copy_from_slice(&offset.to_le_bytes());
        let result = decode(bytes);
        assert!(
            matches!(
                result,
                Err(AssetError::Truncated) | Err(AssetError::StringIndexOutOfRange { .. })
            ),
            "offset {}: {:?}",
            offset,
            result
        );
    }
}

#[test]
fn string_index_out_of_range() {
    let bytes: Vec<u8> = vec![
        0xde, 1, 0, 0, 0, 29, 0, 0, 0, 1, 0, 0, 0, // header
        5, 0, 0, 0, // path: string 5
        0, 0, 0, 0, // content
        0, 0, 0, 0, // no node
        0, 0, 0, 0, // no annotation
        1, 0, 0, 0, 1, 0, 0, 0, b'x', // one string
    ];
    assert_eq!(decode(bytes), Err(AssetError::StringIndexOutOfRange { index: 5, len: 1 }));
}

#[test]
fn string_index_equal_to_the_count_is_out_of_range() {
    let bytes: Vec<u8> = vec![
        0xde, 1, 0, 0, 0, 29, 0, 0, 0, 1, 0, 0, 0, // header
        0, 0, 0, 0, // path
        1, 0, 0, 0, // content: string 1 of one
        0, 0, 0, 0, // no node
        0, 0, 0, 0, // no annotation
        1, 0, 0, 0, 1, 0, 0, 0, b'x', // one string
    ];
    assert_eq!(decode(bytes), Err(AssetError::StringIndexOutOfRange { index: 1, len: 1 }));
}

#[test]
fn index_of_a_node_is_checked_before_the_index_of_the_path() {
    let bytes: Vec<u8> = vec![
        0xde, 1, 0, 0, 0, 41, 0, 0, 0, 1, 0, 0, 0, // header
        9, 0, 0, 0, // path: string 9
        0, 0, 0, 0, // content
        1, 0, 0, 0, // one node
        0, 0, 0, 0, 1, 0, 0, 0, 7, 0, 0, 0, // type: string 7
        0, 0, 0, 0, // no annotation
        1, 0, 0, 0, 1, 0, 0, 0, b'x', // one string
    ];
    assert_eq!(decode(bytes), Err(AssetError::StringIndexOutOfRange { index: 7, len: 1 }));
}

#[test]
fn malformed_utf8() {
    let bytes: Vec<u8> = vec![
        0xde, 1, 0, 0, 0, 13, 0, 0, 0, 0, 0, 0, 0, // header, no file
        1, 0, 0, 0, 2, 0, 0, 0, 0xc3, 0x28, // one string that is no UTF-8
    ];
    assert_eq!(decode(bytes), Err(AssetError::InvalidUtf8));
}

#[test]
fn table_is_loaded_before_the_records_are_read() {
    // one file is announced and no record follows; the table is malformed
    let bytes: Vec<u8> = vec![
        0xde, 1, 0, 0, 0, 13, 0, 0, 0, 1, 0, 0, 0, // header, table where the records should be
        1, 0, 0, 0, 1, 0, 0, 0, 0xff, // one string that is no UTF-8
    ];
    assert_eq!(decode(bytes), Err(AssetError::InvalidUtf8));
}

#[test]
fn missing_record_is_truncated() {
    let bytes: Vec<u8> = vec![
        0xde, 1, 0, 0, 0, 13, 0, 0, 0, 9, 0, 0, 0, // header, nine files
        0, 0, 0, 0, // no string
    ];
    assert_eq!(decode(bytes), Err(AssetError::Truncated));
}

#[test]
fn bytes_behind_the_table_are_ignored() {
    let project = sample();
    let mut bytes = encode(&project);
    bytes.extend_from_slice(&[1, 2, 3]);
    assert_eq!(decode(bytes), Ok(project));
}
