use project_asset::asset::{Annotation, File, Node, Project, Range};
use project_asset::stream::ByteCursor;

fn node(offset: usize, end_offset: usize, node_type: &str) -> Node {
    Node { range: Range { offset, end_offset }, node_type: node_type.to_string() }
}

fn annotation(offset: usize, end_offset: usize, text: &str) -> Annotation {
    Annotation { range: Range { offset, end_offset }, text: text.to_string() }
}

fn roundtrip(project: &Project) -> Project {
    let mut buf = ByteCursor::new(Vec::new());
    project.encode(&mut buf).expect("encode");
    buf.set_position(0);
    Project::decode(&mut buf).expect("decode")
}

#[test]
fn encode_decode_roundtrip() {
    let project = Project {
        files: vec![
            File {
                path: "foo.rs".to_string(),
                content: "fn main() {}".to_string(),
                tree: vec![Node {
                    range: Range { offset: 0, end_offset: 10 },
                    node_type: "Function".to_string(),
                }],
                errors: vec![Annotation {
                    range: Range { offset: 3, end_offset: 7 },
                    text: "error: something".to_string(),
                }],
            },
            File {
                path: "bar.rs".to_string(),
                content: "let x = 42;".to_string(),
                tree: vec![Node {
                    range: Range { offset: 0, end_offset: 10 },
                    node_type: "Let".to_string(),
                }],
                errors: vec![Annotation {
                    range: Range { offset: 4, end_offset: 5 },
                    text: "warning: unused variable".to_string(),
                }],
            },
            File {
                path: "baz.rs".to_string(),
                content: "struct S;".to_string(),
                tree: vec![Node {
                    range: Range { offset: 0, end_offset: 8 },
                    node_type: "Struct".to_string(),
                }],
                errors: vec![Annotation {
                    range: Range { offset: 0, end_offset: 6 },
                    text: "note: struct defined here".to_string(),
                }],
            },
        ],
    };
    let mut buf = ByteCursor::new(Vec::new());
    project.encode(&mut buf).expect("encode");
    buf.set_position(0);
    let decoded = Project::decode(&mut buf).expect("decode");
    assert_eq!(project, decoded);
}

#[test]
fn roundtrip_of_a_project_without_files() {
    let project = Project { files: vec![] };
    assert_eq!(roundtrip(&project), project);
}

#[test]
fn roundtrip_of_files_without_tree_or_annotations() {
    let project = Project {
        files: vec![
            File { path: "a".to_string(), content: String::new(), tree: vec![], errors: vec![] },
            File {
                path: "b".to_string(),
                content: "x".to_string(),
                tree: vec![node(0, 1, "NAME")],
                errors: vec![],
            },
            File {
                path: "c".to_string(),
                content: "y".to_string(),
                tree: vec![],
                errors: vec![annotation(0, 1, "unexpected")],
            },
        ],
    };
    assert_eq!(roundtrip(&project), project);
}

#[test]
fn roundtrip_keeps_the_order_of_files_nodes_and_annotations() {
    let project = Project {
        files: vec![
            File {
                path: "foo".to_string(),
                content: "0123456789".to_string(),
                tree: vec![node(0, 10, "Function"), node(2, 4, "Name"), node(1, 9, "Function")],
                errors: vec![
                    annotation(3, 7, "error: something"),
                    annotation(0, 1, "error: another"),
                    annotation(3, 7, "error: something"),
                ],
            },
            File {
                path: "bar".to_string(),
                content: "abc".to_string(),
                tree: vec![node(0, 3, "Name")],
                errors: vec![],
            },
            File {
                path: "aaa".to_string(),
                content: "abc".to_string(),
                tree: vec![],
                errors: vec![annotation(1, 2, "Name")],
            },
        ],
    };
    let decoded = roundtrip(&project);
    assert_eq!(decoded.files.len(), 3);
    assert_eq!(decoded.files[0].path, "foo");
    assert_eq!(decoded.files[1].path, "bar");
    assert_eq!(decoded.files[2].path, "aaa");
    assert_eq!(decoded.files[0].tree[0], node(0, 10, "Function"));
    assert_eq!(decoded.files[0].tree[1], node(2, 4, "Name"));
    assert_eq!(decoded.files[0].tree[2], node(1, 9, "Function"));
    assert_eq!(decoded.files[0].errors[0], annotation(3, 7, "error: something"));
    assert_eq!(decoded.files[0].errors[1], annotation(0, 1, "error: another"));
    assert_eq!(decoded.files[0].errors[2], annotation(3, 7, "error: something"));
    assert_eq!(decoded, project);
}

#[test]
fn roundtrip_of_text_that_is_not_ascii() {
    let project = Project {
        files: vec![File {
            path: "src/größe.rs".to_string(),
            content: "let π = \"日本語\"; // 🦀".to_string(),
            tree: vec![node(0, 4, "LET_STMT")],
            errors: vec![annotation(4, 6, "identifiant attendu « π »")],
        }],
    };
    assert_eq!(roundtrip(&project), project);
}

#[test]
fn roundtrip_of_ranges_that_the_format_does_not_check() {
    let project = Project {
        files: vec![File {
            path: "p".to_string(),
            content: "ab".to_string(),
            tree: vec![node(9, 3, "Backwards"), node(100, 200, "Outside")],
            errors: vec![annotation(u32::MAX as usize, 0, "largest offset")],
        }],
    };
    assert_eq!(roundtrip(&project), project);
}

#[test]
fn roundtrip_at_a_position_other_than_the_start() {
    let project = Project {
        files: vec![File {
            path: "p".to_string(),
            content: "c".to_string(),
            tree: vec![node(0, 1, "T")],
            errors: vec![],
        }],
    };
    let mut buf = ByteCursor::new(vec![7, 7, 7]);
    buf.set_position(3);
    project.encode(&mut buf).expect("encode");
    assert_eq!(&buf.get_ref()[..3], &[7, 7, 7]);
    assert_eq!(buf.get_ref()[3], 0xde);
    // 3 bytes before the container, 13 of header, 16 + 12 of the record
    assert_eq!(&buf.get_ref()[8..12], &[44, 0, 0, 0]);
    buf.set_position(3);
    let decoded = Project::decode(&mut buf).expect("decode");
    assert_eq!(decoded, project);
    assert_eq!(buf.position(), 44);
}

#[test]
fn encode_is_the_same_for_the_same_project() {
    let project = Project {
        files: vec![File {
            path: "p".to_string(),
            content: "c".to_string(),
            tree: vec![node(0, 1, "T"), node(0, 1, "U")],
            errors: vec![annotation(0, 0, "T")],
        }],
    };
    let mut first = ByteCursor::new(Vec::new());
    project.encode(&mut first).expect("encode");
    let mut second = ByteCursor::new(Vec::new());
    project.clone().encode(&mut second).expect("encode");
    assert_eq!(first.into_inner(), second.into_inner());
}

#[test]
fn offsets_beyond_four_bytes_keep_their_low_bits() {
    // 2^32 + 5 where usize has 64 bits, 5 where it has 32
    let big = (u32::MAX as usize).wrapping_add(6);
    let project = Project {
        files: vec![File {
            path: "p".to_string(),
            content: "c".to_string(),
            tree: vec![node(big, big, "T")],
            errors: vec![],
        }],
    };
    let decoded = roundtrip(&project);
    assert_eq!(decoded.files[0].tree[0], node(5, 5, "T"));
}
