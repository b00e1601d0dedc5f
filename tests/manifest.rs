use std::io::Cursor;

use apk::res::{Chunk, ResValue, ResXmlAttribute, ResXmlNodeHeader, ResXmlStartElement};
use apkpatch::manifest::{edit_manifest, EditError};

const STRING: u8 = 0x03;
const REFERENCE: u8 = 0x01;

fn attr(name: i32, data_type: u8, data: u32) -> ResXmlAttribute {
    ResXmlAttribute {
        namespace: -1,
        name,
        raw_value: if data_type == STRING { data as i32 } else { -1 },
        typed_value: ResValue { size: 8, res0: 0, data_type, data },
    }
}

fn element(name: i32, attrs: Vec<ResXmlAttribute>) -> Chunk {
    let start = ResXmlStartElement {
        name,
        attribute_count: attrs.len() as u16,
        ..Default::default()
    };
    Chunk::XmlStartElement(ResXmlNodeHeader::default(), start, attrs)
}

fn encode(strings: &[&str], body: Vec<Chunk>) -> Vec<u8> {
    let mut all = vec![Chunk::StringPool(strings.iter().map(|s| s.to_string()).collect(), vec![])];
    all.extend(body);
    let mut out = Vec::new();
    Chunk::Xml(all).write(&mut Cursor::new(&mut out)).unwrap();
    out
}

fn decode(bytes: &[u8]) -> (Vec<String>, Vec<Vec<ResXmlAttribute>>) {
    let Chunk::Xml(mut children) = Chunk::parse(&mut Cursor::new(bytes)).unwrap() else {
        panic!("not an xml tree");
    };
    let Chunk::StringPool(strings, _) = children.remove(0) else {
        panic!("no string pool");
    };
    let attrs = children
        .into_iter()
        .filter_map(|c| match c {
            Chunk::XmlStartElement(_, _, attrs) => Some(attrs),
            _ => None,
        })
        .collect();
    (strings, attrs)
}

const POOL: [&str; 12] = [
    "manifest",
    "package",
    "com.old.app",
    "provider",
    "authorities",
    "com.old.app.FileProvider",
    "com.other.app.X",
    "application",
    "label",
    "activity",
    "Old",
    "Main",
];

fn sample_body() -> Vec<Chunk> {
    vec![
        element(0, vec![attr(1, STRING, 2)]),
        element(3, vec![attr(4, STRING, 5)]),
        element(3, vec![attr(4, STRING, 6)]),
        element(7, vec![attr(8, STRING, 10)]),
        element(9, vec![attr(8, STRING, 11)]),
    ]
}

#[test]
fn no_edit_keeps_document() {
    let input = encode(&POOL, sample_body());
    let output = edit_manifest(&input, None, None).unwrap();
    assert_eq!(decode(&output), decode(&input));
}

#[test]
fn package_rename_propagates_to_providers() {
    let input = encode(&POOL, sample_body());
    let output = edit_manifest(&input, None, Some("com.new.app")).unwrap();
    let (strings, attrs) = decode(&output);
    assert_eq!(strings.len(), POOL.len());
    assert_eq!(strings[2], "com.new.app");
    assert_eq!(strings[5], "com.new.app.FileProvider");
    assert_eq!(strings[6], "com.other.app.X");
    assert_eq!(strings[10], "Old");
    assert_eq!(attrs[0], vec![attr(1, STRING, 2)]);
}

#[test]
fn label_rename_updates_application_and_activity() {
    let input = encode(&POOL, sample_body());
    let output = edit_manifest(&input, Some("New"), None).unwrap();
    let (strings, _) = decode(&output);
    assert_eq!(strings[10], "New");
    assert_eq!(strings[11], "New");
    assert_eq!(strings[2], "com.old.app");
}

#[test]
fn both_edits_together() {
    let input = encode(&POOL, sample_body());
    let output = edit_manifest(&input, Some("New"), Some("org.example")).unwrap();
    let (strings, _) = decode(&output);
    assert_eq!(strings[2], "org.example");
    assert_eq!(strings[5], "org.example.FileProvider");
    assert_eq!(strings[10], "New");
    assert_eq!(strings[11], "New");
}

#[test]
fn missing_activity_label_is_no_error() {
    let body = vec![
        element(0, vec![attr(1, STRING, 2)]),
        element(7, vec![attr(8, STRING, 10)]),
        element(9, vec![]),
    ];
    let input = encode(&POOL, body);
    let output = edit_manifest(&input, Some("New"), None).unwrap();
    let (strings, _) = decode(&output);
    assert_eq!(strings[10], "New");
    assert_eq!(strings[11], "Main");
}

#[test]
fn missing_application_is_no_error() {
    let input = encode(&POOL, vec![element(0, vec![attr(1, STRING, 2)])]);
    let output = edit_manifest(&input, Some("New"), None).unwrap();
    assert_eq!(decode(&output), decode(&input));
}

#[test]
fn inline_label_becomes_appended_string() {
    let body = vec![element(7, vec![attr(8, REFERENCE, 0x7f01_0000)])];
    let input = encode(&POOL, body);
    let output = edit_manifest(&input, Some("New"), None).unwrap();
    let (strings, attrs) = decode(&output);
    assert_eq!(strings.len(), POOL.len() + 1);
    assert_eq!(strings[POOL.len()], "New");
    let edited = attrs[0][0];
    assert_eq!(edited.typed_value.data_type, STRING);
    assert_eq!(edited.typed_value.data, POOL.len() as u32);
    assert_eq!(edited.raw_value, POOL.len() as i32);
    assert_eq!(edited.name, 8);
}

#[test]
fn missing_manifest_element() {
    let input = encode(&POOL, vec![element(7, vec![attr(8, STRING, 10)])]);
    assert_eq!(edit_manifest(&input, None, Some("com.new.app")), Err(EditError::MissingElement));
}

#[test]
fn missing_package_attribute() {
    let input = encode(&POOL, vec![element(0, vec![attr(8, STRING, 10)])]);
    assert_eq!(edit_manifest(&input, None, Some("com.new.app")), Err(EditError::MissingAttribute));
}

#[test]
fn inline_package_value_is_rejected() {
    let input = encode(&POOL, vec![element(0, vec![attr(1, REFERENCE, 5)])]);
    assert_eq!(edit_manifest(&input, None, Some("com.new.app")), Err(EditError::MissingAttribute));
}

#[test]
fn unknown_value_type() {
    let input = encode(&POOL, vec![element(0, vec![attr(1, 0x07, 2)])]);
    assert_eq!(
        edit_manifest(&input, None, Some("com.new.app")),
        Err(EditError::UnknownValueType(0x07))
    );
}

#[test]
fn dangling_string_index() {
    let input = encode(&POOL, vec![element(0, vec![attr(1, STRING, 40)])]);
    assert_eq!(
        edit_manifest(&input, None, Some("com.new.app")),
        Err(EditError::DanglingIndex(40))
    );
}

#[test]
fn bytes_that_do_not_decode() {
    assert_eq!(edit_manifest(&[1, 2], None, None), Err(EditError::Decode));
}

#[test]
fn tree_without_leading_string_pool() {
    let mut out = Vec::new();
    Chunk::Xml(vec![element(0, vec![])]).write(&mut Cursor::new(&mut out)).unwrap();
    assert_eq!(edit_manifest(&out, None, None), Err(EditError::Structure));
}

#[test]
fn string_too_long_to_encode() {
    let input = encode(&POOL, sample_body());
    let long = "x".repeat(200);
    assert_eq!(edit_manifest(&input, Some(&long), None), Err(EditError::Encode));
}

#[test]
fn empty_tree_is_structure_error() {
    let mut out = Vec::new();
    Chunk::Xml(vec![]).write(&mut Cursor::new(&mut out)).unwrap();
    assert_eq!(edit_manifest(&out, None, None), Err(EditError::Structure));
}

#[test]
fn nested_tree_is_refused() {
    let mut out = Vec::new();
    let inner = Chunk::Xml(vec![]);
    let strings = vec!["a".to_string()];
    Chunk::Xml(vec![Chunk::StringPool(strings, vec![]), inner])
        .write(&mut Cursor::new(&mut out))
        .unwrap();
    assert_eq!(edit_manifest(&out, None, None), Err(EditError::Decode));
}

#[test]
fn value_of_wrong_size_is_refused() {
    let mut bad = attr(1, STRING, 2);
    bad.typed_value.size = 9;
    let input = encode(&POOL, vec![element(0, vec![bad])]);
    assert_eq!(edit_manifest(&input, None, Some("com.new.app")), Err(EditError::Decode));
}

#[test]
fn resource_map_header_larger_than_chunk_is_refused() {
    let mut input = encode(&POOL, vec![Chunk::XmlResourceMap(vec![1, 2]), element(0, vec![])]);
    let (_, attrs) = decode(&input);
    assert_eq!(attrs.len(), 1);
    let pool_size = u32::from_le_bytes([input[12], input[13], input[14], input[15]]) as usize;
    let map = 8 + pool_size;
    input[map + 2] = 0xff;
    assert_eq!(edit_manifest(&input, None, None), Err(EditError::Decode));
}

#[test]
fn namespaces_and_resource_map_are_carried_through() {
    let body = vec![
        Chunk::XmlResourceMap(vec![0x0101_0003]),
        Chunk::XmlStartNamespace(
            ResXmlNodeHeader::default(),
            apk::res::ResXmlNamespace { prefix: 1, uri: 2 },
        ),
        element(0, vec![attr(1, STRING, 2)]),
        Chunk::XmlEndElement(
            ResXmlNodeHeader::default(),
            apk::res::ResXmlEndElement { namespace: -1, name: 0 },
        ),
        Chunk::XmlEndNamespace(
            ResXmlNodeHeader::default(),
            apk::res::ResXmlNamespace { prefix: 1, uri: 2 },
        ),
    ];
    let input = encode(&POOL, body);
    let output = edit_manifest(&input, None, Some("com.new.app")).unwrap();
    let Chunk::Xml(children) = Chunk::parse(&mut Cursor::new(&output)).unwrap() else {
        panic!("not an xml tree");
    };
    assert_eq!(children.len(), 6);
    assert!(matches!(children[1], Chunk::XmlResourceMap(ref m) if m == &vec![0x0101_0003]));
    assert!(matches!(children[5], Chunk::XmlEndNamespace(_, _)));
    assert_eq!(decode(&output).0[2], "com.new.app");
}
