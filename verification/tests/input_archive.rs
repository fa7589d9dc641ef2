use std::io::Write;

use bindermap::archive::{read_archive, select_dex_entries, ArchiveError};
use bindermap::dex::{Class, Method};
use bindermap::input::{entry_file_name, extension, is_classes_dex, is_dex_bearing, sanitize, tag};
use zip::write::SimpleFileOptions;
use zip::{CompressionMethod, ZipWriter};

fn zip_of(entries: &[(&str, &[u8])], method: CompressionMethod) -> Vec<u8> {
    let mut w = ZipWriter::new(std::io::Cursor::new(Vec::new()));
    let opts = SimpleFileOptions::default().compression_method(method);
    for (name, data) in entries {
        w.start_file(*name, opts).unwrap();
        w.write_all(data).unwrap();
    }
    w.finish().unwrap().into_inner()
}

#[test]
fn dex_bearing_inputs() {
    assert!(is_dex_bearing("framework.jar"));
    assert!(is_dex_bearing("Settings.apk"));
    assert!(is_dex_bearing("classes.dex"));
    assert!(!is_dex_bearing("notes.txt"));
    assert!(!is_dex_bearing("jar"));
    assert!(!is_dex_bearing(".jar"));
    assert!(!is_dex_bearing("a.JAR"));
    assert!(!is_dex_bearing("a.jar.bak"));
    assert!(!is_dex_bearing("a.jarx"));
    assert!(is_dex_bearing("a.b.dex"));
}

#[test]
fn extensions() {
    assert_eq!(extension("a.tar.gz").as_deref(), Some("gz"));
    assert_eq!(extension("a.").as_deref(), Some(""));
    assert_eq!(extension(".bashrc"), None);
    assert_eq!(extension("README"), None);
}

#[test]
fn classes_dex_entries() {
    assert!(is_classes_dex("classes.dex"));
    assert!(is_classes_dex("classes2.dex"));
    assert!(!is_classes_dex("lib/classes.dex"));
    assert!(!is_classes_dex("classes.dex.bak"));
    assert!(!is_classes_dex("resources.arsc"));
    assert!(!is_classes_dex("classes"));
    assert_eq!(entry_file_name("a/b/classes3.dex"), "a_b_classes3.dex");
    assert_eq!(entry_file_name("classes.dex"), "classes.dex");
}

#[test]
fn sanitizes_to_ascii_alphanumerics() {
    assert_eq!(sanitize("framework-res.apk"), "framework_res_apk");
    assert_eq!(sanitize("Ab9"), "Ab9");
    assert_eq!(sanitize("caf\u{e9} x"), "caf__x");
    assert_eq!(sanitize(""), "");
}

#[test]
fn tag_sets_the_jar_of_every_class() {
    let c = |n: &str| Class {
        name: n.into(),
        super_name: None,
        interfaces: vec![],
        access: 0,
        methods: vec![Method { name: "m".into(), desc: "()V".into(), invokes: vec![] }],
        jar: "old".into(),
    };
    let out = tag(vec![c("a/A"), c("a/B"), c("a/C")], "svc.jar");
    assert_eq!(out.iter().map(|c| (c.name.as_str(), c.jar.as_str())).collect::<Vec<_>>(),
               vec![("a/A", "svc.jar"), ("a/B", "svc.jar"), ("a/C", "svc.jar")]);
    assert_eq!(out[1].methods.len(), 1);
    assert!(tag(Vec::new(), "x").is_empty());
}

#[test]
fn selection_takes_classes_dex_in_order() {
    let listing = vec![
        (Some("META-INF/MANIFEST.MF".to_string()), None),
        (Some("classes.dex".to_string()), Some(vec![1u8, 2])),
        (Some("res/raw/classes.dex".to_string()), Some(vec![9u8])),
        (Some("classes2.dex".to_string()), Some(vec![3u8])),
    ];
    let out = select_dex_entries(&listing).unwrap();
    assert_eq!(out.iter().map(|e| (e.name.as_str(), e.file_name.as_str(), e.bytes.clone())).collect::<Vec<_>>(),
               vec![("classes.dex", "classes.dex", vec![1u8, 2]), ("classes2.dex", "classes2.dex", vec![3u8])]);
}

#[test]
fn selection_fails_at_the_first_bad_entry() {
    let unnamed = vec![
        (Some("classes.dex".to_string()), Some(vec![1u8])),
        (None, None),
        (Some("classes2.dex".to_string()), None),
    ];
    assert_eq!(select_dex_entries(&unnamed).unwrap_err(), ArchiveError::Entry(1));
    let unreadable = vec![
        (Some("a.txt".to_string()), None),
        (Some("classes2.dex".to_string()), None),
        (None, None),
    ];
    assert_eq!(select_dex_entries(&unreadable).unwrap_err(), ArchiveError::Entry(1));
    assert!(select_dex_entries(&Vec::new()).unwrap().is_empty());
}

#[test]
fn reads_dex_entries_out_of_a_jar() {
    for method in [CompressionMethod::Stored, CompressionMethod::Deflated] {
        let bytes = zip_of(
            &[
                ("META-INF/MANIFEST.MF", b"Manifest-Version: 1.0\n"),
                ("classes.dex", b"dex\n035\0first"),
                ("assets/classes.dex", b"not this one"),
                ("classes2.dex", b"dex\n035\0second"),
            ],
            method,
        );
        let out = read_archive(bytes).unwrap();
        assert_eq!(out.len(), 2);
        assert_eq!(out[0].name, "classes.dex");
        assert_eq!(out[0].bytes, b"dex\n035\0first".to_vec());
        assert_eq!(out[1].file_name, "classes2.dex");
        assert_eq!(out[1].bytes, b"dex\n035\0second".to_vec());
    }
}

#[test]
fn non_archives_are_refused() {
    assert_eq!(read_archive(b"not a zip at all".to_vec()).unwrap_err(), ArchiveError::Open);
    assert_eq!(read_archive(Vec::new()).unwrap_err(), ArchiveError::Open);
}

#[test]
fn an_archive_without_dex_yields_nothing() {
    let bytes = zip_of(&[("readme.txt", b"hello")], CompressionMethod::Stored);
    assert!(read_archive(bytes).unwrap().is_empty());
}

#[test]
fn a_corrupt_dex_entry_fails_at_its_position() {
    let mut bytes = zip_of(
        &[("readme.txt", b"hello"), ("classes.dex", b"PAYLOAD-PAYLOAD")],
        CompressionMethod::Stored,
    );
    let at = bytes.windows(7).position(|w| w == b"PAYLOAD").unwrap();
    bytes[at + 6] = b'X';
    assert_eq!(read_archive(bytes).unwrap_err(), ArchiveError::Entry(1));
}

#[test]
fn a_corrupt_entry_that_is_not_dex_is_never_read() {
    let mut bytes = zip_of(
        &[("notes.txt", b"PAYLOAD-PAYLOAD"), ("classes.dex", b"dex")],
        CompressionMethod::Stored,
    );
    let at = bytes.windows(7).position(|w| w == b"PAYLOAD").unwrap();
    bytes[at + 6] = b'X';
    let out = read_archive(bytes).unwrap();
    assert_eq!(out.len(), 1);
    assert_eq!(out[0].bytes, b"dex".to_vec());
}
