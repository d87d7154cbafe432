//! Format detection from file extensions.
use rdfsplitter::format::RdfFormat;

#[test]
fn detect_format_from_all_supported_extensions() {
    let cases: &[(&str, RdfFormat)] = &[
        ("file.ttl", RdfFormat::Turtle),
        ("file.nt", RdfFormat::NTriples),
        ("file.nq", RdfFormat::NQuads),
        ("file.nquads", RdfFormat::NQuads),
        ("file.trig", RdfFormat::TriG),
        ("file.rdf", RdfFormat::RdfXml),
        ("file.owl", RdfFormat::RdfXml),
        ("file.xml", RdfFormat::RdfXml),
        ("file.jsonld", RdfFormat::JsonLd),
        ("file.json", RdfFormat::JsonLd),
    ];
    for (filename, expected) in cases {
        assert_eq!(
            RdfFormat::from_path(filename),
            Some(*expected),
            "failed for {filename}"
        );
    }
}

#[test]
fn detect_format_is_case_insensitive() {
    assert_eq!(RdfFormat::from_path("A.TTL"), Some(RdfFormat::Turtle));
    assert_eq!(RdfFormat::from_path("A.NT"), Some(RdfFormat::NTriples));
    assert_eq!(RdfFormat::from_path("A.JSONLD"), Some(RdfFormat::JsonLd));
    assert_eq!(RdfFormat::from_path("A.NQ"), Some(RdfFormat::NQuads));
    assert_eq!(RdfFormat::from_path("A.RDF"), Some(RdfFormat::RdfXml));
}

#[test]
fn unknown_extension_returns_none() {
    assert_eq!(RdfFormat::from_path("file.txt"), None);
    assert_eq!(RdfFormat::from_path("file.csv"), None);
    assert_eq!(RdfFormat::from_path("no_extension"), None);
}

#[test]
fn extension_roundtrips_through_from_path() {
    let formats = [
        RdfFormat::Turtle,
        RdfFormat::NTriples,
        RdfFormat::NQuads,
        RdfFormat::TriG,
        RdfFormat::RdfXml,
        RdfFormat::JsonLd,
    ];
    for fmt in formats {
        let path = format!("test.{}", fmt.extension());
        assert_eq!(
            RdfFormat::from_path(&path),
            Some(fmt),
            "{} extension '{}' not round-tripped",
            fmt.label(),
            fmt.extension()
        );
    }
}

#[test]
fn label_is_non_empty_for_all_variants() {
    for fmt in [
        RdfFormat::Turtle,
        RdfFormat::NTriples,
        RdfFormat::NQuads,
        RdfFormat::TriG,
        RdfFormat::RdfXml,
        RdfFormat::JsonLd,
    ] {
        assert!(!fmt.label().is_empty());
    }
}

#[test]
fn hidden_files_and_directories_have_no_extension() {
    assert_eq!(RdfFormat::from_path(".ttl"), None);
    assert_eq!(RdfFormat::from_path("dir/.nt"), None);
    assert_eq!(RdfFormat::from_path("dir.ttl/file"), None);
    assert_eq!(RdfFormat::from_path("a/b.ttl"), Some(RdfFormat::Turtle));
}
