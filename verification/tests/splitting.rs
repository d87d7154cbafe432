//! Splitting whole documents into chunk plans, across the six syntaxes.
use rdfsplitter::format::{RdfFormat, SplitterError};
use rdfsplitter::splitter::{
    check_overwrite, chunk_path, count_nonblank_lines, count_records, derive_chunk_size,
    file_base_iri, prepare_output_dir, split_file, ChunkFile, SplitOptions,
};

const BASE: &str = "http://example.org/base";

fn opts(chunk_size: usize) -> SplitOptions {
    SplitOptions {
        output_dir: String::from("out"),
        chunk_size,
        force: false,
    }
}

fn nt_content(n: usize) -> String {
    let mut s = String::new();
    for i in 0..n {
        s.push_str(&format!(
            "<http://example.org/s{i}> <http://example.org/p> <http://example.org/o> .\n"
        ));
    }
    s
}

fn nq_content(n: usize) -> String {
    let mut s = String::new();
    for i in 0..n {
        s.push_str(&format!(
            "<http://example.org/s{i}> <http://example.org/p> <http://example.org/o> <http://example.org/g> .\n"
        ));
    }
    s
}

fn count_lines(text: &str) -> usize {
    text.lines().filter(|l| !l.trim().is_empty()).count()
}

#[test]
fn nt_chunk_size_produces_correct_file_count() {
    let content = nt_content(10);
    let chunks = split_file("small", &content, BASE, RdfFormat::NTriples, &opts(3)).unwrap();
    assert_eq!(chunks.len(), 4);
    let sizes: Vec<usize> = chunks.iter().map(|c| count_lines(&c.content)).collect();
    assert_eq!(sizes, vec![3, 3, 3, 1]);
}

#[test]
fn nt_file_count_produces_correct_file_count() {
    let content = nt_content(10);
    let total = count_records(&content, BASE, RdfFormat::NTriples).unwrap();
    assert_eq!(total, 10);
    let cs = derive_chunk_size(total, 2);
    assert_eq!(cs, 5);
    let chunks = split_file("small", &content, BASE, RdfFormat::NTriples, &opts(cs)).unwrap();
    assert_eq!(chunks.len(), 2);
}

#[test]
fn nt_file_count_single_file() {
    let content = nt_content(10);
    let total = count_records(&content, BASE, RdfFormat::NTriples).unwrap();
    let cs = derive_chunk_size(total, 1);
    let chunks = split_file("small", &content, BASE, RdfFormat::NTriples, &opts(cs)).unwrap();
    assert_eq!(chunks.len(), 1);
}

#[test]
fn nt_output_files_have_nt_extension() {
    let content = nt_content(10);
    let chunks = split_file("small", &content, BASE, RdfFormat::NTriples, &opts(3)).unwrap();
    assert!(!chunks.is_empty());
    for c in &chunks {
        assert!(c.path.ends_with(".nt"), "{}", c.path);
    }
}

#[test]
fn nt_output_files_named_with_stem_and_index() {
    let content = nt_content(10);
    let chunks = split_file("small", &content, BASE, RdfFormat::NTriples, &opts(5)).unwrap();
    assert_eq!(chunks[0].path, "out/small_0000.nt");
    assert_eq!(chunks[1].path, "out/small_0001.nt");
}

#[test]
fn nt_first_chunk_has_correct_triple_count() {
    let content = nt_content(10);
    let chunks = split_file("small", &content, BASE, RdfFormat::NTriples, &opts(3)).unwrap();
    assert_eq!(count_lines(&chunks[0].content), 3);
}

#[test]
fn nt_last_chunk_contains_remainder() {
    let content = nt_content(10);
    let chunks = split_file("small", &content, BASE, RdfFormat::NTriples, &opts(3)).unwrap();
    assert_eq!(count_lines(&chunks[3].content), 1);
}

#[test]
fn nt_chunks_concatenate_to_input() {
    let content = nt_content(10);
    let chunks = split_file("small", &content, BASE, RdfFormat::NTriples, &opts(3)).unwrap();
    let joined: String = chunks.iter().map(|c| c.content.as_str()).collect();
    assert_eq!(joined, content);
}

#[test]
fn ttl_chunk_size_produces_correct_file_count() {
    let content = nt_content(10);
    let chunks = split_file("small", &content, BASE, RdfFormat::Turtle, &opts(3)).unwrap();
    assert_eq!(chunks.len(), 4);
}

#[test]
fn ttl_output_files_have_ttl_extension() {
    let content = nt_content(10);
    let chunks = split_file("small", &content, BASE, RdfFormat::Turtle, &opts(3)).unwrap();
    for c in &chunks {
        assert!(c.path.ends_with(".ttl"), "{}", c.path);
    }
}

#[test]
fn nq_chunk_size_produces_correct_file_count() {
    let content = nq_content(10);
    let chunks = split_file("small", &content, BASE, RdfFormat::NQuads, &opts(3)).unwrap();
    assert_eq!(chunks.len(), 4);
}

#[test]
fn nq_output_files_have_nq_extension() {
    let content = nq_content(10);
    let chunks = split_file("small", &content, BASE, RdfFormat::NQuads, &opts(3)).unwrap();
    for c in &chunks {
        assert!(c.path.ends_with(".nq"), "{}", c.path);
    }
}

#[test]
fn trig_chunk_size_produces_correct_file_count() {
    // default-graph statements in the plain line grammar are valid TriG
    let content = nt_content(10);
    let chunks = split_file("small", &content, BASE, RdfFormat::TriG, &opts(3)).unwrap();
    assert_eq!(chunks.len(), 4);
    for c in &chunks {
        assert!(c.path.ends_with(".trig"), "{}", c.path);
    }
}

fn rdfxml_content(n: usize) -> String {
    let mut s = String::from(
        "<?xml version=\"1.0\"?>\n<rdf:RDF xmlns:rdf=\"http://www.w3.org/1999/02/22-rdf-syntax-ns#\" xmlns:ex=\"http://example.org/\">\n",
    );
    for i in 0..n {
        s.push_str(&format!(
            "  <rdf:Description rdf:about=\"http://example.org/s{i}\"><ex:p>v{i}</ex:p></rdf:Description>\n"
        ));
    }
    s.push_str("</rdf:RDF>\n");
    s
}

#[test]
fn rdf_chunk_size_produces_correct_file_count() {
    let content = rdfxml_content(10);
    let chunks = split_file("small", &content, BASE, RdfFormat::RdfXml, &opts(3)).unwrap();
    assert_eq!(chunks.len(), 4);
}

#[test]
fn rdf_output_files_have_rdf_extension() {
    let content = rdfxml_content(2);
    let chunks = split_file("small", &content, BASE, RdfFormat::RdfXml, &opts(1)).unwrap();
    for c in &chunks {
        assert!(c.path.ends_with(".rdf"), "{}", c.path);
    }
}

fn jsonld_content(n: usize) -> String {
    let mut s = String::from("[\n");
    for i in 0..n {
        if i > 0 {
            s.push_str(",\n");
        }
        s.push_str(&format!(
            "  {{\"@id\": \"http://example.org/s{i}\", \"http://example.org/p\": \"v{i}\"}}"
        ));
    }
    s.push_str("\n]\n");
    s
}

#[test]
fn jsonld_chunk_size_produces_correct_file_count() {
    let content = jsonld_content(10);
    let chunks = split_file("small", &content, BASE, RdfFormat::JsonLd, &opts(3)).unwrap();
    assert_eq!(chunks.len(), 4);
}

#[test]
fn jsonld_output_files_have_jsonld_extension() {
    let content = jsonld_content(10);
    let chunks = split_file("small", &content, BASE, RdfFormat::JsonLd, &opts(3)).unwrap();
    for c in &chunks {
        assert!(c.path.ends_with(".jsonld"), "{}", c.path);
    }
}

#[test]
fn force_creates_missing_output_directory() {
    // without force a missing directory is refused; with force the caller is
    // told to create it
    let denied = prepare_output_dir("brand_new_dir", false, false);
    assert!(matches!(
        denied,
        Err(SplitterError::OutputDirMissing(d)) if d == "brand_new_dir"
    ));
    let allowed = prepare_output_dir("brand_new_dir", false, true);
    assert_eq!(allowed.unwrap(), true);
    let existing = prepare_output_dir("brand_new_dir", true, false);
    assert_eq!(existing.unwrap(), false);
}

#[test]
fn no_force_fails_when_output_directory_is_missing() {
    let r = prepare_output_dir("nonexistent", false, false);
    match r {
        Err(SplitterError::OutputDirMissing(d)) => assert_eq!(d, "nonexistent"),
        _ => panic!("expected OutputDirMissing"),
    }
}

#[test]
fn no_force_fails_when_output_file_already_exists() {
    let r = check_overwrite("out/small_0000.nt", true, false);
    match r {
        Err(SplitterError::OutputExists(p)) => assert_eq!(p, "out/small_0000.nt"),
        _ => panic!("expected OutputExists"),
    }
}

#[test]
fn force_overwrites_existing_output_files() {
    assert!(check_overwrite("out/small_0000.nt", true, true).is_ok());
    assert!(check_overwrite("out/small_0000.nt", false, false).is_ok());
}

#[test]
fn rerun_with_smaller_chunk_count_leaves_stale_names_unclaimed() {
    // a re-split with a larger chunk size claims fewer paths: the old higher
    // indices are simply not in the new plan, so those files would stay on
    // disk untouched
    let content = nt_content(10);
    let first = split_file("small", &content, BASE, RdfFormat::NTriples, &opts(3)).unwrap();
    let second = split_file("small", &content, BASE, RdfFormat::NTriples, &opts(5)).unwrap();
    assert_eq!(first.len(), 4);
    assert_eq!(second.len(), 2);
    let first_paths: Vec<&str> = first.iter().map(|c| c.path.as_str()).collect();
    let second_paths: Vec<&str> = second.iter().map(|c| c.path.as_str()).collect();
    assert_eq!(second_paths, &first_paths[..2]);
    assert!(!second_paths.contains(&"out/small_0003.nt"));
}

#[test]
fn chunks_decode_back_to_the_original_records() {
    // every chunk is itself a valid document; decoding all chunks and
    // summing their record counts gives back the input's count
    let content = nt_content(10);
    let chunks = split_file("small", &content, BASE, RdfFormat::NTriples, &opts(3)).unwrap();
    let total: usize = chunks
        .iter()
        .map(|c| count_records(&c.content, BASE, RdfFormat::NTriples).unwrap())
        .sum();
    assert_eq!(total, 10);
    let json_chunks = split_file("small", &jsonld_content(10), BASE, RdfFormat::JsonLd, &opts(4)).unwrap();
    let json_total: usize = json_chunks
        .iter()
        .map(|c| count_records(&c.content, BASE, RdfFormat::JsonLd).unwrap())
        .sum();
    assert_eq!(json_total, 10);
}

#[test]
fn split_is_deterministic() {
    let content = nt_content(7);
    let a = split_file("small", &content, BASE, RdfFormat::NTriples, &opts(2)).unwrap();
    let b = split_file("small", &content, BASE, RdfFormat::NTriples, &opts(2)).unwrap();
    let pa: Vec<(&str, &str)> = a.iter().map(|c: &ChunkFile| (c.path.as_str(), c.content.as_str())).collect();
    let pb: Vec<(&str, &str)> = b.iter().map(|c: &ChunkFile| (c.path.as_str(), c.content.as_str())).collect();
    assert_eq!(pa, pb);
}

#[test]
fn malformed_input_reports_parse_error() {
    let r = split_file("bad", "this is not n-triples", BASE, RdfFormat::NTriples, &opts(3));
    match r {
        Err(SplitterError::Parse(_)) => {}
        _ => panic!("expected Parse error"),
    }
    let c = count_records("{ not json", BASE, RdfFormat::JsonLd);
    match c {
        Err(SplitterError::Parse(_)) => {}
        _ => panic!("expected Parse error"),
    }
}

#[test]
fn derive_chunk_size_rounds_up_and_floors_at_one() {
    assert_eq!(derive_chunk_size(10, 2), 5);
    assert_eq!(derive_chunk_size(10, 3), 4);
    assert_eq!(derive_chunk_size(10, 4), 3);
    assert_eq!(derive_chunk_size(0, 5), 1);
    assert_eq!(derive_chunk_size(3, 7), 1);
}

#[test]
fn chunk_path_pads_index_to_four_digits() {
    let o = opts(3);
    assert_eq!(chunk_path("small", RdfFormat::NTriples, 0, &o), "out/small_0000.nt");
    assert_eq!(chunk_path("small", RdfFormat::Turtle, 42, &o), "out/small_0042.ttl");
    assert_eq!(chunk_path("x", RdfFormat::JsonLd, 12345, &o), "out/x_12345.jsonld");
}

#[test]
fn file_base_iri_forms_are_absolute() {
    assert_eq!(file_base_iri("/data/in.nt"), "file:///data/in.nt");
    assert_eq!(file_base_iri("rel/in.nt"), "file:///rel/in.nt");
    assert_eq!(file_base_iri("c:\\data\\in.nt"), "file:///c:/data/in.nt");
}

#[test]
fn nonblank_line_counting() {
    assert_eq!(count_nonblank_lines(""), 0);
    assert_eq!(count_nonblank_lines("x"), 1);
    assert_eq!(count_nonblank_lines("a\n\nb"), 2);
    assert_eq!(count_nonblank_lines(" \t\r\n"), 0);
    assert_eq!(count_nonblank_lines("a\nb\nc\n"), 3);
}

#[test]
fn error_messages_name_the_offender() {
    let e = SplitterError::OutputExists(String::from("out/a.nt"));
    assert_eq!(
        e.message(),
        "Output file 'out/a.nt' already exists (use --force to overwrite)"
    );
    let d = SplitterError::OutputDirMissing(String::from("out"));
    assert_eq!(
        d.message(),
        "Output directory 'out' does not exist (use --force to create it)"
    );
    let p = SplitterError::Parse(String::from("boom"));
    assert_eq!(p.message(), "RDF parse error: boom");
}
