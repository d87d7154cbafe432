//! The JSON-LD structural expansion into flat statement text.
use rdfsplitter::format::RdfFormat;
use rdfsplitter::jsonld::{expand_iri, jsonld_to_ntriples, nt_escape};
use rdfsplitter::splitter::count_records;

#[test]
fn single_node_with_scalar_predicate_yields_one_statement() {
    let doc = "{\"@id\": \"http://e/s\", \"http://e/p\": \"v\"}";
    let out = jsonld_to_ntriples(&doc).unwrap();
    assert_eq!(out, "<http://e/s> <http://e/p> \"v\" .\n");
    assert_eq!(count_records(doc, "http://e/", RdfFormat::JsonLd).unwrap(), 1);
}

#[test]
fn root_array_emits_nodes_in_order() {
    let doc = (String::new() + "[{\"@id\": \"http://e/a\", \"http://e/p\": \"1\"}," + " {\"@id\": \"http://e/b\", \"http://e/p\": \"2\"}]");
    let out = jsonld_to_ntriples(&doc).unwrap();
    assert_eq!(
        out,
        "<http://e/a> <http://e/p> \"1\" .\n<http://e/b> <http://e/p> \"2\" .\n"
    );
}

#[test]
fn type_key_maps_to_fixed_predicate() {
    let doc = "{\"@id\": \"http://e/s\", \"@type\": \"http://e/T\"}";
    let out = jsonld_to_ntriples(&doc).unwrap();
    assert_eq!(
        out,
        "<http://e/s> <http://www.w3.org/1999/02/22-rdf-syntax-ns#type> <http://e/T> .\n"
    );
}

#[test]
fn array_values_yield_one_statement_each() {
    let doc = "{\"@id\": \"http://e/s\", \"http://e/p\": [\"a\", \"b\"]}";
    let out = jsonld_to_ntriples(&doc).unwrap();
    assert_eq!(
        out,
        "<http://e/s> <http://e/p> \"a\" .\n<http://e/s> <http://e/p> \"b\" .\n"
    );
}

#[test]
fn value_objects_carry_language_or_datatype() {
    let doc = (String::new() + "{\"@id\": \"http://e/s\"," + " \"http://e/p\": {\"@value\": \"hi\", \"@language\": \"en\"}," + " \"http://e/q\": {\"@value\": \"5\", \"@type\": \"http://e/int\"}}");
    let out = jsonld_to_ntriples(&doc).unwrap();
    assert_eq!(
        out,
        "<http://e/s> <http://e/p> \"hi\"@en .\n<http://e/s> <http://e/q> \"5\"^^<http://e/int> .\n"
    );
}

#[test]
fn nested_reference_and_scalars() {
    let doc = (String::new() + "{\"@id\": \"http://e/s\"," + " \"http://e/r\": {\"@id\": \"http://e/o\"}," + " \"http://e/b\": true," + " \"http://e/n\": 3.5}");
    let out = jsonld_to_ntriples(&doc).unwrap();
    assert_eq!(
        out,
        (String::new() + "<http://e/s> <http://e/b> \"true\"^^<http://www.w3.org/2001/XMLSchema#boolean> .\n" + "<http://e/s> <http://e/n> \"3.5\"^^<http://www.w3.org/2001/XMLSchema#decimal> .\n" + "<http://e/s> <http://e/r> <http://e/o> .\n")
    );
}

#[test]
fn graph_container_names_the_graph() {
    let doc = (String::new() + "{\"@id\": \"http://e/g\", \"@graph\": [" + "{\"@id\": \"http://e/s\", \"http://e/p\": \"v\"}]}");
    let out = jsonld_to_ntriples(&doc).unwrap();
    assert_eq!(out, "<http://e/s> <http://e/p> \"v\" <http://e/g> .\n");
}

#[test]
fn node_without_identifier_is_skipped() {
    let doc = "[{\"http://e/p\": \"v\"}, {\"@id\": \"http://e/s\", \"http://e/p\": \"w\"}]";
    let out = jsonld_to_ntriples(&doc).unwrap();
    assert_eq!(out, "<http://e/s> <http://e/p> \"w\" .\n");
}

#[test]
fn null_values_produce_no_statement() {
    let doc = "{\"@id\": \"http://e/s\", \"http://e/p\": null}";
    let out = jsonld_to_ntriples(&doc).unwrap();
    assert_eq!(out, "");
}

#[test]
fn blank_node_identifiers_pass_through() {
    assert_eq!(expand_iri("_:b0"), "_:b0");
    assert_eq!(expand_iri("http://e/a"), "<http://e/a>");
    assert_eq!(expand_iri("not-absolute"), "<not-absolute>");
    let doc = "{\"@id\": \"_:b0\", \"http://e/p\": \"v\"}";
    let out = jsonld_to_ntriples(&doc).unwrap();
    assert_eq!(out, "_:b0 <http://e/p> \"v\" .\n");
}

#[test]
fn literal_content_is_escaped() {
    assert_eq!(nt_escape("a\"b\\c\nd"), "a\\\"b\\\\c\\nd");
    let doc = "{\"@id\": \"http://e/s\", \"http://e/p\": \"line\\nbreak\"}";
    let out = jsonld_to_ntriples(&doc).unwrap();
    assert_eq!(out, "<http://e/s> <http://e/p> \"line\\nbreak\" .\n");
}
