//! The per-syntax encoders and term helpers, against exact expected text.
use rdfsplitter::serialise::{
    json_escape, object_to_jsonld_value, plain_literal, strip_angles, try_lang_literal,
    try_strip_angles, try_typed_literal, write_jsonld, write_nquads, write_ntriples, write_rdfxml,
    write_trig, write_turtle, xml_escape, OwnedQuad, OwnedTriple,
};

fn t(s: &str, p: &str, o: &str) -> OwnedTriple {
    OwnedTriple {
        subject: s.to_string(),
        predicate: p.to_string(),
        object: o.to_string(),
    }
}

#[test]
fn ntriples_one_statement_per_line() {
    let triples = vec![
        t("<http://e/a>", "<http://e/p>", "\"x\""),
        t("<http://e/b>", "<http://e/q>", "<http://e/c>"),
    ];
    let out = write_ntriples(&triples);
    assert_eq!(
        out,
        "<http://e/a> <http://e/p> \"x\" .\n<http://e/b> <http://e/q> <http://e/c> .\n"
    );
    assert_eq!(write_turtle(&triples), out);
}

#[test]
fn nquads_append_graph_before_period() {
    let quads = vec![
        OwnedQuad {
            triple: t("<http://e/a>", "<http://e/p>", "\"x\""),
            graph_name: Some("<http://e/g>".to_string()),
        },
        OwnedQuad {
            triple: t("<http://e/a>", "<http://e/p>", "\"y\""),
            graph_name: None,
        },
    ];
    let out = write_nquads(&quads);
    assert_eq!(
        out,
        "<http://e/a> <http://e/p> \"x\" <http://e/g> .\n<http://e/a> <http://e/p> \"y\" .\n"
    );
    assert_eq!(write_trig(&quads), out);
}

#[test]
fn rdfxml_chooses_element_shape_by_object() {
    let triples = vec![
        t("<http://e/a>", "<http://e/p>", "<http://e/o>"),
        t("<http://e/a>", "<http://e/p>", "\"hi\"@en"),
        t("<http://e/a>", "<http://e/p>", "\"5\"^^<http://www.w3.org/2001/XMLSchema#int>"),
        t("<http://e/a>", "<http://e/p>", "\"plain & <odd>\""),
    ];
    let out = write_rdfxml(&triples);
    let expected = (String::new() + "<?xml version=\"1.0\" encoding=\"utf-8\"?>\n" + "<rdf:RDF xmlns:rdf=\"http://www.w3.org/1999/02/22-rdf-syntax-ns#\">\n" + "  <rdf:Description rdf:about=\"http://e/a\">\n" + "    <http://e/p rdf:resource=\"http://e/o\"/>\n" + "  </rdf:Description>\n" + "  <rdf:Description rdf:about=\"http://e/a\">\n" + "    <http://e/p xml:lang=\"en\">hi</http://e/p>\n" + "  </rdf:Description>\n" + "  <rdf:Description rdf:about=\"http://e/a\">\n" + "    <http://e/p rdf:datatype=\"http://www.w3.org/2001/XMLSchema#int\">5</http://e/p>\n" + "  </rdf:Description>\n" + "  <rdf:Description rdf:about=\"http://e/a\">\n" + "    <http://e/p>plain &amp; &lt;odd&gt;</http://e/p>\n" + "  </rdf:Description>\n" + "</rdf:RDF>\n");
    assert_eq!(out, expected);
}

#[test]
fn jsonld_groups_by_subject_then_predicate_sorted() {
    let triples = vec![
        t("<http://e/b>", "<http://e/q>", "\"1\""),
        t("<http://e/a>", "<http://e/p>", "\"2\""),
        t("<http://e/b>", "<http://e/p>", "<http://e/o>"),
        t("<http://e/b>", "<http://e/q>", "\"3\""),
    ];
    let out = write_jsonld(&triples);
    let expected = (String::new() + "[\n" + "  {\n" + "    \"@id\": \"http://e/a\",\n" + "    \"http://e/p\": [{\"@value\": \"2\"}]\n" + "  },\n" + "  {\n" + "    \"@id\": \"http://e/b\",\n" + "    \"http://e/p\": [{\"@id\": \"http://e/o\"}],\n" + "    \"http://e/q\": [\n" + "      {\"@value\": \"1\"},\n" + "      {\"@value\": \"3\"}\n" + "    ]\n" + "  }\n" + "]\n");
    assert_eq!(out, expected);
}

#[test]
fn escapes_rewrite_special_characters() {
    assert_eq!(xml_escape("a<b>&\"c"), "a&lt;b&gt;&amp;&quot;c");
    assert_eq!(xml_escape("plain"), "plain");
    assert_eq!(json_escape("a\\b\"c\nd\re\tf"), "a\\\\b\\\"c\\nd\\re\\tf");
    assert_eq!(json_escape("plain"), "plain");
}

#[test]
fn term_helpers_derive_kind_from_lexical_form() {
    assert_eq!(try_strip_angles("<http://e/a>"), Some("http://e/a"));
    assert_eq!(try_strip_angles("\"lit\""), None);
    assert_eq!(strip_angles("<x>"), "x");
    assert_eq!(strip_angles("_:b0"), "_:b0");

    assert_eq!(try_lang_literal("\"hello\"@en"), Some(("hello", "en")));
    assert_eq!(try_lang_literal("\"hello\""), None);

    assert_eq!(
        try_typed_literal("\"5\"^^<http://www.w3.org/2001/XMLSchema#int>"),
        Some(("5", "http://www.w3.org/2001/XMLSchema#int"))
    );
    assert_eq!(try_typed_literal("\"5\""), None);

    assert_eq!(plain_literal("\"value\""), "value");
    assert_eq!(plain_literal("\"a\"b\""), "a\"b");
}

#[test]
fn object_to_jsonld_value_covers_the_four_shapes() {
    assert_eq!(
        object_to_jsonld_value("<http://e/o>"),
        "{\"@id\": \"http://e/o\"}"
    );
    assert_eq!(
        object_to_jsonld_value("\"hi\"@en"),
        "{\"@value\": \"hi\", \"@language\": \"en\"}"
    );
    assert_eq!(
        object_to_jsonld_value("\"5\"^^<http://www.w3.org/2001/XMLSchema#int>"),
        "{\"@value\": \"5\", \"@type\": \"http://www.w3.org/2001/XMLSchema#int\"}"
    );
    assert_eq!(object_to_jsonld_value("\"plain\""), "{\"@value\": \"plain\"}");
}

#[test]
fn empty_batches_encode_to_empty_or_bare_documents() {
    let none: Vec<OwnedTriple> = Vec::new();
    assert_eq!(write_ntriples(&none), "");
    assert_eq!(write_jsonld(&none), "[\n]\n");
    let expected = (String::new() + "<?xml version=\"1.0\" encoding=\"utf-8\"?>\n" + "<rdf:RDF xmlns:rdf=\"http://www.w3.org/1999/02/22-rdf-syntax-ns#\">\n" + "</rdf:RDF>\n");
    assert_eq!(write_rdfxml(&none), expected);
}
