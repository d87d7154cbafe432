//! JSON-LD ingest: a generic JSON tree, its structural expansion into flat
//! N-Triples text, and the trusted parse of the input document. Only the
//! already-expanded, flat subset of the syntax is handled: no context
//! resolution is attempted.
use vstd::prelude::*;

verus! {

broadcast use vstd::std_specs::vec::group_vec_axioms;

use vstd::string::StrSliceExecFns;
use vstd::string::StringExecFns;
use crate::serialise::{json_escape, spec_backslash_escape};
use crate::format::SplitterError;
use crate::text::{push_char, str_eq};

/// One field of a JSON object: its key and its value, in document order as
/// the parser delivered it (ordered maps iterate keys ascending).
pub struct JsonEntry {
    pub key: String,
    pub value: JsonValue,
}

/// A generic JSON tree. Numbers are carried as their decimal text, exactly as
/// the parser renders them.
pub enum JsonValue {
    Null,
    Bool(bool),
    Number(String),
    Str(String),
    Array(Vec<JsonValue>),
    Object(Vec<JsonEntry>),
}

/// The mathematical value of one JSON object field.
pub ghost struct JsonEntryModel {
    pub key: Seq<char>,
    pub value: JsonModel,
}

/// The mathematical value of a JSON tree.
pub ghost enum JsonModel {
    Null,
    Bool(bool),
    Number(Seq<char>),
    Str(Seq<char>),
    Array(Seq<JsonModel>),
    Object(Seq<JsonEntryModel>),
}

/// The model of a JSON tree.
pub open spec fn json_model_of(v: JsonValue) -> JsonModel
    decreases v,
{
    match v {
        JsonValue::Null => JsonModel::Null,
        JsonValue::Bool(b) => JsonModel::Bool(b),
        JsonValue::Number(n) => JsonModel::Number(n@),
        JsonValue::Str(s) => JsonModel::Str(s@),
        JsonValue::Array(a) => JsonModel::Array(json_models_of(a@)),
        JsonValue::Object(es) => JsonModel::Object(json_entry_models_of(es@)),
    }
}

/// The models of a sequence of JSON trees.
pub open spec fn json_models_of(vs: Seq<JsonValue>) -> Seq<JsonModel>
    decreases vs,
{
    if vs.len() == 0 {
        Seq::empty()
    } else {
        seq![json_model_of(vs[0])] + json_models_of(vs.drop_first())
    }
}

/// The models of a sequence of JSON object fields.
pub open spec fn json_entry_models_of(es: Seq<JsonEntry>) -> Seq<JsonEntryModel>
    decreases es,
{
    if es.len() == 0 {
        Seq::empty()
    } else {
        seq![
            JsonEntryModel { key: es[0].key@, value: json_model_of(es[0].value) },
        ] + json_entry_models_of(es.drop_first())
    }
}

/// Model sequences index elementwise and keep lengths.
pub proof fn lemma_json_models_of_index(vs: Seq<JsonValue>)
    ensures
        json_models_of(vs).len() == vs.len(),
        forall|i: int|
            0 <= i < vs.len() ==> #[trigger] json_models_of(vs)[i] == json_model_of(vs[i]),
    decreases vs,
{
    if vs.len() > 0 {
        lemma_json_models_of_index(vs.drop_first());
        assert forall|i: int|
            0 <= i < vs.len() implies #[trigger] json_models_of(vs)[i] == json_model_of(
            vs[i],
        ) by {
            if i > 0 {
                assert(json_models_of(vs)[i] == json_models_of(vs.drop_first())[i - 1]);
                assert(vs.drop_first()[i - 1] == vs[i]);
            }
        }
    }
}

/// Entry model sequences index elementwise and keep lengths.
pub proof fn lemma_json_entry_models_of_index(es: Seq<JsonEntry>)
    ensures
        json_entry_models_of(es).len() == es.len(),
        forall|i: int|
            0 <= i < es.len() ==> #[trigger] json_entry_models_of(es)[i] == (JsonEntryModel {
                key: es[i].key@,
                value: json_model_of(es[i].value),
            }),
    decreases es,
{
    if es.len() > 0 {
        lemma_json_entry_models_of_index(es.drop_first());
        assert forall|i: int|
            0 <= i < es.len() implies #[trigger] json_entry_models_of(es)[i] == (JsonEntryModel {
            key: es[i].key@,
            value: json_model_of(es[i].value),
        }) by {
            if i > 0 {
                assert(json_entry_models_of(es)[i] == json_entry_models_of(es.drop_first())[i
                    - 1]);
                assert(es.drop_first()[i - 1] == es[i]);
            }
        }
    }
}

impl View for JsonValue {
    type V = JsonModel;

    open spec fn view(&self) -> JsonModel {
        json_model_of(*self)
    }
}

/// The value of the first field named `key`, if any. The parser's ordered
/// map holds each key once, so the first match is the only one.
pub open spec fn spec_obj_get(es: Seq<JsonEntryModel>, key: Seq<char>) -> Option<JsonModel>
    decreases es.len(),
{
    if es.len() == 0 {
        None
    } else if es[0].key == key {
        Some(es[0].value)
    } else {
        spec_obj_get(es.drop_first(), key)
    }
}

/// Looks up a field of a JSON object by key.
fn obj_get<'a>(es: &'a Vec<JsonEntry>, key: &str) -> (r: Option<&'a JsonValue>)
    ensures
        r is Some <==> spec_obj_get(json_entry_models_of(es@), key@) is Some,
        r matches Some(v) ==> spec_obj_get(json_entry_models_of(es@), key@) == Some(
            json_model_of(*v),
        ),
        r matches Some(v) ==> exists|i: int| 0 <= i < es@.len() && *v == (#[trigger] es@[i]).value,
{
    let ghost ms = json_entry_models_of(es@);
    proof {
        lemma_json_entry_models_of_index(es@);
        assert(ms.skip(0) =~= ms);
    }
    let mut i: usize = 0;
    while i < es.len()
        invariant
            ms == json_entry_models_of(es@),
            ms.len() == es@.len(),
            forall|w: int|
                0 <= w < es@.len() ==> #[trigger] ms[w] == (JsonEntryModel {
                    key: es@[w].key@,
                    value: json_model_of(es@[w].value),
                }),
            0 <= i <= es@.len(),
            spec_obj_get(ms, key@) == spec_obj_get(ms.skip(i as int), key@),
            forall|w: int| 0 <= w < i ==> (#[trigger] ms[w]).key != key@,
        decreases es@.len() - i,
    {
        if str_eq(es[i].key.as_str(), key) {
            proof {
                assert(ms.skip(i as int)[0] == ms[i as int]);
                assert(spec_obj_get(ms.skip(i as int), key@) == Some(ms[i as int].value));
            }
            return Some(&es[i].value);
        }
        proof {
            assert(ms.skip(i as int)[0] == ms[i as int]);
            assert(ms.skip(i as int).drop_first() =~= ms.skip(i + 1));
        }
        i += 1;
    }
    proof {
        assert(ms.skip(i as int).len() == 0);
    }
    None
}

/// What a key or reference string expands to: a blank-node label is kept, and
/// anything else is wrapped in angle brackets as an IRI, with no context
/// resolution.
pub open spec fn spec_expand_iri(s: Seq<char>) -> Seq<char> {
    if s.len() >= 2 && s[0] == '_' && s[1] == ':' {
        s
    } else {
        "<"@ + s + ">"@
    }
}

/// Expands a key or reference string into an IRI or blank-node term.
pub fn expand_iri(s: &str) -> (r: String)
    ensures
        r@ == spec_expand_iri(s@),
{
    let n = s.unicode_len();
    if n >= 2 && s.get_char(0) == '_' && s.get_char(1) == ':' {
        let mut out = String::new();
        out.append(s);
        proof {
            assert(out@ =~= spec_expand_iri(s@));
        }
        out
    } else {
        let mut out = String::from_str("<");
        out.append(s);
        out.append(">");
        proof {
            assert(out@ =~= spec_expand_iri(s@));
        }
        out
    }
}

/// Escapes `s` for use inside a double-quoted N-Triples literal: the same
/// backslash escapes that JSON strings use.
pub fn nt_escape(s: &str) -> (r: String)
    ensures
        r@ == spec_backslash_escape(s@),
{
    json_escape(s)
}

/// The object term that one JSON value produces, if any: a reference for a
/// node object with an identifier, a literal (with optional language or
/// datatype) for a value object, a plain literal for a bare string (an IRI
/// when the key is the type key), a typed literal for a boolean or a number;
/// anything else produces no statement.
pub open spec fn spec_json_object_term(key: Seq<char>, val: JsonModel) -> Option<Seq<char>> {
    match val {
        JsonModel::Object(es) => {
            match spec_obj_get(es, "@id"@) {
                Some(JsonModel::Str(iri)) => Some(spec_expand_iri(iri)),
                _ => match spec_obj_get(es, "@value"@) {
                    Some(JsonModel::Str(value)) => match spec_obj_get(es, "@language"@) {
                        Some(JsonModel::Str(lang)) => Some(
                            "\""@ + spec_backslash_escape(value) + "\"@"@ + lang,
                        ),
                        _ => match spec_obj_get(es, "@type"@) {
                            Some(JsonModel::Str(dt)) => Some(
                                "\""@ + spec_backslash_escape(value) + "\"^^"@ + spec_expand_iri(
                                    dt,
                                ),
                            ),
                            _ => Some("\""@ + spec_backslash_escape(value) + "\""@),
                        },
                    },
                    _ => None,
                },
            }
        },
        JsonModel::Str(s) => {
            if key == "@type"@ {
                Some(spec_expand_iri(s))
            } else {
                Some("\""@ + spec_backslash_escape(s) + "\""@)
            }
        },
        JsonModel::Bool(b) => {
            if b {
                Some("\"true\"^^<http://www.w3.org/2001/XMLSchema#boolean>"@)
            } else {
                Some("\"false\"^^<http://www.w3.org/2001/XMLSchema#boolean>"@)
            }
        },
        JsonModel::Number(n) => {
            Some("\""@ + n + "\"^^<http://www.w3.org/2001/XMLSchema#decimal>"@)
        },
        _ => None,
    }
}

/// Renders the object term of one JSON value, if it produces one.
pub fn jsonld_value_to_nt_object(key: &str, val: &JsonValue) -> (r: Option<String>)
    ensures
        r is Some <==> spec_json_object_term(key@, val@) is Some,
        r matches Some(o) ==> spec_json_object_term(key@, val@) == Some(o@),
{
    match val {
        JsonValue::Object(m) => {
            if let Some(idv) = obj_get(m, "@id") {
                if let JsonValue::Str(iri) = idv {
                    return Some(expand_iri(iri.as_str()));
                }
            }
            let value = match obj_get(m, "@value") {
                Some(vv) => {
                    match vv {
                        JsonValue::Str(value) => value,
                        _ => {
                            return None;
                        },
                    }
                },
                None => {
                    return None;
                },
            };
            if let Some(lv) = obj_get(m, "@language") {
                if let JsonValue::Str(lang) = lv {
                    let mut out = String::from_str("\"");
                    let esc = nt_escape(value.as_str());
                    out.append(esc.as_str());
                    out.append("\"@");
                    out.append(lang.as_str());
                    proof {
                        assert(out@ =~= spec_json_object_term(key@, val@).unwrap());
                    }
                    return Some(out);
                }
            }
            if let Some(tv) = obj_get(m, "@type") {
                if let JsonValue::Str(dt) = tv {
                    let mut out = String::from_str("\"");
                    let esc = nt_escape(value.as_str());
                    out.append(esc.as_str());
                    out.append("\"^^");
                    let ex = expand_iri(dt.as_str());
                    out.append(ex.as_str());
                    proof {
                        assert(out@ =~= spec_json_object_term(key@, val@).unwrap());
                    }
                    return Some(out);
                }
            }
            let mut out = String::from_str("\"");
            let esc = nt_escape(value.as_str());
            out.append(esc.as_str());
            out.append("\"");
            proof {
                assert(out@ =~= spec_json_object_term(key@, val@).unwrap());
            }
            Some(out)
        },
        JsonValue::Str(sv) => {
            if str_eq(key, "@type") {
                Some(expand_iri(sv.as_str()))
            } else {
                let mut out = String::from_str("\"");
                let esc = nt_escape(sv.as_str());
                out.append(esc.as_str());
                out.append("\"");
                proof {
                    assert(out@ =~= spec_json_object_term(key@, val@).unwrap());
                }
                Some(out)
            }
        },
        JsonValue::Bool(b) => {
            if *b {
                Some(String::from_str("\"true\"^^<http://www.w3.org/2001/XMLSchema#boolean>"))
            } else {
                Some(String::from_str("\"false\"^^<http://www.w3.org/2001/XMLSchema#boolean>"))
            }
        },
        JsonValue::Number(n) => {
            let mut out = String::from_str("\"");
            out.append(n.as_str());
            out.append("\"^^<http://www.w3.org/2001/XMLSchema#decimal>");
            proof {
                assert(out@ =~= spec_json_object_term(key@, val@).unwrap());
            }
            Some(out)
        },
        _ => None,
    }
}

/// The view of an optional borrowed graph name.
pub open spec fn spec_opt_str(g: Option<&str>) -> Option<Seq<char>> {
    match g {
        Some(s) => Some(s@),
        None => None,
    }
}

/// One flat statement line, with the graph term before the period when the
/// statement belongs to a named graph.
pub open spec fn spec_statement_line(
    subject: Seq<char>,
    pred: Seq<char>,
    obj: Seq<char>,
    graph: Option<Seq<char>>,
) -> Seq<char> {
    match graph {
        Some(g) => subject + " "@ + pred + " "@ + obj + " "@ + g + " .\n"@,
        None => subject + " "@ + pred + " "@ + obj + " .\n"@,
    }
}

/// The lines that one field value list produces: one statement per value
/// that yields an object term, in order.
pub open spec fn spec_vals_lines(
    key: Seq<char>,
    vals: Seq<JsonModel>,
    pred: Seq<char>,
    subject: Seq<char>,
    graph: Option<Seq<char>>,
) -> Seq<char>
    decreases vals.len(),
{
    if vals.len() == 0 {
        Seq::empty()
    } else {
        (match spec_json_object_term(key, vals[0]) {
            Some(o) => spec_statement_line(subject, pred, o, graph),
            None => Seq::empty(),
        }) + spec_vals_lines(key, vals.drop_first(), pred, subject, graph)
    }
}

proof fn lemma_vals_lines_push(
    key: Seq<char>,
    vals: Seq<JsonModel>,
    pred: Seq<char>,
    subject: Seq<char>,
    graph: Option<Seq<char>>,
    x: JsonModel,
)
    ensures
        spec_vals_lines(key, vals.push(x), pred, subject, graph) == spec_vals_lines(
            key,
            vals,
            pred,
            subject,
            graph,
        ) + (match spec_json_object_term(key, x) {
            Some(o) => spec_statement_line(subject, pred, o, graph),
            None => Seq::empty(),
        }),
    decreases vals.len(),
{
    let tl = match spec_json_object_term(key, x) {
        Some(o) => spec_statement_line(subject, pred, o, graph),
        None => Seq::<char>::empty(),
    };
    let q = vals.push(x);
    if vals.len() == 0 {
        assert(q[0] == x);
        assert(q.drop_first() =~= Seq::<JsonModel>::empty());
        assert(spec_vals_lines(key, q, pred, subject, graph) == tl + spec_vals_lines(
            key,
            Seq::<JsonModel>::empty(),
            pred,
            subject,
            graph,
        ));
        assert(Seq::<char>::empty() + tl =~= tl);
        assert(tl + Seq::<char>::empty() =~= tl);
    } else {
        assert(q[0] == vals[0]);
        assert(q.drop_first() =~= vals.drop_first().push(x));
        lemma_vals_lines_push(key, vals.drop_first(), pred, subject, graph, x);
        let h0 = match spec_json_object_term(key, q[0]) {
            Some(o) => spec_statement_line(subject, pred, o, graph),
            None => Seq::<char>::empty(),
        };
        assert(spec_vals_lines(key, q, pred, subject, graph) == h0 + spec_vals_lines(
            key,
            q.drop_first(),
            pred,
            subject,
            graph,
        ));
        let h = match spec_json_object_term(key, vals[0]) {
            Some(o) => spec_statement_line(subject, pred, o, graph),
            None => Seq::<char>::empty(),
        };
        assert(h + (spec_vals_lines(key, vals.drop_first(), pred, subject, graph) + tl) =~= (h
            + spec_vals_lines(key, vals.drop_first(), pred, subject, graph)) + tl);
    }
}

/// The predicate IRI of the fixed type relation.
pub open spec fn spec_rdf_type_iri() -> Seq<char> {
    "<http://www.w3.org/1999/02/22-rdf-syntax-ns#type>"@
}

/// The lines that one object field produces: nothing for the identifier and
/// context keys; otherwise the key becomes the predicate (the type key maps
/// to the fixed type IRI) and each value of the field produces at most one
/// statement. A value that is not an array is treated as a one-element array.
pub open spec fn spec_entry_lines(
    key: Seq<char>,
    value: JsonModel,
    subject: Seq<char>,
    graph: Option<Seq<char>>,
) -> Seq<char> {
    if key == "@id"@ || key == "@context"@ {
        Seq::empty()
    } else {
        let pred = if key == "@type"@ {
            spec_rdf_type_iri()
        } else {
            spec_expand_iri(key)
        };
        let vals = match value {
            JsonModel::Array(a) => a,
            _ => seq![value],
        };
        spec_vals_lines(key, vals, pred, subject, graph)
    }
}

/// The lines of a whole node object: its fields' lines in field order.
pub open spec fn spec_node_entries(
    entries: Seq<JsonEntryModel>,
    subject: Seq<char>,
    graph: Option<Seq<char>>,
) -> Seq<char>
    decreases entries.len(),
{
    if entries.len() == 0 {
        Seq::empty()
    } else {
        spec_entry_lines(entries[0].key, entries[0].value, subject, graph) + spec_node_entries(
            entries.drop_first(),
            subject,
            graph,
        )
    }
}

proof fn lemma_node_entries_push(
    entries: Seq<JsonEntryModel>,
    subject: Seq<char>,
    graph: Option<Seq<char>>,
    x: JsonEntryModel,
)
    ensures
        spec_node_entries(entries.push(x), subject, graph) == spec_node_entries(
            entries,
            subject,
            graph,
        ) + spec_entry_lines(x.key, x.value, subject, graph),
    decreases entries.len(),
{
    let tl = spec_entry_lines(x.key, x.value, subject, graph);
    let q = entries.push(x);
    if entries.len() == 0 {
        assert(q[0] == x);
        assert(q.drop_first() =~= Seq::<JsonEntryModel>::empty());
        assert(spec_node_entries(q, subject, graph) == tl + spec_node_entries(
            Seq::<JsonEntryModel>::empty(),
            subject,
            graph,
        ));
        assert(Seq::<char>::empty() + tl =~= tl);
        assert(tl + Seq::<char>::empty() =~= tl);
    } else {
        assert(q[0] == entries[0]);
        assert(q.drop_first() =~= entries.drop_first().push(x));
        lemma_node_entries_push(entries.drop_first(), subject, graph, x);
        assert(spec_node_entries(q, subject, graph) == spec_entry_lines(
            q[0].key,
            q[0].value,
            subject,
            graph,
        ) + spec_node_entries(q.drop_first(), subject, graph));
        let h = spec_entry_lines(entries[0].key, entries[0].value, subject, graph);
        assert(h + (spec_node_entries(entries.drop_first(), subject, graph) + tl) =~= (h
            + spec_node_entries(entries.drop_first(), subject, graph)) + tl);
    }
}

/// A looked-up field value sits below its object in the tree.
proof fn lemma_obj_get_decreases(es: Seq<JsonEntryModel>, key: Seq<char>)
    ensures
        spec_obj_get(es, key) matches Some(v) ==> decreases_to!(es => v),
    decreases es.len(),
{
    if es.len() > 0 {
        if es[0].key == key {
            assert(decreases_to!(es => es[0]));
            assert(decreases_to!(es[0] => es[0].value));
        } else {
            lemma_obj_get_decreases(es.drop_first(), key);
            vstd::seq::axiom_seq_subrange_decreases(es, 1, es.len() as int);
            assert(es.drop_first() == es.subrange(1, es.len() as int));
        }
    }
}

/// The flat lines that one node of the tree produces. A node object whose
/// `@graph` field is an array is a named-graph container: its own identifier
/// (when it is a string) names the graph of every statement produced from
/// the nodes inside, recursively. Any other node object needs a string
/// identifier to anchor a subject; without one it produces nothing, and
/// anything that is not an object produces nothing.
pub open spec fn spec_extract_node(m: JsonModel, graph: Option<Seq<char>>) -> Seq<char>
    decreases m, 1int,
    via spec_extract_node_decreases
{
    match m {
        JsonModel::Object(entries) => {
            match spec_obj_get(entries, "@graph"@) {
                Some(JsonModel::Array(nodes)) => {
                    let g = match spec_obj_get(entries, "@id"@) {
                        Some(JsonModel::Str(id)) => Some(spec_expand_iri(id)),
                        _ => None,
                    };
                    spec_extract_nodes(nodes, g)
                },
                _ => match spec_obj_get(entries, "@id"@) {
                    Some(JsonModel::Str(id)) => spec_node_entries(
                        entries,
                        spec_expand_iri(id),
                        graph,
                    ),
                    _ => Seq::empty(),
                },
            }
        },
        _ => Seq::empty(),
    }
}

/// The flat lines of a node list, in order.
pub open spec fn spec_extract_nodes(nodes: Seq<JsonModel>, graph: Option<Seq<char>>) -> Seq<char>
    decreases nodes, 0int,
    via spec_extract_nodes_decreases
{
    if nodes.len() == 0 {
        Seq::empty()
    } else {
        spec_extract_node(nodes[0], graph) + spec_extract_nodes(nodes.drop_first(), graph)
    }
}

#[via_fn]
proof fn spec_extract_node_decreases(m: JsonModel, graph: Option<Seq<char>>) {
    match m {
        JsonModel::Object(entries) => {
            match spec_obj_get(entries, "@graph"@) {
                Some(v) => {
                    match v {
                        JsonModel::Array(nodes) => {
                            lemma_obj_get_decreases(entries, "@graph"@);
                            assert(decreases_to!(m => entries));
                            assert(decreases_to!(v => nodes));
                            assert(decreases_to!(m => nodes));
                        },
                        _ => {},
                    }
                },
                _ => {},
            }
        },
        _ => {},
    }
}

#[via_fn]
proof fn spec_extract_nodes_decreases(nodes: Seq<JsonModel>, graph: Option<Seq<char>>) {
    if nodes.len() > 0 {
        vstd::seq::axiom_seq_subrange_decreases(nodes, 1, nodes.len() as int);
        assert(nodes.drop_first() == nodes.subrange(1, nodes.len() as int));
    }
}

proof fn lemma_extract_nodes_push(nodes: Seq<JsonModel>, graph: Option<Seq<char>>, x: JsonModel)
    ensures
        spec_extract_nodes(nodes.push(x), graph) == spec_extract_nodes(nodes, graph)
            + spec_extract_node(x, graph),
    decreases nodes.len(),
{
    let tl = spec_extract_node(x, graph);
    let q = nodes.push(x);
    if nodes.len() == 0 {
        assert(q[0] == x);
        assert(q.drop_first() =~= Seq::<JsonModel>::empty());
        assert(spec_extract_nodes(q, graph) == tl + spec_extract_nodes(
            Seq::<JsonModel>::empty(),
            graph,
        ));
        assert(Seq::<char>::empty() + tl =~= tl);
        assert(tl + Seq::<char>::empty() =~= tl);
    } else {
        assert(q[0] == nodes[0]);
        assert(q.drop_first() =~= nodes.drop_first().push(x));
        lemma_extract_nodes_push(nodes.drop_first(), graph, x);
        assert(spec_extract_nodes(q, graph) == spec_extract_node(q[0], graph)
            + spec_extract_nodes(q.drop_first(), graph));
        let h = spec_extract_node(nodes[0], graph);
        assert(h + (spec_extract_nodes(nodes.drop_first(), graph) + tl) =~= (h
            + spec_extract_nodes(nodes.drop_first(), graph)) + tl);
    }
}

/// A tree's model is an array exactly when the tree is.
proof fn lemma_model_array_shape(v: JsonValue)
    ensures
        (json_model_of(v) matches JsonModel::Array(a)) <==> (v matches JsonValue::Array(x)),
{
    match v {
        JsonValue::Null => {},
        JsonValue::Bool(b) => {},
        JsonValue::Number(n) => {},
        JsonValue::Str(t) => {},
        JsonValue::Array(a) => {},
        JsonValue::Object(es) => {},
    }
}

/// Appends one flat statement line.
fn append_statement(out: &mut String, subject: &str, pred: &str, obj: &str, graph: Option<&str>)
    ensures
        final(out)@ == old(out)@ + spec_statement_line(subject@, pred@, obj@, spec_opt_str(graph)),
{
    out.append(subject);
    out.append(" ");
    out.append(pred);
    out.append(" ");
    out.append(obj);
    match graph {
        Some(g) => {
            out.append(" ");
            out.append(g);
        },
        None => {},
    }
    out.append(" .\n");
    proof {
        assert(out@ =~= old(out)@ + spec_statement_line(
            subject@,
            pred@,
            obj@,
            spec_opt_str(graph),
        ));
    }
}

/// Walks one node of the parsed tree, appending every flat statement it
/// produces to `out` in discovery order.
#[verifier::rlimit(80)]
pub fn extract_node(node: &JsonValue, graph: Option<&str>, out: &mut String)
    ensures
        final(out)@ == old(out)@ + spec_extract_node(node@, spec_opt_str(graph)),
    decreases node,
{
    let ghost gview = spec_opt_str(graph);
    let entries = match node {
        JsonValue::Object(es) => es,
        _ => {
            proof {
                assert(out@ =~= old(out)@ + spec_extract_node(node@, gview));
            }
            return ;
        },
    };
    let ghost ems = json_entry_models_of(entries@);
    proof {
        assert(*node == JsonValue::Object(*entries));
        assert(node@ == JsonModel::Object(ems));
        lemma_json_entry_models_of_index(entries@);
    }
    let gv = obj_get(entries, "@graph");
    match gv {
        Some(gval) => {
            match gval {
                JsonValue::Array(nodes) => {
                    // a named-graph container: its own identifier names the
                    // graph of everything inside
                    let gname: Option<String> = match obj_get(entries, "@id") {
                        Some(idv) => match idv {
                            JsonValue::Str(s) => Some(expand_iri(s.as_str())),
                            _ => None,
                        },
                        None => None,
                    };
                    let ghost gmodel = (match spec_obj_get(ems, "@id"@) {
                        Some(JsonModel::Str(id)) => Some(spec_expand_iri(id)),
                        _ => None,
                    });
                    proof {
                        assert((match gname {
                            Some(g) => Some(g@),
                            None => None::<Seq<char>>,
                        }) == gmodel);
                    }
                    let ghost nodes_models = json_models_of(nodes@);
                    let ghost wi = choose|i: int|
                        0 <= i < entries@.len() && *gval == (#[trigger] entries@[i]).value;
                    proof {
                        assert(json_model_of(*gval) == JsonModel::Array(nodes_models));
                        assert(spec_obj_get(ems, "@graph"@) == Some(
                            JsonModel::Array(nodes_models),
                        ));
                        lemma_json_models_of_index(nodes@);
                        assert(spec_extract_node(node@, gview) == spec_extract_nodes(
                            nodes_models,
                            gmodel,
                        ));
                        assert(nodes_models.take(0) =~= Seq::<JsonModel>::empty());
                        assert(out@ =~= old(out)@ + spec_extract_nodes(
                            nodes_models.take(0),
                            gmodel,
                        ));
                        // the nodes sit below this node in the tree
                        assert(decreases_to!(*node => *entries));
                        assert(decreases_to!(*entries => entries@));
                        assert(decreases_to!(entries@ => entries@[wi]));
                        assert(decreases_to!(entries@[wi] => entries@[wi].value));
                        assert(*gval == JsonValue::Array(*nodes));
                        assert(decreases_to!(*gval => *nodes));
                    }
                    let mut k: usize = 0;
                    while k < nodes.len()
                        invariant
                            0 <= k <= nodes@.len(),
                            nodes_models == json_models_of(nodes@),
                            nodes_models.len() == nodes@.len(),
                            forall|i: int|
                                0 <= i < nodes@.len() ==> #[trigger] nodes_models[i]
                                    == json_model_of(nodes@[i]),
                            (match gname {
                                Some(g) => Some(g@),
                                None => None::<Seq<char>>,
                            }) == gmodel,
                            decreases_to!(*node => *nodes),
                            out@ == old(out)@ + spec_extract_nodes(
                                nodes_models.take(k as int),
                                gmodel,
                            ),
                        decreases nodes@.len() - k,
                    {
                        let garg: Option<&str> = match &gname {
                            Some(g) => Some(g.as_str()),
                            None => None,
                        };
                        proof {
                            assert(decreases_to!(*nodes => nodes@[k as int]));
                        }
                        extract_node(&nodes[k], garg, out);
                        proof {
                            assert(spec_opt_str(garg) == gmodel);
                            lemma_extract_nodes_push(
                                nodes_models.take(k as int),
                                gmodel,
                                nodes_models[k as int],
                            );
                            assert(nodes_models.take(k + 1) =~= nodes_models.take(
                                k as int,
                            ).push(nodes_models[k as int]));
                        }
                        k += 1;
                    }
                    proof {
                        assert(nodes_models.take(nodes@.len() as int) =~= nodes_models);
                    }
                    return ;
                },
                _ => {},
            }
        },
        None => {},
    }
    proof {
        match gv {
            Some(gval2) => {
                assert(spec_obj_get(ems, "@graph"@) == Some(json_model_of(*gval2)));
                lemma_model_array_shape(*gval2);
            },
            None => {},
        }
    }
    // an ordinary node: it needs a string identifier to anchor a subject
    let idv = obj_get(entries, "@id");
    let subject: String = match idv {
        Some(v) => match v {
            JsonValue::Str(s) => expand_iri(s.as_str()),
            _ => {
                proof {
                    assert(spec_extract_node(node@, gview) == Seq::<char>::empty());
                    assert(out@ =~= old(out)@ + spec_extract_node(node@, gview));
                }
                return ;
            },
        },
        None => {
            proof {
                assert(spec_extract_node(node@, gview) == Seq::<char>::empty());
                assert(out@ =~= old(out)@ + spec_extract_node(node@, gview));
            }
            return ;
        },
    };
    proof {
        assert(spec_extract_node(node@, gview) == spec_node_entries(ems, subject@, gview));
        assert(ems.take(0) =~= Seq::<JsonEntryModel>::empty());
        assert(out@ =~= old(out)@ + spec_node_entries(ems.take(0), subject@, gview));
    }
    let mut ei: usize = 0;
    while ei < entries.len()
        invariant
            0 <= ei <= entries@.len(),
            ems == json_entry_models_of(entries@),
            ems.len() == entries@.len(),
            forall|w: int|
                0 <= w < entries@.len() ==> #[trigger] ems[w] == (JsonEntryModel {
                    key: entries@[w].key@,
                    value: json_model_of(entries@[w].value),
                }),
            spec_extract_node(node@, gview) == spec_node_entries(ems, subject@, gview),
            gview == spec_opt_str(graph),
            out@ == old(out)@ + spec_node_entries(ems.take(ei as int), subject@, gview),
        decreases entries@.len() - ei,
    {
        let entry = &entries[ei];
        let ghost ekey = entry.key@;
        let ghost evalue = json_model_of(entry.value);
        if str_eq(entry.key.as_str(), "@id") || str_eq(entry.key.as_str(), "@context") {
            proof {
                assert(spec_entry_lines(ekey, evalue, subject@, gview) == Seq::<char>::empty());
            }
        } else {
            let pred: String = if str_eq(entry.key.as_str(), "@type") {
                String::from_str("<http://www.w3.org/1999/02/22-rdf-syntax-ns#type>")
            } else {
                expand_iri(entry.key.as_str())
            };
            let ghost spred = if ekey == "@type"@ {
                spec_rdf_type_iri()
            } else {
                spec_expand_iri(ekey)
            };
            proof {
                assert(pred@ == spred);
            }
            match &entry.value {
                JsonValue::Array(a) => {
                    let ghost vals = json_models_of(a@);
                    proof {
                        lemma_json_models_of_index(a@);
                        assert(evalue == JsonModel::Array(vals));
                        assert(spec_entry_lines(ekey, evalue, subject@, gview) == spec_vals_lines(
                            ekey,
                            vals,
                            spred,
                            subject@,
                            gview,
                        ));
                        assert(vals.take(0) =~= Seq::<JsonModel>::empty());
                    }
                    let ghost outmid = out@;
                    let mut vi: usize = 0;
                    while vi < a.len()
                        invariant
                            0 <= vi <= a@.len(),
                            vals == json_models_of(a@),
                            vals.len() == a@.len(),
                            forall|w: int|
                                0 <= w < a@.len() ==> #[trigger] vals[w] == json_model_of(a@[w]),
                            ekey == entry.key@,
                            pred@ == spred,
                            gview == spec_opt_str(graph),
                            out@ == outmid + spec_vals_lines(
                                ekey,
                                vals.take(vi as int),
                                spred,
                                subject@,
                                gview,
                            ),
                        decreases a@.len() - vi,
                    {
                        let ghost prevout = out@;
                        match jsonld_value_to_nt_object(entry.key.as_str(), &a[vi]) {
                            Some(o) => {
                                append_statement(
                                    out,
                                    subject.as_str(),
                                    pred.as_str(),
                                    o.as_str(),
                                    graph,
                                );
                                proof {
                                    assert(spec_json_object_term(ekey, vals[vi as int]) == Some(
                                        o@,
                                    ));
                                    assert(out@ =~= prevout + (match spec_json_object_term(
                                        ekey,
                                        vals[vi as int],
                                    ) {
                                        Some(o2) => spec_statement_line(
                                            subject@,
                                            spred,
                                            o2,
                                            gview,
                                        ),
                                        None => Seq::<char>::empty(),
                                    }));
                                }
                            },
                            None => {
                                proof {
                                    assert(spec_json_object_term(ekey, vals[vi as int]) is None);
                                    assert(out@ =~= prevout + (match spec_json_object_term(
                                        ekey,
                                        vals[vi as int],
                                    ) {
                                        Some(o2) => spec_statement_line(
                                            subject@,
                                            spred,
                                            o2,
                                            gview,
                                        ),
                                        None => Seq::<char>::empty(),
                                    }));
                                }
                            },
                        }
                        proof {
                            lemma_vals_lines_push(
                                ekey,
                                vals.take(vi as int),
                                spred,
                                subject@,
                                gview,
                                vals[vi as int],
                            );
                            assert(vals.take(vi + 1) =~= vals.take(vi as int).push(
                                vals[vi as int],
                            ));
                            assert(out@ =~= outmid + spec_vals_lines(
                                ekey,
                                vals.take(vi + 1),
                                spred,
                                subject@,
                                gview,
                            ));
                        }
                        vi += 1;
                    }
                    proof {
                        assert(vals.take(a@.len() as int) =~= vals);
                    }
                },
                _ => {
                    let ghost vals = seq![evalue];
                    proof {
                        lemma_model_array_shape(entry.value);
                        assert(!(evalue matches JsonModel::Array(x)));
                        assert(spec_entry_lines(ekey, evalue, subject@, gview) == spec_vals_lines(
                            ekey,
                            vals,
                            spred,
                            subject@,
                            gview,
                        ));
                    }
                    if let Some(o) = jsonld_value_to_nt_object(entry.key.as_str(), &entry.value) {
                        append_statement(out, subject.as_str(), pred.as_str(), o.as_str(), graph);
                    }
                    proof {
                        assert(vals[0] == evalue);
                        assert(vals.drop_first() =~= Seq::<JsonModel>::empty());
                        assert(spec_vals_lines(ekey, vals, spred, subject@, gview) == (match
                            spec_json_object_term(ekey, evalue) {
                            Some(o) => spec_statement_line(subject@, spred, o, gview),
                            None => Seq::<char>::empty(),
                        }) + spec_vals_lines(
                            ekey,
                            Seq::<JsonModel>::empty(),
                            spred,
                            subject@,
                            gview,
                        ));
                    }
                },
            }
        }
        proof {
            lemma_node_entries_push(ems.take(ei as int), subject@, gview, ems[ei as int]);
            assert(ems.take(ei + 1) =~= ems.take(ei as int).push(ems[ei as int]));
            assert(ems[ei as int].key == ekey && ems[ei as int].value == evalue);
            assert(out@ =~= old(out)@ + spec_node_entries(ems.take(ei + 1), subject@, gview));
        }
        ei += 1;
    }
    proof {
        assert(ems.take(entries@.len() as int) =~= ems);
    }
}

/// What the JSON parser makes of a document: the parsed tree, or nothing
/// when the text is not valid JSON. The result is a function of the text
/// alone.
pub uninterp spec fn spec_json_parse(text: Seq<char>) -> Option<JsonModel>;

/// The flat statement text of a whole document: a root array is a list of
/// nodes, a root object is a single node, anything else produces nothing.
pub open spec fn spec_jsonld_expansion(m: JsonModel) -> Seq<char> {
    match m {
        JsonModel::Array(nodes) => spec_extract_nodes(nodes, None),
        JsonModel::Object(es) => spec_extract_node(m, None),
        _ => Seq::empty(),
    }
}

/// serde_json's parsed tree type, declared so that the conversion below can
/// take it; it stays opaque to verification.
#[verifier::external_type_specification]
#[verifier::external_body]
pub struct ExSerdeValue(serde_json::Value);

/// Relies on serde_json's `Value`: rebuilds the parsed tree as plain values,
/// one variant at a time, moving strings across and rendering numbers as
/// their display text. Object fields keep the parser's ascending key order.
/// This is the conversion half of `parse_json` and is called nowhere else.
#[verifier::external_body]
fn convert_json(v: serde_json::Value) -> JsonValue {
    match v {
        serde_json::Value::Null => JsonValue::Null,
        serde_json::Value::Bool(b) => JsonValue::Bool(b),
        serde_json::Value::Number(n) => JsonValue::Number(n.to_string()),
        serde_json::Value::String(s) => JsonValue::Str(s),
        serde_json::Value::Array(a) => JsonValue::Array(
            a.into_iter().map(convert_json).collect(),
        ),
        serde_json::Value::Object(m) => JsonValue::Object(
            m.into_iter().map(|(k, w)| JsonEntry { key: k, value: convert_json(w) }).collect(),
        ),
    }
}

/// Relies on serde_json::from_str: parses the document text into a generic
/// JSON tree, deterministically from the text alone, failing exactly on
/// malformed JSON; the error carries the parser's message.
#[verifier::external_body]
fn parse_json(raw: &str) -> (r: Result<JsonValue, String>)
    ensures
        r is Ok <==> spec_json_parse(raw@) is Some,
        r matches Ok(v) ==> spec_json_parse(raw@) == Some(json_model_of(v)),
{
    match serde_json::from_str::<serde_json::Value>(raw) {
        Ok(v) => Ok(convert_json(v)),
        Err(e) => Err(e.to_string()),
    }
}

/// Converts a JSON-LD document to flat N-Triples (or N-Quads, for named
/// graphs) text by a structural walk of the parsed tree.
pub fn jsonld_to_ntriples(raw: &str) -> (r: Result<String, SplitterError>)
    ensures
        r is Ok <==> spec_json_parse(raw@) is Some,
        r matches Ok(out) ==> (spec_json_parse(raw@) matches Some(m) && out@
            == spec_jsonld_expansion(m)),
        r matches Err(e) ==> e is Parse,
{
    let v = match parse_json(raw) {
        Ok(v) => v,
        Err(e) => {
            return Err(SplitterError::Parse(e));
        },
    };
    let mut out = String::new();
    match &v {
        JsonValue::Array(arr) => {
            let ghost models = json_models_of(arr@);
            proof {
                lemma_json_models_of_index(arr@);
                assert(v@ == JsonModel::Array(models));
                assert(models.take(0) =~= Seq::<JsonModel>::empty());
            }
            let mut k: usize = 0;
            while k < arr.len()
                invariant
                    models == json_models_of(arr@),
                    models.len() == arr@.len(),
                    forall|i: int|
                        0 <= i < arr@.len() ==> #[trigger] models[i] == json_model_of(arr@[i]),
                    0 <= k <= arr@.len(),
                    out@ == spec_extract_nodes(models.take(k as int), None),
                decreases arr@.len() - k,
            {
                extract_node(&arr[k], None, &mut out);
                proof {
                    lemma_extract_nodes_push(models.take(k as int), None, models[k as int]);
                    assert(models.take(k + 1) =~= models.take(k as int).push(models[k as int]));
                }
                k += 1;
            }
            proof {
                assert(models.take(arr@.len() as int) =~= models);
            }
        },
        JsonValue::Object(es) => {
            extract_node(&v, None, &mut out);
        },
        _ => {},
    }
    Ok(out)
}

} // verus!
