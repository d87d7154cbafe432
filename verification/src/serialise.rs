//! The owned statement model and the per-syntax encoders. Each encoder turns
//! a finite batch of records into the full text of one syntactically valid
//! output file; the text is pinned down character for character by spec
//! functions over the records' views.
use vstd::prelude::*;

verus! {

use vstd::string::StrSliceExecFns;
use vstd::string::StringExecFns;
use crate::format::{lemma_after_last_unique, spec_after_last};
use crate::text::{
    lemma_insert_key_at, lemma_insert_key_props, lemma_lex_asym, lemma_lex_connected,
    lemma_sorted_keys_props, push_char, spec_insert_key, spec_keys_sorted, spec_lex_lt,
    spec_sorted_keys, str_eq, str_lt,
};

/// A triple as three term strings in surface-syntax form: an IRI wrapped in
/// angle brackets, a blank node with the `_:` prefix, or a quoted literal
/// optionally tagged with a language or a datatype.
#[derive(Debug, Clone)]
pub struct OwnedTriple {
    pub subject: String,
    pub predicate: String,
    pub object: String,
}

/// A quad: a triple plus an optional named-graph term.
#[derive(Debug, Clone)]
pub struct OwnedQuad {
    pub triple: OwnedTriple,
    pub graph_name: Option<String>,
}

/// rio_api's borrowed triple, declared so that conversions can take it; it
/// stays opaque to verification.
#[verifier::external_type_specification]
#[verifier::external_body]
pub struct ExRioTriple<'a>(rio_api::model::Triple<'a>);

/// rio_api's borrowed quad, declared as above.
#[verifier::external_type_specification]
#[verifier::external_body]
pub struct ExRioQuad<'a>(rio_api::model::Quad<'a>);

impl OwnedTriple {
    /// Relies on rio_api's Display rendering of RDF terms: copies one parsed
    /// triple out of the parser's borrowed buffers into owned term strings in
    /// surface-syntax form.
    #[verifier::external_body]
    pub fn from_rio(t: &rio_api::model::Triple<'_>) -> OwnedTriple {
        OwnedTriple {
            subject: t.subject.to_string(),
            predicate: t.predicate.to_string(),
            object: t.object.to_string(),
        }
    }
}

impl OwnedQuad {
    /// Relies on rio_api's Display rendering of RDF terms, as
    /// `OwnedTriple::from_rio` does, with the optional graph term alongside.
    #[verifier::external_body]
    pub fn from_rio(q: &rio_api::model::Quad<'_>) -> OwnedQuad {
        OwnedQuad {
            triple: OwnedTriple {
                subject: q.subject.to_string(),
                predicate: q.predicate.to_string(),
                object: q.object.to_string(),
            },
            graph_name: q.graph_name.map(|g| g.to_string()),
        }
    }
}

/// The mathematical value of a triple: its three term strings as character
/// sequences.
pub ghost struct TripleModel {
    pub subject: Seq<char>,
    pub predicate: Seq<char>,
    pub object: Seq<char>,
}

/// The mathematical value of a quad.
pub ghost struct QuadModel {
    pub triple: TripleModel,
    pub graph_name: Option<Seq<char>>,
}

impl View for OwnedTriple {
    type V = TripleModel;

    open spec fn view(&self) -> TripleModel {
        TripleModel {
            subject: self.subject@,
            predicate: self.predicate@,
            object: self.object@,
        }
    }
}

impl DeepView for OwnedTriple {
    type V = TripleModel;

    open spec fn deep_view(&self) -> TripleModel {
        self.view()
    }
}

impl View for OwnedQuad {
    type V = QuadModel;

    open spec fn view(&self) -> QuadModel {
        QuadModel {
            triple: self.triple@,
            graph_name: match self.graph_name {
                Some(g) => Some(g@),
                None => None,
            },
        }
    }
}

impl DeepView for OwnedQuad {
    type V = QuadModel;

    open spec fn deep_view(&self) -> QuadModel {
        self.view()
    }
}

/// Concatenation of `f` over every element of `s`, in order.
pub open spec fn spec_join<A>(s: Seq<A>, f: spec_fn(A) -> Seq<char>) -> Seq<char>
    decreases s.len(),
{
    if s.len() == 0 {
        Seq::empty()
    } else {
        f(s[0]) + spec_join(s.drop_first(), f)
    }
}

/// Extending the joined sequence by one element appends that element's text.
pub proof fn lemma_spec_join_push<A>(s: Seq<A>, f: spec_fn(A) -> Seq<char>, x: A)
    ensures
        spec_join(s.push(x), f) == spec_join(s, f) + f(x),
    decreases s.len(),
{
    let p = s.push(x);
    if s.len() == 0 {
        assert(p[0] == x);
        assert(p.drop_first() =~= Seq::<A>::empty());
        assert(spec_join(p, f) == f(x) + spec_join(Seq::<A>::empty(), f));
        assert(f(x) + Seq::<char>::empty() =~= f(x));
        assert(Seq::<char>::empty() + f(x) =~= f(x));
    } else {
        assert(p[0] == s[0]);
        assert(p.drop_first() =~= s.drop_first().push(x));
        lemma_spec_join_push(s.drop_first(), f, x);
        assert(spec_join(p, f) == f(s[0]) + (spec_join(s.drop_first(), f) + f(x)));
        assert(f(s[0]) + (spec_join(s.drop_first(), f) + f(x)) =~= (f(s[0]) + spec_join(
            s.drop_first(),
            f,
        )) + f(x));
    }
}

/// One N-Triples statement line: the three terms separated by single spaces,
/// closed by a period and a newline.
pub open spec fn spec_ntriples_line(t: TripleModel) -> Seq<char> {
    t.subject + " "@ + t.predicate + " "@ + t.object + " .\n"@
}

/// `spec_ntriples_line` as a first-class function.
pub open spec fn ntriples_line_fn() -> spec_fn(TripleModel) -> Seq<char> {
    |t: TripleModel| spec_ntriples_line(t)
}

/// The full text of one N-Triples chunk: one line per triple, in order.
pub open spec fn spec_ntriples_text(ts: Seq<TripleModel>) -> Seq<char> {
    spec_join(ts, ntriples_line_fn())
}

/// One N-Quads statement line: the graph term stands before the period when
/// present.
pub open spec fn spec_nquads_line(q: QuadModel) -> Seq<char> {
    match q.graph_name {
        Some(g) => q.triple.subject + " "@ + q.triple.predicate + " "@ + q.triple.object + " "@ + g
            + " .\n"@,
        None => spec_ntriples_line(q.triple),
    }
}

/// `spec_nquads_line` as a first-class function.
pub open spec fn nquads_line_fn() -> spec_fn(QuadModel) -> Seq<char> {
    |q: QuadModel| spec_nquads_line(q)
}

/// The full text of one N-Quads chunk.
pub open spec fn spec_nquads_text(qs: Seq<QuadModel>) -> Seq<char> {
    spec_join(qs, nquads_line_fn())
}

/// Encodes a batch of triples as N-Triples.
pub fn write_ntriples(triples: &Vec<OwnedTriple>) -> (r: String)
    ensures
        r@ == spec_ntriples_text(triples.deep_view()),
{
    let mut out = String::new();
    let mut i: usize = 0;
    proof {
        assert(triples.deep_view().take(0) =~= Seq::<TripleModel>::empty());
    }
    while i < triples.len()
        invariant
            0 <= i <= triples@.len(),
            triples.deep_view().len() == triples@.len(),
            out@ == spec_ntriples_text(triples.deep_view().take(i as int)),
        decreases triples@.len() - i,
    {
        let t = &triples[i];
        out.append(t.subject.as_str());
        out.append(" ");
        out.append(t.predicate.as_str());
        out.append(" ");
        out.append(t.object.as_str());
        out.append(" .\n");
        proof {
            let models = triples.deep_view();
            assert(models[i as int] == triples@[i as int]@);
            lemma_spec_join_push(models.take(i as int), ntriples_line_fn(), models[i as int]);
            assert(models.take(i + 1) =~= models.take(i as int).push(models[i as int]));
            assert(out@ =~= spec_ntriples_text(models.take(i as int)) + spec_ntriples_line(
                models[i as int],
            ));
        }
        i += 1;
    }
    proof {
        assert(triples.deep_view().take(triples@.len() as int) =~= triples.deep_view());
    }
    out
}

/// Encodes a batch of quads as N-Quads.
pub fn write_nquads(quads: &Vec<OwnedQuad>) -> (r: String)
    ensures
        r@ == spec_nquads_text(quads.deep_view()),
{
    let mut out = String::new();
    let mut i: usize = 0;
    proof {
        assert(quads.deep_view().take(0) =~= Seq::<QuadModel>::empty());
    }
    while i < quads.len()
        invariant
            0 <= i <= quads@.len(),
            quads.deep_view().len() == quads@.len(),
            out@ == spec_nquads_text(quads.deep_view().take(i as int)),
        decreases quads@.len() - i,
    {
        let q = &quads[i];
        out.append(q.triple.subject.as_str());
        out.append(" ");
        out.append(q.triple.predicate.as_str());
        out.append(" ");
        out.append(q.triple.object.as_str());
        match &q.graph_name {
            Some(g) => {
                out.append(" ");
                out.append(g.as_str());
            },
            None => {},
        }
        out.append(" .\n");
        proof {
            let models = quads.deep_view();
            assert(models[i as int] == quads@[i as int]@);
            lemma_spec_join_push(models.take(i as int), nquads_line_fn(), models[i as int]);
            assert(models.take(i + 1) =~= models.take(i as int).push(models[i as int]));
            assert(out@ =~= spec_nquads_text(models.take(i as int)) + spec_nquads_line(
                models[i as int],
            ));
        }
        i += 1;
    }
    proof {
        assert(quads.deep_view().take(quads@.len() as int) =~= quads.deep_view());
    }
    out
}

/// Encodes a batch of triples for a Turtle chunk. N-Triples is a syntactic
/// subset of Turtle, so the plain line grammar keeps the chunk parseable by
/// any Turtle reader without prefix round-tripping.
pub fn write_turtle(triples: &Vec<OwnedTriple>) -> (r: String)
    ensures
        r@ == spec_ntriples_text(triples.deep_view()),
{
    write_ntriples(triples)
}

/// Encodes a batch of quads for a TriG chunk (N-Quads is valid TriG).
pub fn write_trig(quads: &Vec<OwnedQuad>) -> (r: String)
    ensures
        r@ == spec_nquads_text(quads.deep_view()),
{
    write_nquads(quads)
}

/// Whether a term string has the lexical shape of an IRI: wrapped in angle
/// brackets.
pub open spec fn spec_is_angled(s: Seq<char>) -> bool {
    s.len() >= 1 && s[0] == '<' && s.last() == '>'
}

/// The content between a term's angle brackets.
pub open spec fn spec_angle_inner(s: Seq<char>) -> Seq<char>
    recommends
        spec_is_angled(s),
{
    s.subrange(1, s.len() - 1)
}

/// A term with its angle brackets stripped when it has them, unchanged
/// otherwise.
pub open spec fn spec_strip_angles(s: Seq<char>) -> Seq<char> {
    if spec_is_angled(s) {
        spec_angle_inner(s)
    } else {
        s
    }
}

/// The start of the last two-character window `a b` in `s`, if any.
pub open spec fn spec_rfind2(s: Seq<char>, a: char, b: char) -> Option<int>
    decreases s.len(),
{
    if s.len() < 2 {
        None
    } else if s[s.len() - 2] == a && s[s.len() - 1] == b {
        Some(s.len() - 2)
    } else {
        spec_rfind2(s.drop_last(), a, b)
    }
}

proof fn lemma_rfind2_none(s: Seq<char>, a: char, b: char)
    requires
        forall|i: int| 0 <= i && i + 1 < s.len() ==> !(#[trigger] s[i] == a && s[i + 1] == b),
    ensures
        spec_rfind2(s, a, b) is None,
    decreases s.len(),
{
    if s.len() >= 2 {
        lemma_rfind2_none(s.drop_last(), a, b);
    }
}

proof fn lemma_rfind2_some(s: Seq<char>, a: char, b: char, k: int)
    requires
        0 <= k,
        k + 1 < s.len(),
        s[k] == a,
        s[k + 1] == b,
        forall|i: int| k < i && i + 1 < s.len() ==> !(#[trigger] s[i] == a && s[i + 1] == b),
    ensures
        spec_rfind2(s, a, b) == Some(k),
    decreases s.len(),
{
    if k + 2 < s.len() {
        lemma_rfind2_some(s.drop_last(), a, b, k);
    }
}

/// The start of the first four-character window `a b c d` in `s`, if any.
pub open spec fn spec_find4(s: Seq<char>, a: char, b: char, c: char, d: char) -> Option<int>
    decreases s.len(),
{
    if s.len() < 4 {
        None
    } else if s[0] == a && s[1] == b && s[2] == c && s[3] == d {
        Some(0)
    } else {
        match spec_find4(s.drop_first(), a, b, c, d) {
            Some(i) => Some(i + 1),
            None => None,
        }
    }
}

proof fn lemma_find4_none(s: Seq<char>, a: char, b: char, c: char, d: char)
    requires
        forall|i: int|
            0 <= i && i + 3 < s.len() ==> !(#[trigger] s[i] == a && s[i + 1] == b && s[i + 2] == c
                && s[i + 3] == d),
    ensures
        spec_find4(s, a, b, c, d) is None,
    decreases s.len(),
{
    if s.len() >= 4 {
        lemma_find4_none(s.drop_first(), a, b, c, d);
    }
}

proof fn lemma_find4_some(s: Seq<char>, a: char, b: char, c: char, d: char, k: int)
    requires
        0 <= k,
        k + 3 < s.len(),
        s[k] == a && s[k + 1] == b && s[k + 2] == c && s[k + 3] == d,
        forall|i: int|
            0 <= i < k ==> !(#[trigger] s[i] == a && s[i + 1] == b && s[i + 2] == c && s[i + 3]
                == d),
    ensures
        spec_find4(s, a, b, c, d) == Some(k),
    decreases s.len(),
{
    if k > 0 {
        lemma_find4_some(s.drop_first(), a, b, c, d, k - 1);
    }
}

/// The index of the first occurrence of `c` in `s`, if any.
pub open spec fn spec_find_char(s: Seq<char>, c: char) -> Option<int>
    decreases s.len(),
{
    if s.len() == 0 {
        None
    } else if s[0] == c {
        Some(0)
    } else {
        match spec_find_char(s.drop_first(), c) {
            Some(i) => Some(i + 1),
            None => None,
        }
    }
}

pub proof fn lemma_find_char_none(s: Seq<char>, c: char)
    requires
        forall|i: int| 0 <= i < s.len() ==> s[i] != c,
    ensures
        spec_find_char(s, c) is None,
    decreases s.len(),
{
    if s.len() > 0 {
        lemma_find_char_none(s.drop_first(), c);
    }
}

pub proof fn lemma_find_char_some(s: Seq<char>, c: char, k: int)
    requires
        0 <= k < s.len(),
        s[k] == c,
        forall|i: int| 0 <= i < k ==> s[i] != c,
    ensures
        spec_find_char(s, c) == Some(k),
    decreases s.len(),
{
    if k > 0 {
        lemma_find_char_some(s.drop_first(), c, k - 1);
    }
}

/// `s` with its longest prefix of double quotes removed.
pub open spec fn spec_trim_quotes(s: Seq<char>) -> Seq<char>
    decreases s.len(),
{
    if s.len() > 0 && s[0] == '"' {
        spec_trim_quotes(s.drop_first())
    } else {
        s
    }
}

proof fn lemma_trim_quotes(s: Seq<char>, q: int)
    requires
        0 <= q <= s.len(),
        forall|i: int| 0 <= i < q ==> s[i] == '"',
        q == s.len() || s[q] != '"',
    ensures
        spec_trim_quotes(s) =~= s.skip(q),
    decreases q,
{
    if q > 0 {
        lemma_trim_quotes(s.drop_first(), q - 1);
        assert(s.drop_first().skip(q - 1) =~= s.skip(q));
    } else {
        if s.len() > 0 {
            assert(s[0] != '"');
        }
        assert(s.skip(0) =~= s);
    }
}

/// What a language-tagged literal `"lit"@lang` decomposes into: the language
/// is everything after the last `"@`, the body is what stands between the
/// leading quotes and the last quote of the remainder.
pub open spec fn spec_try_lang_literal(s: Seq<char>) -> Option<(Seq<char>, Seq<char>)> {
    match spec_rfind2(s, '"', '@') {
        None => None,
        Some(k) => {
            let lang = s.subrange(k + 2, s.len() as int);
            let t = spec_trim_quotes(s);
            let al = spec_after_last(t, '"');
            let lit = if al == 0 {
                t
            } else {
                t.subrange(0, al - 1)
            };
            Some((lit, lang))
        },
    }
}

/// What a datatype-tagged literal `"lit"^^<dt>` decomposes into: the datatype
/// is what stands between the `"^^<` marker and the final character, the body
/// is what stands between the leading quotes and the first quote of the
/// remainder.
pub open spec fn spec_try_typed_literal(s: Seq<char>) -> Option<(Seq<char>, Seq<char>)> {
    match spec_find4(s, '"', '^', '^', '<') {
        None => None,
        Some(k) => {
            let t = spec_trim_quotes(s);
            let lit = match spec_find_char(t, '"') {
                Some(p) => t.subrange(0, p),
                None => t,
            };
            let hi = if s.len() - 1 >= k + 4 {
                s.len() - 1
            } else {
                k + 4
            };
            let dt = s.subrange(k + 4, hi);
            Some((lit, dt))
        },
    }
}

/// The body of a plain literal: what stands between the leading quotes and
/// the last quote of the remainder.
pub open spec fn spec_plain_literal(s: Seq<char>) -> Seq<char> {
    let t = spec_trim_quotes(s);
    let al = spec_after_last(t, '"');
    if al == 0 {
        t
    } else {
        t.subrange(0, al - 1)
    }
}

/// Strips a term's angle brackets if it has them; `None` otherwise.
pub fn try_strip_angles(s: &str) -> (r: Option<&str>)
    ensures
        spec_is_angled(s@) ==> (r matches Some(t) && t@ == spec_angle_inner(s@)),
        !spec_is_angled(s@) ==> r is None,
{
    let n = s.unicode_len();
    if n >= 1 && s.get_char(0) == '<' && s.get_char(n - 1) == '>' {
        proof {
            if n < 2 {
                assert(s@[0] == '<' && s@[0] == '>');
            }
        }
        Some(s.substring_char(1, n - 1))
    } else {
        None
    }
}

/// A term with its angle brackets stripped when it has them, unchanged
/// otherwise.
pub fn strip_angles(s: &str) -> (r: &str)
    ensures
        r@ == spec_strip_angles(s@),
{
    match try_strip_angles(s) {
        Some(t) => t,
        None => s,
    }
}

/// The index of the first character of the trimmed remainder of `s` after its
/// leading quotes, with the trimmed remainder itself.
fn trim_leading_quotes(s: &str) -> (q: usize)
    ensures
        q <= s@.len(),
        forall|i: int| 0 <= i < q ==> s@[i] == '"',
        q == s@.len() || s@[q as int] != '"',
        spec_trim_quotes(s@) =~= s@.skip(q as int),
{
    let n = s.unicode_len();
    let mut q: usize = 0;
    while q < n && s.get_char(q) == '"'
        invariant
            n == s@.len(),
            0 <= q <= n,
            forall|i: int| 0 <= i < q ==> s@[i] == '"',
        decreases n - q,
    {
        q += 1;
    }
    proof {
        lemma_trim_quotes(s@, q as int);
    }
    q
}

/// The position one past the last `'"'` in `s` at or after `from`, or `from`
/// when there is none, as an absolute index.
fn rscan_quote(s: &str, from: usize) -> (p: usize)
    requires
        from <= s@.len(),
    ensures
        from <= p <= s@.len(),
        spec_after_last(s@.skip(from as int), '"') == p - from,
{
    let n = s.unicode_len();
    let mut p: usize = n;
    while p > from && s.get_char(p - 1) != '"'
        invariant
            n == s@.len(),
            from <= p <= n,
            forall|i: int| p <= i < n ==> s@[i] != '"',
        decreases p,
    {
        p -= 1;
    }
    proof {
        let t = s@.skip(from as int);
        assert forall|i: int| p - from <= i < t.len() implies t[i] != '"' by {
            assert(t[i] == s@[from + i]);
        }
        if p > from {
            assert(t[p - from - 1] == s@[p - 1]);
        }
        lemma_after_last_unique(t, '"', p - from);
    }
    p
}

/// Decomposes a language-tagged literal; `None` when `s` holds no `"@`
/// marker.
pub fn try_lang_literal(s: &str) -> (r: Option<(&str, &str)>)
    ensures
        r is Some <==> spec_try_lang_literal(s@) is Some,
        r matches Some(p) ==> Some((p.0@, p.1@)) == spec_try_lang_literal(s@),
{
    let n = s.unicode_len();
    let mut j: usize = n;
    while j >= 2
        invariant
            n == s@.len(),
            0 <= j <= n,
            forall|i: int| j - 1 <= i && i + 1 < n ==> !(#[trigger] s@[i] == '"' && s@[i + 1] == '@'),
        decreases j,
    {
        if s.get_char(j - 2) == '"' && s.get_char(j - 1) == '@' {
            proof {
                lemma_rfind2_some(s@, '"', '@', j - 2);
            }
            let k = j - 2;
            let lang = s.substring_char(k + 2, n);
            let q = trim_leading_quotes(s);
            let p = rscan_quote(s, q);
            let lit = if p == q {
                s.substring_char(q, n)
            } else {
                s.substring_char(q, p - 1)
            };
            proof {
                let t = s@.skip(q as int);
                if p == q {
                    assert(lit@ =~= t);
                } else {
                    assert(lit@ =~= t.subrange(0, p - q - 1));
                }
            }
            return Some((lit, lang));
        }
        j -= 1;
    }
    proof {
        lemma_rfind2_none(s@, '"', '@');
    }
    None
}

/// Decomposes a datatype-tagged literal; `None` when `s` holds no `"^^<`
/// marker.
pub fn try_typed_literal(s: &str) -> (r: Option<(&str, &str)>)
    ensures
        r is Some <==> spec_try_typed_literal(s@) is Some,
        r matches Some(p) ==> Some((p.0@, p.1@)) == spec_try_typed_literal(s@),
{
    let n = s.unicode_len();
    let mut j: usize = 0;
    while n >= 4 && j <= n - 4
        invariant
            n == s@.len(),
            0 <= j <= n,
            forall|i: int|
                0 <= i < j ==> !(#[trigger] s@[i] == '"' && s@[i + 1] == '^' && s@[i + 2] == '^'
                    && s@[i + 3] == '<'),
        decreases n - j,
    {
        if s.get_char(j) == '"' && s.get_char(j + 1) == '^' && s.get_char(j + 2) == '^'
            && s.get_char(j + 3) == '<' {
            proof {
                lemma_find4_some(s@, '"', '^', '^', '<', j as int);
            }
            let q = trim_leading_quotes(s);
            // first quote of the trimmed remainder
            let mut p: usize = q;
            while p < n && s.get_char(p) != '"'
                invariant
                    n == s@.len(),
                    q <= p <= n,
                    forall|i: int| q <= i < p ==> s@[i] != '"',
                decreases n - p,
            {
                p += 1;
            }
            let ghost t = s@.skip(q as int);
            proof {
                assert forall|i: int| 0 <= i < p - q implies t[i] != '"' by {
                    assert(t[i] == s@[q + i]);
                }
                if p < n {
                    assert(t[p - q] == s@[p as int]);
                    lemma_find_char_some(t, '"', p - q);
                } else {
                    lemma_find_char_none(t, '"');
                }
            }
            let lit = s.substring_char(q, p);
            proof {
                if p < n {
                    assert(lit@ =~= t.subrange(0, p - q));
                } else {
                    assert(lit@ =~= t);
                }
            }
            let hi = if n - 1 >= j + 4 {
                n - 1
            } else {
                j + 4
            };
            let dt = s.substring_char(j + 4, hi);
            return Some((lit, dt));
        }
        j += 1;
    }
    proof {
        lemma_find4_none(s@, '"', '^', '^', '<');
    }
    None
}

/// The body of a plain literal: leading quotes and the trailing quote
/// removed.
pub fn plain_literal(s: &str) -> (r: &str)
    ensures
        r@ == spec_plain_literal(s@),
{
    let n = s.unicode_len();
    let q = trim_leading_quotes(s);
    let p = rscan_quote(s, q);
    let lit = if p == q {
        s.substring_char(q, n)
    } else {
        s.substring_char(q, p - 1)
    };
    proof {
        let t = s@.skip(q as int);
        if p == q {
            assert(lit@ =~= t);
        } else {
            assert(lit@ =~= t.subrange(0, p - q - 1));
        }
    }
    lit
}

/// How one character is XML-escaped: the four XML-special characters become
/// entities, everything else is kept.
pub open spec fn spec_xml_escape_char(c: char) -> Seq<char> {
    if c == '&' {
        "&amp;"@
    } else if c == '<' {
        "&lt;"@
    } else if c == '>' {
        "&gt;"@
    } else if c == '"' {
        "&quot;"@
    } else {
        seq![c]
    }
}

/// `spec_xml_escape_char` as a first-class function.
pub open spec fn xml_escape_char_fn() -> spec_fn(char) -> Seq<char> {
    |c: char| spec_xml_escape_char(c)
}

/// XML entity escaping of a whole string.
pub open spec fn spec_xml_escape(s: Seq<char>) -> Seq<char> {
    spec_join(s, xml_escape_char_fn())
}

/// How one character is escaped inside a double-quoted string: backslash,
/// quote, newline, carriage return and tab get a backslash escape, everything
/// else is kept.
pub open spec fn spec_backslash_escape_char(c: char) -> Seq<char> {
    if c == '\\' {
        "\\\\"@
    } else if c == '"' {
        "\\\""@
    } else if c == '\n' {
        "\\n"@
    } else if c == '\r' {
        "\\r"@
    } else if c == '\t' {
        "\\t"@
    } else {
        seq![c]
    }
}

/// `spec_backslash_escape_char` as a first-class function.
pub open spec fn backslash_escape_char_fn() -> spec_fn(char) -> Seq<char> {
    |c: char| spec_backslash_escape_char(c)
}

/// Backslash escaping of a whole string, as JSON strings and N-Triples
/// literals need it.
pub open spec fn spec_backslash_escape(s: Seq<char>) -> Seq<char> {
    spec_join(s, backslash_escape_char_fn())
}

/// Escapes the XML-special characters of `s`.
pub fn xml_escape(s: &str) -> (r: String)
    ensures
        r@ == spec_xml_escape(s@),
{
    let n = s.unicode_len();
    let mut out = String::new();
    proof {
        assert(s@.take(0) =~= Seq::<char>::empty());
    }
    let mut i: usize = 0;
    while i < n
        invariant
            n == s@.len(),
            0 <= i <= n,
            out@ == spec_xml_escape(s@.take(i as int)),
        decreases n - i,
    {
        let c = s.get_char(i);
        if c == '&' {
            out.append("&amp;");
        } else if c == '<' {
            out.append("&lt;");
        } else if c == '>' {
            out.append("&gt;");
        } else if c == '"' {
            out.append("&quot;");
        } else {
            push_char(&mut out, c);
        }
        proof {
            lemma_spec_join_push(s@.take(i as int), xml_escape_char_fn(), s@[i as int]);
            assert(s@.take(i + 1) =~= s@.take(i as int).push(s@[i as int]));
            assert(out@ =~= spec_xml_escape(s@.take(i as int)) + spec_xml_escape_char(
                s@[i as int],
            ));
        }
        i += 1;
    }
    proof {
        assert(s@.take(n as int) =~= s@);
    }
    out
}

/// Escapes `s` for use inside a double-quoted JSON string.
pub fn json_escape(s: &str) -> (r: String)
    ensures
        r@ == spec_backslash_escape(s@),
{
    let n = s.unicode_len();
    let mut out = String::new();
    proof {
        assert(s@.take(0) =~= Seq::<char>::empty());
    }
    let mut i: usize = 0;
    while i < n
        invariant
            n == s@.len(),
            0 <= i <= n,
            out@ == spec_backslash_escape(s@.take(i as int)),
        decreases n - i,
    {
        let c = s.get_char(i);
        if c == '\\' {
            out.append("\\\\");
        } else if c == '"' {
            out.append("\\\"");
        } else if c == '\n' {
            out.append("\\n");
        } else if c == '\r' {
            out.append("\\r");
        } else if c == '\t' {
            out.append("\\t");
        } else {
            push_char(&mut out, c);
        }
        proof {
            lemma_spec_join_push(s@.take(i as int), backslash_escape_char_fn(), s@[i as int]);
            assert(s@.take(i + 1) =~= s@.take(i as int).push(s@[i as int]));
            assert(out@ =~= spec_backslash_escape(s@.take(i as int)) + spec_backslash_escape_char(
                s@[i as int],
            ));
        }
        i += 1;
    }
    proof {
        assert(s@.take(n as int) =~= s@);
    }
    out
}

/// The JSON value that one object term becomes: a reference object for an
/// IRI, a value object with a language, a type or nothing for the literal
/// shapes.
pub open spec fn spec_object_jsonld_value(o: Seq<char>) -> Seq<char> {
    if spec_is_angled(o) {
        "{\"@id\": \""@ + spec_backslash_escape(spec_angle_inner(o)) + "\"}"@
    } else if spec_try_lang_literal(o) is Some {
        let p = spec_try_lang_literal(o).unwrap();
        "{\"@value\": \""@ + spec_backslash_escape(p.0) + "\", \"@language\": \""@ + p.1 + "\"}"@
    } else if spec_try_typed_literal(o) is Some {
        let p = spec_try_typed_literal(o).unwrap();
        "{\"@value\": \""@ + spec_backslash_escape(p.0) + "\", \"@type\": \""@
            + spec_backslash_escape(p.1) + "\"}"@
    } else {
        "{\"@value\": \""@ + spec_backslash_escape(spec_plain_literal(o)) + "\"}"@
    }
}

/// Renders one object term as its JSON value.
pub fn object_to_jsonld_value(obj: &str) -> (r: String)
    ensures
        r@ == spec_object_jsonld_value(obj@),
{
    if let Some(iri) = try_strip_angles(obj) {
        let mut out = String::from_str("{\"@id\": \"");
        let esc = json_escape(iri);
        out.append(esc.as_str());
        out.append("\"}");
        proof {
            assert(out@ =~= spec_object_jsonld_value(obj@));
        }
        out
    } else if let Some((lit, lang)) = try_lang_literal(obj) {
        let mut out = String::from_str("{\"@value\": \"");
        let esc = json_escape(lit);
        out.append(esc.as_str());
        out.append("\", \"@language\": \"");
        out.append(lang);
        out.append("\"}");
        proof {
            assert(out@ =~= spec_object_jsonld_value(obj@));
        }
        out
    } else if let Some((lit, dt)) = try_typed_literal(obj) {
        let mut out = String::from_str("{\"@value\": \"");
        let esc = json_escape(lit);
        out.append(esc.as_str());
        out.append("\", \"@type\": \"");
        let escdt = json_escape(dt);
        out.append(escdt.as_str());
        out.append("\"}");
        proof {
            assert(out@ =~= spec_object_jsonld_value(obj@));
        }
        out
    } else {
        let mut out = String::from_str("{\"@value\": \"");
        let lit = plain_literal(obj);
        let esc = json_escape(lit);
        out.append(esc.as_str());
        out.append("\"}");
        proof {
            assert(out@ =~= spec_object_jsonld_value(obj@));
        }
        out
    }
}

/// The property element of one triple's RDF/XML block, chosen by the object's
/// lexical shape: a resource reference for an IRI, a language attribute, a
/// datatype attribute or plain escaped content for the literal shapes.
pub open spec fn spec_rdfxml_object_part(t: TripleModel) -> Seq<char> {
    let pred = spec_strip_angles(t.predicate);
    if spec_is_angled(t.object) {
        "    <"@ + pred + " rdf:resource=\""@ + spec_xml_escape(spec_angle_inner(t.object))
            + "\"/>\n"@
    } else if spec_try_lang_literal(t.object) is Some {
        let p = spec_try_lang_literal(t.object).unwrap();
        "    <"@ + pred + " xml:lang=\""@ + p.1 + "\">"@ + spec_xml_escape(p.0) + "</"@ + pred
            + ">\n"@
    } else if spec_try_typed_literal(t.object) is Some {
        let p = spec_try_typed_literal(t.object).unwrap();
        "    <"@ + pred + " rdf:datatype=\""@ + spec_xml_escape(p.1) + "\">"@ + spec_xml_escape(
            p.0,
        ) + "</"@ + pred + ">\n"@
    } else {
        "    <"@ + pred + ">"@ + spec_xml_escape(spec_plain_literal(t.object)) + "</"@ + pred
            + ">\n"@
    }
}

/// One triple's RDF/XML block: a description element keyed by the subject,
/// holding the property element.
pub open spec fn spec_rdfxml_block(t: TripleModel) -> Seq<char> {
    "  <rdf:Description rdf:about=\""@ + spec_xml_escape(spec_strip_angles(t.subject)) + "\">\n"@
        + spec_rdfxml_object_part(t) + "  </rdf:Description>\n"@
}

/// `spec_rdfxml_block` as a first-class function.
pub open spec fn rdfxml_block_fn() -> spec_fn(TripleModel) -> Seq<char> {
    |t: TripleModel| spec_rdfxml_block(t)
}

/// The full text of one RDF/XML chunk: the XML declaration, the root element,
/// one block per triple and the closing tag.
pub open spec fn spec_rdfxml_text(ts: Seq<TripleModel>) -> Seq<char> {
    "<?xml version=\"1.0\" encoding=\"utf-8\"?>\n"@
        + "<rdf:RDF xmlns:rdf=\"http://www.w3.org/1999/02/22-rdf-syntax-ns#\">\n"@ + spec_join(
        ts,
        rdfxml_block_fn(),
    ) + "</rdf:RDF>\n"@
}

/// Renders one triple's RDF/XML description block.
#[verifier::rlimit(80)]
fn rdfxml_block(t: &OwnedTriple) -> (r: String)
    ensures
        r@ == spec_rdfxml_block(t@),
{
    let subj = strip_angles(t.subject.as_str());
    let pred = strip_angles(t.predicate.as_str());
    let mut out = String::from_str("  <rdf:Description rdf:about=\"");
    let esubj = xml_escape(subj);
    out.append(esubj.as_str());
    out.append("\">\n");
    if let Some(obj_iri) = try_strip_angles(t.object.as_str()) {
        out.append("    <");
        out.append(pred);
        out.append(" rdf:resource=\"");
        let eobj = xml_escape(obj_iri);
        out.append(eobj.as_str());
        out.append("\"/>\n");
    } else if let Some((lit, lang)) = try_lang_literal(t.object.as_str()) {
        out.append("    <");
        out.append(pred);
        out.append(" xml:lang=\"");
        out.append(lang);
        out.append("\">");
        let elit = xml_escape(lit);
        out.append(elit.as_str());
        out.append("</");
        out.append(pred);
        out.append(">\n");
    } else if let Some((lit, dt)) = try_typed_literal(t.object.as_str()) {
        out.append("    <");
        out.append(pred);
        out.append(" rdf:datatype=\"");
        let edt = xml_escape(dt);
        out.append(edt.as_str());
        out.append("\">");
        let elit = xml_escape(lit);
        out.append(elit.as_str());
        out.append("</");
        out.append(pred);
        out.append(">\n");
    } else {
        out.append("    <");
        out.append(pred);
        out.append(">");
        let lit = plain_literal(t.object.as_str());
        let elit = xml_escape(lit);
        out.append(elit.as_str());
        out.append("</");
        out.append(pred);
        out.append(">\n");
    }
    out.append("  </rdf:Description>\n");
    proof {
        assert(out@ =~= spec_rdfxml_block(t@));
    }
    out
}

/// Encodes a batch of triples as RDF/XML, one description element per
/// statement.
pub fn write_rdfxml(triples: &Vec<OwnedTriple>) -> (r: String)
    ensures
        r@ == spec_rdfxml_text(triples.deep_view()),
{
    let ghost header = "<?xml version=\"1.0\" encoding=\"utf-8\"?>\n"@
        + "<rdf:RDF xmlns:rdf=\"http://www.w3.org/1999/02/22-rdf-syntax-ns#\">\n"@;
    let mut out = String::from_str("<?xml version=\"1.0\" encoding=\"utf-8\"?>\n");
    out.append("<rdf:RDF xmlns:rdf=\"http://www.w3.org/1999/02/22-rdf-syntax-ns#\">\n");
    proof {
        assert(triples.deep_view().take(0) =~= Seq::<TripleModel>::empty());
        assert(out@ =~= header + spec_join(triples.deep_view().take(0), rdfxml_block_fn()));
    }
    let mut i: usize = 0;
    while i < triples.len()
        invariant
            0 <= i <= triples@.len(),
            triples.deep_view().len() == triples@.len(),
            out@ == header + spec_join(triples.deep_view().take(i as int), rdfxml_block_fn()),
            header == "<?xml version=\"1.0\" encoding=\"utf-8\"?>\n"@
                + "<rdf:RDF xmlns:rdf=\"http://www.w3.org/1999/02/22-rdf-syntax-ns#\">\n"@,
        decreases triples@.len() - i,
    {
        let block = rdfxml_block(&triples[i]);
        out.append(block.as_str());
        proof {
            let models = triples.deep_view();
            assert(models[i as int] == triples@[i as int]@);
            lemma_spec_join_push(models.take(i as int), rdfxml_block_fn(), models[i as int]);
            assert(models.take(i + 1) =~= models.take(i as int).push(models[i as int]));
            assert(out@ =~= header + spec_join(models.take(i + 1), rdfxml_block_fn()));
        }
        i += 1;
    }
    out.append("</rdf:RDF>\n");
    proof {
        assert(triples.deep_view().take(triples@.len() as int) =~= triples.deep_view());
        assert(out@ =~= spec_rdfxml_text(triples.deep_view()));
    }
    out
}

/// The subject of a triple, as a first-class function.
pub open spec fn subject_of_fn() -> spec_fn(TripleModel) -> Seq<char> {
    |t: TripleModel| t.subject
}

/// The predicate of a triple, as a first-class function.
pub open spec fn predicate_of_fn() -> spec_fn(TripleModel) -> Seq<char> {
    |t: TripleModel| t.predicate
}

/// The triples whose subject is `s`.
pub open spec fn by_subject(s: Seq<char>) -> spec_fn(TripleModel) -> bool {
    |t: TripleModel| t.subject == s
}

/// The triples whose predicate is `p`.
pub open spec fn by_predicate(p: Seq<char>) -> spec_fn(TripleModel) -> bool {
    |t: TripleModel| t.predicate == p
}

/// The JSON value of a triple's object, as a first-class function.
pub open spec fn object_value_fn() -> spec_fn(TripleModel) -> Seq<char> {
    |t: TripleModel| spec_object_jsonld_value(t.object)
}

/// A line base followed by a separating comma and its newline.
pub open spec fn comma_line_fn() -> spec_fn(Seq<char>) -> Seq<char> {
    |b: Seq<char>| b + ",\n"@
}

/// One element line of a multi-valued JSON array.
pub open spec fn value_line_fn() -> spec_fn(Seq<char>) -> Seq<char> {
    |v: Seq<char>| "      "@ + v
}

/// Lines from bases: every base but the last is followed by a comma, each
/// ends with a newline.
pub open spec fn spec_lines_with_commas(bases: Seq<Seq<char>>) -> Seq<char> {
    if bases.len() == 0 {
        Seq::empty()
    } else {
        spec_join(bases.drop_last(), comma_line_fn()) + bases.last() + "\n"@
    }
}

/// One predicate entry of a node object: the escaped predicate IRI and its
/// value array, on one line for a single value and spread over lines
/// otherwise.
pub open spec fn spec_pred_base(vals: Seq<Seq<char>>, p: Seq<char>) -> Seq<char> {
    let head = "    \""@ + spec_backslash_escape(spec_strip_angles(p)) + "\": ["@;
    if vals.len() == 1 {
        head + vals[0] + "]"@
    } else {
        head + "\n"@ + spec_lines_with_commas(vals.map_values(value_line_fn())) + "    ]"@
    }
}

/// One node object of the JSON-LD document: the subject's identifier and one
/// entry per distinct predicate, predicates in ascending order, values in
/// input order.
pub open spec fn spec_subject_base(sts: Seq<TripleModel>, s: Seq<char>) -> Seq<char> {
    let preds = spec_sorted_keys(sts.map_values(predicate_of_fn()));
    "  {\n"@ + "    \"@id\": \""@ + spec_backslash_escape(spec_strip_angles(s)) + "\",\n"@
        + spec_lines_with_commas(
        Seq::new(
            preds.len() as nat,
            |pi: int|
                spec_pred_base(
                    sts.filter(by_predicate(preds[pi])).map_values(object_value_fn()),
                    preds[pi],
                ),
        ),
    ) + "  }"@
}

/// The full text of one JSON-LD chunk: one node object per distinct subject,
/// subjects in ascending order.
pub open spec fn spec_jsonld_text(ts: Seq<TripleModel>) -> Seq<char> {
    let subjects = spec_sorted_keys(ts.map_values(subject_of_fn()));
    "[\n"@ + spec_lines_with_commas(
        Seq::new(
            subjects.len() as nat,
            |si: int| spec_subject_base(ts.filter(by_subject(subjects[si])), subjects[si]),
        ),
    ) + "]\n"@
}

/// The triples of one subject, in input order.
struct SubjectGroup {
    subject: String,
    triples: Vec<OwnedTriple>,
}

/// The rendered object values of one predicate, in input order.
struct PredGroup {
    predicate: String,
    values: Vec<String>,
}

/// The key of a subject group.
spec fn subject_key_fn() -> spec_fn(SubjectGroup) -> Seq<char> {
    |g: SubjectGroup| g.subject@
}

/// The key of a predicate group.
spec fn pred_key_fn() -> spec_fn(PredGroup) -> Seq<char> {
    |g: PredGroup| g.predicate@
}

/// A field-for-field copy of a triple.
fn clone_triple(t: &OwnedTriple) -> (r: OwnedTriple)
    ensures
        r == *t,
{
    let r = OwnedTriple {
        subject: t.subject.clone(),
        predicate: t.predicate.clone(),
        object: t.object.clone(),
    };
    r
}

/// A batch in which no triple carries predicate `p` filters to nothing under
/// `by_predicate(p)`.
proof fn lemma_no_pred_filter_empty(s: Seq<TripleModel>, p: Seq<char>)
    requires
        forall|w: int| 0 <= w < s.len() ==> (#[trigger] s[w]).predicate != p,
    ensures
        s.filter(by_predicate(p)).len() == 0,
    decreases s.len(),
{
    reveal(Seq::filter);
    if s.len() > 0 {
        lemma_no_pred_filter_empty(s.drop_last(), p);
        assert(!by_predicate(p)(s.last()));
    }
}

/// Groups a batch's triples by predicate: one group per distinct predicate in
/// ascending order, each holding the rendered JSON values of its objects in
/// input order.
fn group_by_predicate(triples: &Vec<OwnedTriple>) -> (groups: Vec<PredGroup>)
    ensures
        groups@.map_values(pred_key_fn()) == spec_sorted_keys(
            triples.deep_view().map_values(predicate_of_fn()),
        ),
        forall|gi: int|
            0 <= gi < groups@.len() ==> #[trigger] groups@[gi].values.deep_view()
                == triples.deep_view().filter(by_predicate(groups@[gi].predicate@)).map_values(
                object_value_fn(),
            ),
{
    let ghost ts = triples.deep_view();
    let mut groups: Vec<PredGroup> = Vec::new();
    let mut i: usize = 0;
    proof {
        assert(ts.take(0) =~= Seq::<TripleModel>::empty());
        assert(ts.take(0).map_values(predicate_of_fn()) =~= Seq::<Seq<char>>::empty());
        assert(groups@.map_values(pred_key_fn()) =~= Seq::<Seq<char>>::empty());
    }
    while i < triples.len()
        invariant
            ts == triples.deep_view(),
            ts.len() == triples@.len(),
            0 <= i <= triples@.len(),
            groups@.map_values(pred_key_fn()) == spec_sorted_keys(
                ts.take(i as int).map_values(predicate_of_fn()),
            ),
            spec_keys_sorted(groups@.map_values(pred_key_fn())),
            forall|gi: int|
                0 <= gi < groups@.len() ==> #[trigger] groups@[gi].values.deep_view() == ts.take(
                    i as int,
                ).filter(by_predicate(groups@[gi].predicate@)).map_values(object_value_fn()),
        decreases triples@.len() - i,
    {
        let t = &triples[i];
        let v = object_to_jsonld_value(t.object.as_str());
        let ghost tm = ts[i as int];
        let ghost p = t.predicate@;
        let ghost keys = groups@.map_values(pred_key_fn());
        let ghost gold = groups@;
        proof {
            assert(tm == triples@[i as int]@);
            assert(tm.predicate == p);
            assert(v@ == spec_object_jsonld_value(tm.object));
        }
        let mut j: usize = 0;
        while j < groups.len() && str_lt(groups[j].predicate.as_str(), t.predicate.as_str())
            invariant
                0 <= j <= groups@.len(),
                forall|jj: int|
                    0 <= jj < j ==> spec_lex_lt(#[trigger] groups@[jj].predicate@, t.predicate@),
            decreases groups@.len() - j,
        {
            j += 1;
        }
        proof {
            assert(keys.len() == gold.len());
            assert forall|jj: int| 0 <= jj < j implies spec_lex_lt(#[trigger] keys[jj], p) by {
                assert(keys[jj] == gold[jj].predicate@);
            }
            if (j as int) < keys.len() {
                assert(keys[j as int] == gold[j as int].predicate@);
                assert(!spec_lex_lt(keys[j as int], p));
            }
            lemma_insert_key_at(keys, p, j as int);
            lemma_insert_key_props(keys, p, j as int);
            // a key below or above p is not p
            assert forall|w: int| 0 <= w < keys.len() && keys[w] != p implies !(#[trigger] keys[w]
                == p) by {}
        }
        let at_key = j < groups.len() && str_eq(groups[j].predicate.as_str(), t.predicate.as_str());
        if at_key {
            let mut g = groups.remove(j);
            g.values.push(v);
            groups.insert(j, g);
            proof {
                let keys2 = groups@.map_values(pred_key_fn());
                gold.remove_ensures(j as int);
                gold.remove(j as int).insert_ensures(j as int, groups@[j as int]);
                assert(keys2 =~= keys) by {
                    assert forall|w: int| 0 <= w < keys2.len() implies keys2[w] == keys[w] by {
                        assert(keys2[w] == groups@[w].predicate@);
                        if w < j {
                            assert(groups@[w] == gold[w]);
                        } else if w > j {
                            assert(groups@[w] == gold.remove(j as int)[w - 1]);
                            assert(gold.remove(j as int)[w - 1] == gold[w]);
                        } else {
                            assert(groups@[w].predicate@ == gold[w].predicate@);
                        }
                    }
                }
                assert(keys[j as int] == p);
                assert(spec_insert_key(keys, p) == keys);
                // per-group contents
                assert forall|gi: int|
                    0 <= gi < groups@.len() implies #[trigger] groups@[gi].values.deep_view()
                    == ts.take(i + 1).filter(by_predicate(groups@[gi].predicate@)).map_values(
                    object_value_fn(),
                ) by {
                    let q = groups@[gi].predicate@;
                    assert(ts.take(i + 1) =~= ts.take(i as int).push(tm));
                    ts.take(i as int).lemma_filter_push(tm, by_predicate(q));
                    if gi == j {
                        assert(q == p);
                        assert(by_predicate(q)(tm));
                        ts.take(i as int).filter(by_predicate(q)).lemma_push_map_commute(
                            object_value_fn(),
                            tm,
                        );
                        assert(gold[j as int].values.deep_view() == ts.take(i as int).filter(
                            by_predicate(q),
                        ).map_values(object_value_fn()));
                        assert(groups@[gi].values@ =~= gold[j as int].values@.push(v));
                        assert(groups@[gi].values.deep_view() =~= gold[j as int
                        ].values.deep_view().push(v@));
                    } else {
                        assert(groups@[gi] == gold[gi]);
                        assert(q != p) by {
                            if gi < j {
                                assert(spec_lex_lt(keys[gi], p));
                                if q == p {
                                    lemma_lex_asym(p, p);
                                }
                            } else {
                                assert(spec_lex_lt(keys[j as int], keys[gi]));
                                assert(spec_lex_lt(p, q));
                                if q == p {
                                    lemma_lex_asym(p, p);
                                }
                            }
                        }
                        assert(!by_predicate(q)(tm));
                    }
                }
            }
        } else {
            let key = t.predicate.clone();
            let mut vs: Vec<String> = Vec::new();
            vs.push(v);
            groups.insert(j, PredGroup { predicate: key, values: vs });
            proof {
                let keys2 = groups@.map_values(pred_key_fn());
                gold.insert_ensures(j as int, groups@[j as int]);
                keys.insert_ensures(j as int, p);
                assert(groups@[j as int].predicate@ == p);
                assert(keys2 =~= keys.insert(j as int, p)) by {
                    assert forall|w: int| 0 <= w < keys2.len() implies keys2[w] == keys.insert(
                        j as int,
                        p,
                    )[w] by {
                        assert(keys2[w] == groups@[w].predicate@);
                        if w < j {
                            assert(groups@[w] == gold[w]);
                        } else if w > j {
                            assert(groups@[w] == gold[w - 1]);
                        }
                    }
                }
                assert(!(j < keys.len() && keys[j as int] == p));
                assert(keys2 =~= spec_insert_key(keys, p));
                // p occurs in no earlier triple
                assert(!keys.contains(p)) by {
                    if keys.contains(p) {
                        let w = choose|w: int| 0 <= w < keys.len() && keys[w] == p;
                        if w < j {
                            assert(spec_lex_lt(keys[w], p));
                            lemma_lex_asym(p, p);
                        } else if w == j {
                        } else {
                            assert(spec_lex_lt(keys[j as int], keys[w]));
                            assert(spec_lex_lt(p, keys[j as int])) by {
                                if !spec_lex_lt(p, keys[j as int]) {
                                    lemma_lex_connected(keys[j as int], p);
                                }
                            }
                            crate::text::lemma_lex_trans(p, keys[j as int], keys[w]);
                            lemma_lex_asym(p, p);
                        }
                    }
                }
                let items = ts.take(i as int).map_values(predicate_of_fn());
                lemma_sorted_keys_props(items);
                assert(!items.contains(p));
                assert(ts.take(i as int).filter(by_predicate(p)).len() == 0) by {
                    assert forall|w: int|
                        0 <= w < ts.take(i as int).len() implies (#[trigger] ts.take(
                        i as int,
                    )[w]).predicate != p by {
                        assert(items[w] == ts.take(i as int)[w].predicate);
                        if ts.take(i as int)[w].predicate == p {
                            assert(items.contains(p));
                        }
                    }
                    lemma_no_pred_filter_empty(ts.take(i as int), p);
                }
                assert forall|gi: int|
                    0 <= gi < groups@.len() implies #[trigger] groups@[gi].values.deep_view()
                    == ts.take(i + 1).filter(by_predicate(groups@[gi].predicate@)).map_values(
                    object_value_fn(),
                ) by {
                    let q = groups@[gi].predicate@;
                    assert(ts.take(i + 1) =~= ts.take(i as int).push(tm));
                    ts.take(i as int).lemma_filter_push(tm, by_predicate(q));
                    if gi == j {
                        assert(q == p);
                        assert(by_predicate(q)(tm));
                        let oldf = ts.take(i as int).filter(by_predicate(p));
                        assert(oldf =~= Seq::<TripleModel>::empty());
                        oldf.lemma_push_map_commute(object_value_fn(), tm);
                        assert(groups@[gi].values.deep_view() =~= Seq::<Seq<
                            char,
                        >>::empty().push(v@));
                        assert(oldf.map_values(object_value_fn()) =~= Seq::<Seq<char>>::empty());
                    } else {
                        let w = if gi < j {
                            gi
                        } else {
                            gi - 1
                        };
                        assert(groups@[gi] == gold[w]);
                        assert(q == keys[w]);
                        assert(q != p) by {
                            if gi < j {
                                assert(spec_lex_lt(keys[w], p));
                                if q == p {
                                    lemma_lex_asym(p, p);
                                }
                            } else {
                                assert(!spec_lex_lt(keys[j as int], p));
                                assert(keys[j as int] != p);
                                assert(spec_lex_lt(p, keys[j as int])) by {
                                    if !spec_lex_lt(p, keys[j as int]) {
                                        lemma_lex_connected(keys[j as int], p);
                                    }
                                }
                                if w == j {
                                } else {
                                    assert(spec_lex_lt(keys[j as int], keys[w]));
                                    crate::text::lemma_lex_trans(p, keys[j as int], keys[w]);
                                }
                                if q == p {
                                    lemma_lex_asym(p, p);
                                }
                            }
                        }
                        assert(!by_predicate(q)(tm));
                    }
                }
            }
        }
        proof {
            let items2 = ts.take(i + 1).map_values(predicate_of_fn());
            assert(items2.drop_last() =~= ts.take(i as int).map_values(predicate_of_fn()));
            assert(items2.last() == p);
            assert(spec_sorted_keys(items2) == spec_insert_key(
                spec_sorted_keys(ts.take(i as int).map_values(predicate_of_fn())),
                p,
            ));
            assert(groups@.map_values(pred_key_fn()) == spec_sorted_keys(items2));
        }
        i += 1;
    }
    proof {
        assert(ts.take(triples@.len() as int) =~= ts);
    }
    groups
}

/// A batch in which no triple carries subject `s` filters to nothing under
/// `by_subject(s)`.
proof fn lemma_no_subj_filter_empty(ts: Seq<TripleModel>, s: Seq<char>)
    requires
        forall|w: int| 0 <= w < ts.len() ==> (#[trigger] ts[w]).subject != s,
    ensures
        ts.filter(by_subject(s)).len() == 0,
    decreases ts.len(),
{
    reveal(Seq::filter);
    if ts.len() > 0 {
        lemma_no_subj_filter_empty(ts.drop_last(), s);
        assert(!by_subject(s)(ts.last()));
    }
}

/// Groups a batch's triples by subject: one group per distinct subject in
/// ascending order, each holding its triples in input order.
fn group_by_subject(triples: &Vec<OwnedTriple>) -> (groups: Vec<SubjectGroup>)
    ensures
        groups@.map_values(subject_key_fn()) == spec_sorted_keys(
            triples.deep_view().map_values(subject_of_fn()),
        ),
        forall|gi: int|
            0 <= gi < groups@.len() ==> #[trigger] groups@[gi].triples.deep_view()
                == triples.deep_view().filter(by_subject(groups@[gi].subject@)),
{
    let ghost ts = triples.deep_view();
    let mut groups: Vec<SubjectGroup> = Vec::new();
    let mut i: usize = 0;
    proof {
        assert(ts.take(0) =~= Seq::<TripleModel>::empty());
        assert(ts.take(0).map_values(subject_of_fn()) =~= Seq::<Seq<char>>::empty());
        assert(groups@.map_values(subject_key_fn()) =~= Seq::<Seq<char>>::empty());
    }
    while i < triples.len()
        invariant
            ts == triples.deep_view(),
            ts.len() == triples@.len(),
            0 <= i <= triples@.len(),
            groups@.map_values(subject_key_fn()) == spec_sorted_keys(
                ts.take(i as int).map_values(subject_of_fn()),
            ),
            spec_keys_sorted(groups@.map_values(subject_key_fn())),
            forall|gi: int|
                0 <= gi < groups@.len() ==> #[trigger] groups@[gi].triples.deep_view() == ts.take(
                    i as int,
                ).filter(by_subject(groups@[gi].subject@)),
        decreases triples@.len() - i,
    {
        let t = clone_triple(&triples[i]);
        let ghost tm = ts[i as int];
        let ghost p = t.subject@;
        let ghost keys = groups@.map_values(subject_key_fn());
        let ghost gold = groups@;
        proof {
            assert(tm == triples@[i as int]@);
            assert(t@ == tm);
            assert(tm.subject == p);
        }
        let mut j: usize = 0;
        while j < groups.len() && str_lt(groups[j].subject.as_str(), t.subject.as_str())
            invariant
                0 <= j <= groups@.len(),
                forall|jj: int|
                    0 <= jj < j ==> spec_lex_lt(#[trigger] groups@[jj].subject@, t.subject@),
            decreases groups@.len() - j,
        {
            j += 1;
        }
        proof {
            assert(keys.len() == gold.len());
            assert forall|jj: int| 0 <= jj < j implies spec_lex_lt(#[trigger] keys[jj], p) by {
                assert(keys[jj] == gold[jj].subject@);
            }
            if (j as int) < keys.len() {
                assert(keys[j as int] == gold[j as int].subject@);
                assert(!spec_lex_lt(keys[j as int], p));
            }
            lemma_insert_key_at(keys, p, j as int);
            lemma_insert_key_props(keys, p, j as int);
        }
        let at_key = j < groups.len() && str_eq(groups[j].subject.as_str(), t.subject.as_str());
        if at_key {
            let mut g = groups.remove(j);
            g.triples.push(t);
            groups.insert(j, g);
            proof {
                let keys2 = groups@.map_values(subject_key_fn());
                gold.remove_ensures(j as int);
                gold.remove(j as int).insert_ensures(j as int, groups@[j as int]);
                assert(keys2 =~= keys) by {
                    assert forall|w: int| 0 <= w < keys2.len() implies keys2[w] == keys[w] by {
                        assert(keys2[w] == groups@[w].subject@);
                        if w < j {
                            assert(groups@[w] == gold[w]);
                        } else if w > j {
                            assert(groups@[w] == gold.remove(j as int)[w - 1]);
                            assert(gold.remove(j as int)[w - 1] == gold[w]);
                        } else {
                            assert(groups@[w].subject@ == gold[w].subject@);
                        }
                    }
                }
                assert(keys[j as int] == p);
                assert(spec_insert_key(keys, p) == keys);
                assert forall|gi: int|
                    0 <= gi < groups@.len() implies #[trigger] groups@[gi].triples.deep_view()
                    == ts.take(i + 1).filter(by_subject(groups@[gi].subject@)) by {
                    let q = groups@[gi].subject@;
                    assert(ts.take(i + 1) =~= ts.take(i as int).push(tm));
                    ts.take(i as int).lemma_filter_push(tm, by_subject(q));
                    if gi == j {
                        assert(q == p);
                        assert(by_subject(q)(tm));
                        assert(gold[j as int].triples.deep_view() == ts.take(i as int).filter(
                            by_subject(q),
                        ));
                        assert(groups@[gi].triples@ =~= gold[j as int].triples@.push(t));
                        assert(groups@[gi].triples.deep_view() =~= gold[j as int
                        ].triples.deep_view().push(tm));
                    } else {
                        assert(groups@[gi] == gold[gi]);
                        assert(q != p) by {
                            if gi < j {
                                assert(spec_lex_lt(keys[gi], p));
                                if q == p {
                                    lemma_lex_asym(p, p);
                                }
                            } else {
                                assert(spec_lex_lt(keys[j as int], keys[gi]));
                                assert(spec_lex_lt(p, q));
                                if q == p {
                                    lemma_lex_asym(p, p);
                                }
                            }
                        }
                        assert(!by_subject(q)(tm));
                    }
                }
            }
        } else {
            let key = t.subject.clone();
            let mut vs: Vec<OwnedTriple> = Vec::new();
            vs.push(t);
            groups.insert(j, SubjectGroup { subject: key, triples: vs });
            proof {
                let keys2 = groups@.map_values(subject_key_fn());
                gold.insert_ensures(j as int, groups@[j as int]);
                keys.insert_ensures(j as int, p);
                assert(groups@[j as int].subject@ == p);
                assert(keys2 =~= keys.insert(j as int, p)) by {
                    assert forall|w: int| 0 <= w < keys2.len() implies keys2[w] == keys.insert(
                        j as int,
                        p,
                    )[w] by {
                        assert(keys2[w] == groups@[w].subject@);
                        if w < j {
                            assert(groups@[w] == gold[w]);
                        } else if w > j {
                            assert(groups@[w] == gold[w - 1]);
                        }
                    }
                }
                assert(!(j < keys.len() && keys[j as int] == p));
                assert(keys2 =~= spec_insert_key(keys, p));
                assert(!keys.contains(p)) by {
                    if keys.contains(p) {
                        let w = choose|w: int| 0 <= w < keys.len() && keys[w] == p;
                        if w < j {
                            assert(spec_lex_lt(keys[w], p));
                            lemma_lex_asym(p, p);
                        } else if w == j {
                        } else {
                            assert(spec_lex_lt(keys[j as int], keys[w]));
                            assert(spec_lex_lt(p, keys[j as int])) by {
                                if !spec_lex_lt(p, keys[j as int]) {
                                    lemma_lex_connected(keys[j as int], p);
                                }
                            }
                            crate::text::lemma_lex_trans(p, keys[j as int], keys[w]);
                            lemma_lex_asym(p, p);
                        }
                    }
                }
                let items = ts.take(i as int).map_values(subject_of_fn());
                lemma_sorted_keys_props(items);
                assert(!items.contains(p));
                assert(ts.take(i as int).filter(by_subject(p)).len() == 0) by {
                    assert forall|w: int|
                        0 <= w < ts.take(i as int).len() implies (#[trigger] ts.take(
                        i as int,
                    )[w]).subject != p by {
                        assert(items[w] == ts.take(i as int)[w].subject);
                        if ts.take(i as int)[w].subject == p {
                            assert(items.contains(p));
                        }
                    }
                    lemma_no_subj_filter_empty(ts.take(i as int), p);
                }
                assert forall|gi: int|
                    0 <= gi < groups@.len() implies #[trigger] groups@[gi].triples.deep_view()
                    == ts.take(i + 1).filter(by_subject(groups@[gi].subject@)) by {
                    let q = groups@[gi].subject@;
                    assert(ts.take(i + 1) =~= ts.take(i as int).push(tm));
                    ts.take(i as int).lemma_filter_push(tm, by_subject(q));
                    if gi == j {
                        assert(q == p);
                        assert(by_subject(q)(tm));
                        let oldf = ts.take(i as int).filter(by_subject(p));
                        assert(oldf =~= Seq::<TripleModel>::empty());
                        assert(groups@[gi].triples.deep_view() =~= Seq::<
                            TripleModel,
                        >::empty().push(tm));
                    } else {
                        let w = if gi < j {
                            gi
                        } else {
                            gi - 1
                        };
                        assert(groups@[gi] == gold[w]);
                        assert(q == keys[w]);
                        assert(q != p) by {
                            if gi < j {
                                assert(spec_lex_lt(keys[w], p));
                                if q == p {
                                    lemma_lex_asym(p, p);
                                }
                            } else {
                                assert(!spec_lex_lt(keys[j as int], p));
                                assert(keys[j as int] != p);
                                assert(spec_lex_lt(p, keys[j as int])) by {
                                    if !spec_lex_lt(p, keys[j as int]) {
                                        lemma_lex_connected(keys[j as int], p);
                                    }
                                }
                                if w == j {
                                } else {
                                    assert(spec_lex_lt(keys[j as int], keys[w]));
                                    crate::text::lemma_lex_trans(p, keys[j as int], keys[w]);
                                }
                                if q == p {
                                    lemma_lex_asym(p, p);
                                }
                            }
                        }
                        assert(!by_subject(q)(tm));
                    }
                }
            }
        }
        proof {
            let items2 = ts.take(i + 1).map_values(subject_of_fn());
            assert(items2.drop_last() =~= ts.take(i as int).map_values(subject_of_fn()));
            assert(items2.last() == p);
            assert(spec_sorted_keys(items2) == spec_insert_key(
                spec_sorted_keys(ts.take(i as int).map_values(subject_of_fn())),
                p,
            ));
            assert(groups@.map_values(subject_key_fn()) == spec_sorted_keys(items2));
        }
        i += 1;
    }
    proof {
        assert(ts.take(triples@.len() as int) =~= ts);
    }
    groups
}

/// Renders one predicate entry.
fn pred_block(g: &PredGroup) -> (r: String)
    ensures
        r@ == spec_pred_base(g.values.deep_view(), g.predicate@),
{
    let ghost vals = g.values.deep_view();
    let mut out = String::from_str("    \"");
    let ps = strip_angles(g.predicate.as_str());
    let eps = json_escape(ps);
    out.append(eps.as_str());
    out.append("\": [");
    let ghost head = "    \""@ + spec_backslash_escape(spec_strip_angles(g.predicate@)) + "\": ["@;
    proof {
        assert(out@ =~= head);
    }
    let n = g.values.len();
    if n == 1 {
        out.append(g.values[0].as_str());
        out.append("]");
        proof {
            assert(vals[0] == g.values@[0]@);
            assert(out@ =~= head + vals[0] + "]"@);
        }
        out
    } else {
        out.append("\n");
        let ghost bases = vals.map_values(value_line_fn());
        proof {
            assert(bases.len() == vals.len());
            assert(bases.take(0) =~= Seq::<Seq<char>>::empty());
        }
        let mut vi: usize = 0;
        while n > 0 && vi < n - 1
            invariant
                vals == g.values.deep_view(),
                bases == vals.map_values(value_line_fn()),
                n == g.values@.len(),
                vals.len() == n,
                head == "    \""@ + spec_backslash_escape(spec_strip_angles(g.predicate@))
                    + "\": ["@,
                0 <= vi <= n,
                n > 0 ==> vi <= n - 1,
                out@ == head + "\n"@ + spec_join(bases.take(vi as int), comma_line_fn()),
            decreases n - vi,
        {
            out.append("      ");
            out.append(g.values[vi].as_str());
            out.append(",\n");
            proof {
                assert(vals[vi as int] == g.values@[vi as int]@);
                assert(bases[vi as int] == "      "@ + vals[vi as int]);
                lemma_spec_join_push(bases.take(vi as int), comma_line_fn(), bases[vi as int]);
                assert(bases.take(vi + 1) =~= bases.take(vi as int).push(bases[vi as int]));
                assert(out@ =~= head + "\n"@ + (spec_join(bases.take(vi as int), comma_line_fn())
                    + comma_line_fn()(bases[vi as int])));
            }
            vi += 1;
        }
        if n > 0 {
            out.append("      ");
            out.append(g.values[n - 1].as_str());
            out.append("\n");
            proof {
                assert(vals[n - 1] == g.values@[n - 1]@);
                assert(bases[n - 1] == "      "@ + vals[n - 1]);
                assert(bases.drop_last() =~= bases.take(n - 1));
                assert(out@ =~= head + "\n"@ + spec_lines_with_commas(bases));
            }
        } else {
            proof {
                assert(bases.len() == 0);
                assert(out@ =~= head + "\n"@ + spec_lines_with_commas(bases));
            }
        }
        out.append("    ]");
        proof {
            assert(out@ =~= spec_pred_base(vals, g.predicate@));
        }
        out
    }
}

/// Renders one subject's node object.
fn subject_block(g: &SubjectGroup) -> (r: String)
    ensures
        r@ == spec_subject_base(g.triples.deep_view(), g.subject@),
{
    let ghost sts = g.triples.deep_view();
    let ghost preds = spec_sorted_keys(sts.map_values(predicate_of_fn()));
    let ghost bases = Seq::new(
        preds.len() as nat,
        |pi: int|
            spec_pred_base(
                sts.filter(by_predicate(preds[pi])).map_values(object_value_fn()),
                preds[pi],
            ),
    );
    let pgroups = group_by_predicate(&g.triples);
    proof {
        assert(pgroups@.map_values(pred_key_fn()).len() == preds.len());
        assert forall|pi: int| 0 <= pi < pgroups@.len() implies #[trigger] pgroups@[pi].predicate@
            == preds[pi] by {
            assert(pgroups@.map_values(pred_key_fn())[pi] == pgroups@[pi].predicate@);
        }
    }
    let mut out = String::from_str("  {\n");
    out.append("    \"@id\": \"");
    let si = strip_angles(g.subject.as_str());
    let esi = json_escape(si);
    out.append(esi.as_str());
    out.append("\",\n");
    let ghost head = "  {\n"@ + "    \"@id\": \""@ + spec_backslash_escape(
        spec_strip_angles(g.subject@),
    ) + "\",\n"@;
    proof {
        assert(out@ =~= head);
        assert(bases.take(0) =~= Seq::<Seq<char>>::empty());
    }
    let n = pgroups.len();
    let mut pi: usize = 0;
    while n > 0 && pi < n - 1
        invariant
            sts == g.triples.deep_view(),
            preds == spec_sorted_keys(sts.map_values(predicate_of_fn())),
            bases == Seq::new(
                preds.len() as nat,
                |pj: int|
                    spec_pred_base(
                        sts.filter(by_predicate(preds[pj])).map_values(object_value_fn()),
                        preds[pj],
                    ),
            ),
            head == "  {\n"@ + "    \"@id\": \""@ + spec_backslash_escape(
                spec_strip_angles(g.subject@),
            ) + "\",\n"@,
            n == pgroups@.len(),
            preds.len() == n,
            bases.len() == n,
            forall|pj: int|
                0 <= pj < pgroups@.len() ==> #[trigger] pgroups@[pj].values.deep_view()
                    == g.triples.deep_view().filter(by_predicate(pgroups@[pj].predicate@)
                ).map_values(object_value_fn()),
            forall|pj: int|
                0 <= pj < pgroups@.len() ==> #[trigger] pgroups@[pj].predicate@ == preds[pj],
            0 <= pi <= n,
            n > 0 ==> pi <= n - 1,
            out@ == head + spec_join(bases.take(pi as int), comma_line_fn()),
        decreases n - pi,
    {
        let block = pred_block(&pgroups[pi]);
        out.append(block.as_str());
        out.append(",\n");
        proof {
            assert(block@ == bases[pi as int]);
            lemma_spec_join_push(bases.take(pi as int), comma_line_fn(), bases[pi as int]);
            assert(bases.take(pi + 1) =~= bases.take(pi as int).push(bases[pi as int]));
            assert(out@ =~= head + (spec_join(bases.take(pi as int), comma_line_fn())
                + comma_line_fn()(bases[pi as int])));
        }
        pi += 1;
    }
    if n > 0 {
        let block = pred_block(&pgroups[n - 1]);
        out.append(block.as_str());
        out.append("\n");
        proof {
            assert(block@ == bases[n - 1]);
            assert(bases.drop_last() =~= bases.take(n - 1));
            assert(out@ =~= head + spec_lines_with_commas(bases));
        }
    } else {
        proof {
            assert(bases.len() == 0);
            assert(out@ =~= head + spec_lines_with_commas(bases));
        }
    }
    out.append("  }");
    proof {
        assert(out@ =~= spec_subject_base(sts, g.subject@));
    }
    out
}

/// Encodes a batch of triples as a JSON-LD document in expanded form: one
/// node object per subject, subjects and predicates in ascending order,
/// values in input order.
#[verifier::rlimit(80)]
pub fn write_jsonld(triples: &Vec<OwnedTriple>) -> (r: String)
    ensures
        r@ == spec_jsonld_text(triples.deep_view()),
{
    let ghost ts = triples.deep_view();
    let ghost subjects = spec_sorted_keys(ts.map_values(subject_of_fn()));
    let ghost bases = Seq::new(
        subjects.len() as nat,
        |si: int| spec_subject_base(ts.filter(by_subject(subjects[si])), subjects[si]),
    );
    let sgroups = group_by_subject(triples);
    proof {
        assert(sgroups@.map_values(subject_key_fn()).len() == subjects.len());
        assert forall|si: int| 0 <= si < sgroups@.len() implies #[trigger] sgroups@[si].subject@
            == subjects[si] by {
            assert(sgroups@.map_values(subject_key_fn())[si] == sgroups@[si].subject@);
        }
    }
    let mut out = String::from_str("[\n");
    proof {
        assert(out@ =~= "[\n"@);
        assert(bases.take(0) =~= Seq::<Seq<char>>::empty());
    }
    let n = sgroups.len();
    let mut si: usize = 0;
    while n > 0 && si < n - 1
        invariant
            ts == triples.deep_view(),
            subjects == spec_sorted_keys(ts.map_values(subject_of_fn())),
            bases == Seq::new(
                subjects.len() as nat,
                |sj: int| spec_subject_base(ts.filter(by_subject(subjects[sj])), subjects[sj]),
            ),
            n == sgroups@.len(),
            subjects.len() == n,
            bases.len() == n,
            forall|sj: int|
                0 <= sj < sgroups@.len() ==> #[trigger] sgroups@[sj].triples.deep_view()
                    == ts.filter(by_subject(sgroups@[sj].subject@)),
            forall|sj: int|
                0 <= sj < sgroups@.len() ==> #[trigger] sgroups@[sj].subject@ == subjects[sj],
            0 <= si <= n,
            n > 0 ==> si <= n - 1,
            out@ == "[\n"@ + spec_join(bases.take(si as int), comma_line_fn()),
        decreases n - si,
    {
        let block = subject_block(&sgroups[si]);
        out.append(block.as_str());
        out.append(",\n");
        proof {
            assert(block@ == bases[si as int]);
            lemma_spec_join_push(bases.take(si as int), comma_line_fn(), bases[si as int]);
            assert(bases.take(si + 1) =~= bases.take(si as int).push(bases[si as int]));
            assert(out@ =~= "[\n"@ + (spec_join(bases.take(si as int), comma_line_fn())
                + comma_line_fn()(bases[si as int])));
        }
        si += 1;
    }
    if n > 0 {
        let block = subject_block(&sgroups[n - 1]);
        out.append(block.as_str());
        out.append("\n");
        proof {
            assert(block@ == bases[n - 1]);
            assert(bases.drop_last() =~= bases.take(n - 1));
            assert(out@ =~= "[\n"@ + spec_lines_with_commas(bases));
        }
    } else {
        proof {
            assert(bases.len() == 0);
            assert(out@ =~= "[\n"@ + spec_lines_with_commas(bases));
        }
    }
    out.append("]\n");
    proof {
        assert(out@ =~= spec_jsonld_text(ts));
    }
    out
}

} // verus!
