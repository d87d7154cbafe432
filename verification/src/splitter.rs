//! The splitting engine: the bounded chunk buffer and its rotation protocol,
//! the chunk-sizing strategies, the output naming and overwrite policy, and
//! the per-syntax split drivers.
use vstd::prelude::*;

verus! {

use vstd::arithmetic::div_mod::{lemma_fundamental_div_mod, lemma_fundamental_div_mod_converse};
use vstd::arithmetic::mul::{lemma_mul_inequality, lemma_mul_is_distributive_add_other_way};
use vstd::string::StrSliceExecFns;
use vstd::string::StringExecFns;
use crate::format::{RdfFormat, SplitterError};
use crate::jsonld::{jsonld_to_ntriples, spec_json_parse, spec_jsonld_expansion};
use crate::serialise::{
    lemma_find_char_none, lemma_find_char_some, spec_find_char, spec_jsonld_text, spec_nquads_text, spec_ntriples_text, spec_rdfxml_text,
    write_jsonld, write_nquads, write_ntriples, write_rdfxml, write_trig, write_turtle, OwnedQuad,
    OwnedTriple, QuadModel, TripleModel,
};
use crate::text::{index_string, push_char, spec_index_digits};

/// The configuration for one splitting run: where chunks go, how many records
/// each chunk holds, and whether existing output may be overwritten (and a
/// missing output directory created).
pub struct SplitOptions {
    pub output_dir: String,
    pub chunk_size: usize,
    pub force: bool,
}

/// One planned output file: its full path and its complete text.
pub struct ChunkFile {
    pub path: String,
    pub content: String,
}

/// How many chunks a split of `total` records at `chunk_size` records per
/// chunk produces: the ceiling of `total / chunk_size`.
pub open spec fn spec_num_chunks(total: nat, chunk_size: nat) -> nat
    recommends
        chunk_size >= 1,
{
    (((total + chunk_size - 1) as int) / (chunk_size as int)) as nat
}

/// The records of the `i`-th chunk: the `i`-th consecutive slice of length
/// `chunk_size`, the last slice holding whatever remains.
pub open spec fn spec_chunk<A>(records: Seq<A>, chunk_size: nat, i: int) -> Seq<A>
    recommends
        chunk_size >= 1,
        0 <= i < spec_num_chunks(records.len(), chunk_size),
{
    let lo = i * chunk_size;
    let hi = (i + 1) * chunk_size;
    records.subrange(lo, if hi > records.len() { records.len() as int } else { hi })
}

/// All chunks of a split, in order.
pub open spec fn spec_chunks_of<A>(records: Seq<A>, chunk_size: nat) -> Seq<Seq<A>> {
    Seq::new(
        spec_num_chunks(records.len(), chunk_size),
        |i: int| spec_chunk(records, chunk_size, i),
    )
}

/// Partitions a record sequence into chunks: every chunk but possibly the
/// last holds exactly `chunk_size` records, and the concatenation of all
/// chunks, in order, is the input sequence. No empty trailing chunk is ever
/// produced.
pub fn chunk_records<T>(records: Vec<T>, chunk_size: usize) -> (chunks: Vec<Vec<T>>)
    requires
        chunk_size >= 1,
    ensures
        chunks@.len() == spec_num_chunks(records@.len(), chunk_size as nat),
        forall|i: int|
            0 <= i < chunks@.len() ==> #[trigger] chunks@[i]@ == spec_chunk(
                records@,
                chunk_size as nat,
                i,
            ),
{
    let ghost orig = records@;
    let ghost cs = chunk_size as int;
    let mut rest = records;
    let mut chunks: Vec<Vec<T>> = Vec::new();
    let mut buf: Vec<T> = Vec::new();
    proof {
        assert(chunks@.len() * cs == 0) by (nonlinear_arith)
            requires
                chunks@.len() == 0,
        ;
        assert(orig.subrange(0, 0) =~= buf@);
        assert(orig.subrange(0, orig.len() as int) =~= rest@);
    }
    while rest.len() > 0
        invariant
            chunk_size >= 1,
            cs == chunk_size as int,
            buf@.len() < chunk_size,
            orig.len() == chunks@.len() * cs + buf@.len() + rest@.len(),
            buf@ == orig.subrange(chunks@.len() * cs, chunks@.len() * cs + buf@.len()),
            rest@ == orig.subrange(chunks@.len() * cs + buf@.len(), orig.len() as int),
            forall|i: int|
                0 <= i < chunks@.len() ==> #[trigger] chunks@[i]@ == orig.subrange(
                    i * cs,
                    i * cs + cs,
                ),
        decreases rest@.len(),
    {
        let ghost k = chunks@.len() as int;
        let ghost b = buf@.len() as int;
        let t = rest.remove(0);
        buf.push(t);
        proof {
            assert(buf@ =~= orig.subrange(k * cs, k * cs + b + 1));
            assert(rest@ =~= orig.subrange(k * cs + b + 1, orig.len() as int));
        }
        if buf.len() == chunk_size {
            chunks.push(buf);
            buf = Vec::new();
            proof {
                lemma_mul_is_distributive_add_other_way(cs, k, 1);
                assert((k + 1) * cs == k * cs + cs);
                assert(buf@ =~= orig.subrange((k + 1) * cs, (k + 1) * cs + 0));
                assert(forall|i: int|
                    0 <= i < chunks@.len() ==> #[trigger] chunks@[i]@ == orig.subrange(
                        i * cs,
                        i * cs + cs,
                    ));
            }
        }
    }
    let ghost k = chunks@.len() as int;
    let ghost b = buf@.len() as int;
    let ghost n = orig.len() as int;
    if buf.len() > 0 {
        chunks.push(buf);
        proof {
            lemma_mul_is_distributive_add_other_way(cs, k, 1);
            assert(n == k * cs + b && 0 < b < cs);
            assert(spec_num_chunks(orig.len(), chunk_size as nat) == k + 1) by {
                lemma_fundamental_div_mod_converse(n + cs - 1, cs, k + 1, b - 1);
            }
            assert(chunks@[k]@ == spec_chunk(orig, chunk_size as nat, k)) by {
                assert((k + 1) * cs > n);
                assert(chunks@[k]@ =~= orig.subrange(k * cs, n));
            }
            assert(forall|i: int|
                0 <= i < k ==> #[trigger] chunks@[i]@ == spec_chunk(orig, chunk_size as nat, i))
                by {
                assert forall|i: int| 0 <= i < k implies #[trigger] chunks@[i]@ == spec_chunk(
                    orig,
                    chunk_size as nat,
                    i,
                ) by {
                    lemma_mul_is_distributive_add_other_way(cs, i, 1);
                    lemma_mul_inequality(i + 1, k, cs);
                }
            }
        }
    } else {
        proof {
            assert(n == k * cs);
            assert(spec_num_chunks(orig.len(), chunk_size as nat) == k) by {
                if k == 0 {
                    lemma_fundamental_div_mod_converse(n + cs - 1, cs, 0, cs - 1);
                } else {
                    lemma_fundamental_div_mod_converse(n + cs - 1, cs, k, cs - 1);
                }
            }
            assert(forall|i: int|
                0 <= i < k ==> #[trigger] chunks@[i]@ == spec_chunk(orig, chunk_size as nat, i))
                by {
                assert forall|i: int| 0 <= i < k implies #[trigger] chunks@[i]@ == spec_chunk(
                    orig,
                    chunk_size as nat,
                    i,
                ) by {
                    lemma_mul_is_distributive_add_other_way(cs, i, 1);
                    lemma_mul_inequality(i + 1, k, cs);
                }
            }
        }
    }
    chunks
}

/// Every chunk of a split holds exactly `chunk_size` records, except the last,
/// which holds the remainder: more than zero and at most `chunk_size`. The
/// number of chunks is the ceiling of `total / chunk_size`, so an empty input
/// yields no chunks at all.
pub proof fn lemma_chunk_sizes<A>(records: Seq<A>, chunk_size: nat)
    requires
        chunk_size >= 1,
    ensures
        records.len() == 0 ==> spec_num_chunks(records.len(), chunk_size) == 0,
        records.len() > 0 ==> spec_num_chunks(records.len(), chunk_size) >= 1,
        forall|i: int|
            0 <= i < spec_num_chunks(records.len(), chunk_size) - 1 ==> #[trigger] spec_chunk(
                records,
                chunk_size,
                i,
            ).len() == chunk_size,
        spec_num_chunks(records.len(), chunk_size) > 0 ==> {
            let m = spec_num_chunks(records.len(), chunk_size) as int;
            let last = spec_chunk(records, chunk_size, m - 1).len();
            last == records.len() - chunk_size * (m - 1) && 0 < last <= chunk_size
        },
{
    let n = records.len() as int;
    let cs = chunk_size as int;
    let m = spec_num_chunks(records.len(), chunk_size) as int;
    lemma_fundamental_div_mod(n + cs - 1, cs);
    let r = (n + cs - 1) % cs;
    assert(n + cs - 1 == cs * m + r && 0 <= r < cs);
    assert(cs * m == m * cs) by (nonlinear_arith);
    if n == 0 {
        assert(m == 0) by (nonlinear_arith)
            requires
                cs - 1 == cs * m + r,
                0 <= r < cs,
                cs >= 1,
        ;
    } else {
        assert(m >= 1) by (nonlinear_arith)
            requires
                n + cs - 1 == cs * m + r,
                0 <= r < cs,
                cs >= 1,
                n >= 1,
        ;
    }
    assert((m - 1) * cs < n <= m * cs) by (nonlinear_arith)
        requires
            n + cs - 1 == cs * m + r,
            0 <= r < cs,
            cs >= 1,
            n >= 0,
    ;
    assert forall|i: int| 0 <= i < m - 1 implies #[trigger] spec_chunk(
        records,
        chunk_size,
        i,
    ).len() == chunk_size by {
        lemma_mul_is_distributive_add_other_way(cs, i, 1);
        lemma_mul_inequality(0, i, cs);
        lemma_mul_inequality(i + 1, m - 1, cs);
        assert((i + 1) * cs <= (m - 1) * cs < n);
    }
    if m > 0 {
        lemma_mul_is_distributive_add_other_way(cs, m - 1, 1);
        lemma_mul_inequality(0, m - 1, cs);
        assert(spec_chunk(records, chunk_size, m - 1).len() == n - (m - 1) * cs);
        assert((m - 1) * cs == cs * (m - 1)) by (nonlinear_arith);
    }
}

/// Concatenating the chunks of a split, in order, gives back exactly the
/// record sequence that went in: no record is lost, duplicated or reordered.
pub proof fn lemma_chunks_concat<A>(records: Seq<A>, chunk_size: nat)
    requires
        chunk_size >= 1,
    ensures
        spec_chunks_of(records, chunk_size).flatten() == records,
    decreases records.len(),
{
    let n = records.len() as int;
    let cs = chunk_size as int;
    let chunks = spec_chunks_of(records, chunk_size);
    lemma_chunk_sizes(records, chunk_size);
    if n == 0 {
        assert(chunks.len() == 0);
        assert(chunks.flatten() =~= records);
    } else if n <= cs {
        assert(chunks.len() == 1) by {
            lemma_fundamental_div_mod_converse(n + cs - 1, cs, 1, n - 1);
        }
        assert(chunks[0] =~= records) by {
            assert(0 * (chunk_size as int) == 0) by (nonlinear_arith);
            assert((0 + 1) * (chunk_size as int) == chunk_size as int) by (nonlinear_arith);
            assert(chunks[0] == spec_chunk(records, chunk_size, 0));
        }
        assert(chunks.drop_first() =~= Seq::<Seq<A>>::empty());
        assert(chunks.flatten() == chunks[0] + chunks.drop_first().flatten());
        assert(chunks[0] + Seq::<A>::empty() =~= records);
    } else {
        let tail = records.skip(cs);
        lemma_chunks_concat(tail, chunk_size);
        let tail_chunks = spec_chunks_of(tail, chunk_size);
        let m = chunks.len() as int;
        lemma_fundamental_div_mod(n + cs - 1, cs);
        let r = (n + cs - 1) % cs;
        assert(n + cs - 1 == cs * m + r && 0 <= r < cs);
        assert((m - 1) * cs == cs * m - cs && m * cs == cs * m) by (nonlinear_arith);
        assert((m - 1) * cs < n);
        assert(chunks.len() == tail_chunks.len() + 1) by {
            lemma_fundamental_div_mod(tail.len() as int + cs - 1, cs);
            let mt = (tail.len() as int + cs - 1) / cs;
            let rt = (tail.len() as int + cs - 1) % cs;
            assert(tail.len() == n - cs);
            assert(n + cs - 1 == cs * (mt + 1) + rt) by (nonlinear_arith)
                requires
                    n - cs + cs - 1 == cs * mt + rt,
            ;
            lemma_fundamental_div_mod_converse(n + cs - 1, cs, mt + 1, rt);
        }
        assert(chunks.drop_first() =~= tail_chunks) by {
            assert forall|i: int| 0 <= i < tail_chunks.len() implies chunks.drop_first()[i]
                == tail_chunks[i] by {
                assert(chunks.drop_first()[i] == spec_chunk(records, chunk_size, i + 1));
                assert(tail_chunks[i] == spec_chunk(tail, chunk_size, i));
                lemma_mul_is_distributive_add_other_way(cs, i, 1);
                lemma_mul_is_distributive_add_other_way(cs, i + 1, 1);
                lemma_mul_inequality(0, i, cs);
                lemma_mul_inequality(i + 1, m - 1, cs);
                assert((i + 1) * cs <= (m - 1) * cs < n);
                assert(spec_chunk(records, chunk_size, i + 1) =~= spec_chunk(tail, chunk_size, i));
            }
        }
        assert(chunks[0] =~= records.take(cs));
        assert(chunks.flatten() == chunks[0] + chunks.drop_first().flatten());
        assert(records.take(cs) + tail =~= records);
    }
}

/// Derived chunk size for "exactly this many output files" mode: the ceiling
/// of `total / file_count`, floored at 1 so a small input never yields a
/// zero-sized chunk.
pub open spec fn spec_derived_chunk_size(total: nat, file_count: nat) -> nat
    recommends
        file_count >= 1,
{
    let ceil = (total + file_count - 1) as int / file_count as int;
    if ceil < 1 {
        1
    } else {
        ceil as nat
    }
}

/// Derives the records-per-chunk bound from a total record count and a
/// requested number of output files.
pub fn derive_chunk_size(total: usize, file_count: usize) -> (r: usize)
    requires
        file_count >= 1,
    ensures
        r == spec_derived_chunk_size(total as nat, file_count as nat),
        r >= 1,
{
    let q: usize = total / file_count;
    proof {
        assert(total % file_count != 0 ==> q < total) by (nonlinear_arith)
            requires
                file_count >= 1,
                q == total as int / file_count as int,
        ;
    }
    let cs: usize = if total % file_count != 0 {
        q + 1
    } else {
        q
    };
    proof {
        assert(cs == (total + file_count - 1) as int / file_count as int) by (nonlinear_arith)
            requires
                file_count >= 1,
                q == total as int / file_count as int,
                cs == if total as int % file_count as int != 0 {
                    q + 1int
                } else {
                    q as int
                },
        ;
    }
    if cs < 1 {
        1
    } else {
        cs
    }
}

/// What the derived chunk size makes of a split. A small input (fewer records
/// than requested files) floors the chunk size at 1, so the split yields one
/// file per record and never an empty trailing file. A large input yields at
/// most the requested number of files, and exactly that number whenever the
/// total is a multiple of the request; a remainder can merge into fewer files
/// (the chunk size is rounded up), never more.
pub proof fn lemma_file_count_split(total: nat, file_count: nat)
    requires
        file_count >= 1,
    ensures
        total < file_count ==> spec_derived_chunk_size(total, file_count) == 1
            && spec_num_chunks(total, spec_derived_chunk_size(total, file_count)) == total,
        total >= file_count ==> spec_num_chunks(total, spec_derived_chunk_size(total, file_count))
            <= file_count,
        total >= file_count ==> spec_num_chunks(total, spec_derived_chunk_size(total, file_count))
            >= 1,
        total >= file_count && total % file_count == 0 ==> spec_num_chunks(
            total,
            spec_derived_chunk_size(total, file_count),
        ) == file_count,
{
    let n = total as int;
    let f = file_count as int;
    let ceil = (n + f - 1) / f;
    lemma_fundamental_div_mod(n + f - 1, f);
    let r = (n + f - 1) % f;
    assert(n + f - 1 == f * ceil + r && 0 <= r < f);
    if n < f {
        if n == 0 {
            assert(ceil == 0) by (nonlinear_arith)
                requires
                    f - 1 == f * ceil + r,
                    0 <= r < f,
                    f >= 1,
            ;
        } else {
            assert(ceil == 1) by (nonlinear_arith)
                requires
                    n + f - 1 == f * ceil + r,
                    0 <= r < f,
                    1 <= n < f,
            ;
        }
        assert(spec_derived_chunk_size(total, file_count) == 1);
        assert(spec_num_chunks(total, 1) == total);
    } else {
        assert(ceil >= 1) by (nonlinear_arith)
            requires
                n + f - 1 == f * ceil + r,
                0 <= r < f,
                n >= f >= 1,
        ;
        let cs = ceil;
        assert(spec_derived_chunk_size(total, file_count) == cs);
        assert(f * cs >= n) by (nonlinear_arith)
            requires
                n + f - 1 == f * cs + r,
                0 <= r < f,
        ;
        let m = (n + cs - 1) / cs;
        lemma_fundamental_div_mod(n + cs - 1, cs);
        let r2 = (n + cs - 1) % cs;
        assert(n + cs - 1 == cs * m + r2 && 0 <= r2 < cs);
        assert(m <= f) by (nonlinear_arith)
            requires
                n + cs - 1 == cs * m + r2,
                0 <= r2 < cs,
                f * cs >= n,
                cs >= 1,
                f >= 1,
                n >= 1,
        ;
        assert(m >= 1) by (nonlinear_arith)
            requires
                n + cs - 1 == cs * m + r2,
                0 <= r2 < cs,
                cs >= 1,
                n >= 1,
        ;
        if total % file_count == 0 {
            lemma_fundamental_div_mod(n, f);
            let k = n / f;
            assert(n == f * k);
            assert(cs == k) by {
                assert(k >= 1) by (nonlinear_arith)
                    requires
                        n == f * k,
                        n >= f >= 1,
                ;
                assert(f * k + f - 1 == f * k + (f - 1));
                lemma_fundamental_div_mod_converse(f * k + f - 1, f, k, f - 1);
            }
            assert(m == f) by {
                assert(n + k - 1 == k * f + (k - 1)) by (nonlinear_arith)
                    requires
                        n == f * k,
                ;
                lemma_fundamental_div_mod_converse(n + k - 1, k, f, k - 1);
            }
        }
    }
}

/// The full path of one output chunk: the input stem, an underscore, the
/// zero-padded four-digit chunk index and the canonical extension of the
/// output syntax, joined under the output directory.
pub open spec fn spec_chunk_path(
    dir: Seq<char>,
    stem: Seq<char>,
    fmt: RdfFormat,
    index: nat,
) -> Seq<char> {
    dir + "/"@ + stem + "_"@ + spec_index_digits(index) + "."@ + fmt.spec_extension_str()
}

/// Computes the output path for one chunk of `stem` in syntax `fmt`.
pub fn chunk_path(stem: &str, fmt: RdfFormat, chunk: usize, opts: &SplitOptions) -> (r: String)
    ensures
        r@ == spec_chunk_path(opts.output_dir@, stem@, fmt, chunk as nat),
{
    let mut out = opts.output_dir.clone();
    out.append("/");
    out.append(stem);
    out.append("_");
    let digits = index_string(chunk);
    out.append(digits.as_str());
    out.append(".");
    out.append(fmt.extension());
    proof {
        assert(out@ =~= spec_chunk_path(opts.output_dir@, stem@, fmt, chunk as nat));
    }
    out
}

/// The overwrite policy for one chunk path: a path that already exists is
/// refused unless force mode is on; force mode accepts any path.
pub fn check_overwrite(path: &str, exists: bool, force: bool) -> (r: Result<(), SplitterError>)
    ensures
        exists && !force ==> (r matches Err(e) && e matches SplitterError::OutputExists(p) && p@
            == path@),
        !(exists && !force) ==> r is Ok,
{
    if exists && !force {
        Err(SplitterError::OutputExists(String::from_str(path)))
    } else {
        Ok(())
    }
}

/// The output-directory policy: an existing directory is used as it is; a
/// missing one is an error unless force mode is on, in which case the caller
/// is told to create it (with its parents). Returns whether to create.
pub fn prepare_output_dir(dir: &str, dir_exists: bool, force: bool) -> (r: Result<
    bool,
    SplitterError,
>)
    ensures
        dir_exists ==> (r matches Ok(create) && !create),
        !dir_exists && force ==> (r matches Ok(create) && create),
        !dir_exists && !force ==> (r matches Err(e) && e matches SplitterError::OutputDirMissing(d)
            && d@ == dir@),
{
    if dir_exists {
        Ok(false)
    } else if force {
        Ok(true)
    } else {
        Err(SplitterError::OutputDirMissing(String::from_str(dir)))
    }
}

/// `s` with every backslash turned into a forward slash.
pub open spec fn spec_slashed(s: Seq<char>) -> Seq<char> {
    s.map_values(|c: char| if c == '\\' { '/' } else { c })
}

/// The base IRI that a file's statements resolve against: the path (already
/// made absolute by the caller where possible) as a `file://` IRI.
pub open spec fn spec_file_base_iri(path: Seq<char>) -> Seq<char> {
    let t = spec_slashed(path);
    if t.len() > 0 && t[0] == '/' {
        "file://"@ + t
    } else {
        "file:///"@ + t
    }
}

/// Builds the base IRI for an input path.
pub fn file_base_iri(path: &str) -> (r: String)
    ensures
        r@ == spec_file_base_iri(path@),
{
    let n = path.unicode_len();
    let mut slashed = String::new();
    let mut i: usize = 0;
    while i < n
        invariant
            n == path@.len(),
            0 <= i <= n,
            slashed@ == spec_slashed(path@.take(i as int)),
        decreases n - i,
    {
        let c = path.get_char(i);
        let sc: char = if c == '\\' {
            '/'
        } else {
            c
        };
        push_char(&mut slashed, sc);
        proof {
            assert(spec_slashed(path@.take(i + 1)) =~= spec_slashed(path@.take(i as int)).push(
                if path@[i as int] == '\\' {
                    '/'
                } else {
                    path@[i as int]
                },
            ));
        }
        i += 1;
    }
    proof {
        assert(path@.take(n as int) =~= path@);
        assert(slashed@ == spec_slashed(path@));
        assert(spec_slashed(path@).len() == path@.len());
    }
    let starts_slash = if slashed.as_str().unicode_len() > 0 {
        slashed.as_str().get_char(0) == '/'
    } else {
        false
    };
    if starts_slash {
        String::from_str("file://").concat(slashed.as_str())
    } else {
        String::from_str("file:///").concat(slashed.as_str())
    }
}

/// What the N-Triples decoder makes of a document: its statements in
/// document order, or nothing when the text is malformed. The result is a
/// function of the text alone.
pub uninterp spec fn spec_ntriples_parse(text: Seq<char>) -> Option<Seq<TripleModel>>;

/// What the Turtle decoder makes of a document resolved against a base IRI;
/// nothing when the base or the text is malformed.
pub uninterp spec fn spec_turtle_parse(text: Seq<char>, base: Seq<char>) -> Option<
    Seq<TripleModel>,
>;

/// What the RDF/XML decoder makes of a document resolved against a base IRI.
pub uninterp spec fn spec_rdfxml_parse(text: Seq<char>, base: Seq<char>) -> Option<
    Seq<TripleModel>,
>;

/// What the N-Quads decoder makes of a document.
pub uninterp spec fn spec_nquads_parse(text: Seq<char>) -> Option<Seq<QuadModel>>;

/// What the TriG decoder makes of a document resolved against a base IRI.
pub uninterp spec fn spec_trig_parse(text: Seq<char>, base: Seq<char>) -> Option<Seq<QuadModel>>;

/// Relies on rio_turtle::NTriplesParser, driven through rio_api's
/// TriplesParser::parse_all over in-memory bytes: the decode is a pure
/// function of the text, delivering each statement once, in document order,
/// as the display forms of its three terms; it fails exactly on malformed
/// input, and the error carries the parser's message.
#[verifier::external_body]
fn parse_ntriples(content: &str) -> (r: Result<Vec<OwnedTriple>, String>)
    ensures
        r is Ok <==> spec_ntriples_parse(content@) is Some,
        r matches Ok(ts) ==> spec_ntriples_parse(content@) == Some(ts.deep_view()),
{
    let mut out: Vec<OwnedTriple> = Vec::new();
    let res = rio_api::parser::TriplesParser::parse_all(
        &mut rio_turtle::NTriplesParser::new(content.as_bytes()),
        &mut |t: rio_api::model::Triple<'_>| -> Result<(), rio_turtle::TurtleError> {
            out.push(OwnedTriple::from_rio(&t));
            Ok(())
        },
    );
    match res { Ok(()) => Ok(out), Err(e) => Err(e.to_string()) }
}

/// Relies on oxiri::Iri::parse to validate the base IRI and on
/// rio_turtle::TurtleParser, driven as above: a pure function of text and
/// base, in document order; it fails exactly on a malformed base or text.
#[verifier::external_body]
fn parse_turtle(content: &str, base_iri: &str) -> (r: Result<Vec<OwnedTriple>, String>)
    ensures
        r is Ok <==> spec_turtle_parse(content@, base_iri@) is Some,
        r matches Ok(ts) ==> spec_turtle_parse(content@, base_iri@) == Some(ts.deep_view()),
{
    let base = match oxiri::Iri::parse(base_iri.to_string()) { Ok(b) => b, Err(e) => return Err(e.to_string()) };
    let mut out: Vec<OwnedTriple> = Vec::new();
    let res = rio_api::parser::TriplesParser::parse_all(
        &mut rio_turtle::TurtleParser::new(content.as_bytes(), Some(base)),
        &mut |t: rio_api::model::Triple<'_>| -> Result<(), rio_turtle::TurtleError> {
            out.push(OwnedTriple::from_rio(&t));
            Ok(())
        },
    );
    match res { Ok(()) => Ok(out), Err(e) => Err(e.to_string()) }
}

/// Relies on oxiri::Iri::parse and rio_xml::RdfXmlParser, driven as above: a
/// pure function of text and base, in document order; it fails exactly on a
/// malformed base or text.
#[verifier::external_body]
fn parse_rdfxml(content: &str, base_iri: &str) -> (r: Result<Vec<OwnedTriple>, String>)
    ensures
        r is Ok <==> spec_rdfxml_parse(content@, base_iri@) is Some,
        r matches Ok(ts) ==> spec_rdfxml_parse(content@, base_iri@) == Some(ts.deep_view()),
{
    let base = match oxiri::Iri::parse(base_iri.to_string()) { Ok(b) => b, Err(e) => return Err(e.to_string()) };
    let mut out: Vec<OwnedTriple> = Vec::new();
    let res = rio_api::parser::TriplesParser::parse_all(
        &mut rio_xml::RdfXmlParser::new(content.as_bytes(), Some(base)),
        &mut |t: rio_api::model::Triple<'_>| -> Result<(), rio_xml::RdfXmlError> {
            out.push(OwnedTriple::from_rio(&t));
            Ok(())
        },
    );
    match res { Ok(()) => Ok(out), Err(e) => Err(e.to_string()) }
}

/// Relies on rio_turtle::NQuadsParser, driven through rio_api's
/// QuadsParser::parse_all: a pure function of the text, in document order,
/// the optional graph term carried alongside each triple.
#[verifier::external_body]
fn parse_nquads(content: &str) -> (r: Result<Vec<OwnedQuad>, String>)
    ensures
        r is Ok <==> spec_nquads_parse(content@) is Some,
        r matches Ok(qs) ==> spec_nquads_parse(content@) == Some(qs.deep_view()),
{
    let mut out: Vec<OwnedQuad> = Vec::new();
    let res = rio_api::parser::QuadsParser::parse_all(
        &mut rio_turtle::NQuadsParser::new(content.as_bytes()),
        &mut |q: rio_api::model::Quad<'_>| -> Result<(), rio_turtle::TurtleError> {
            out.push(OwnedQuad::from_rio(&q));
            Ok(())
        },
    );
    match res { Ok(()) => Ok(out), Err(e) => Err(e.to_string()) }
}

/// Relies on oxiri::Iri::parse and rio_turtle::TriGParser, driven as above:
/// a pure function of text and base, in document order.
#[verifier::external_body]
fn parse_trig(content: &str, base_iri: &str) -> (r: Result<Vec<OwnedQuad>, String>)
    ensures
        r is Ok <==> spec_trig_parse(content@, base_iri@) is Some,
        r matches Ok(qs) ==> spec_trig_parse(content@, base_iri@) == Some(qs.deep_view()),
{
    let base = match oxiri::Iri::parse(base_iri.to_string()) { Ok(b) => b, Err(e) => return Err(e.to_string()) };
    let mut out: Vec<OwnedQuad> = Vec::new();
    let res = rio_api::parser::QuadsParser::parse_all(
        &mut rio_turtle::TriGParser::new(content.as_bytes(), Some(base)),
        &mut |q: rio_api::model::Quad<'_>| -> Result<(), rio_turtle::TurtleError> {
            out.push(OwnedQuad::from_rio(&q));
            Ok(())
        },
    );
    match res { Ok(()) => Ok(out), Err(e) => Err(e.to_string()) }
}

/// The decode of a triple-family document, dispatched by syntax.
pub open spec fn spec_triples_parse(fmt: RdfFormat, text: Seq<char>, base: Seq<char>) -> Option<
    Seq<TripleModel>,
> {
    match fmt {
        RdfFormat::NTriples => spec_ntriples_parse(text),
        RdfFormat::Turtle => spec_turtle_parse(text, base),
        RdfFormat::RdfXml => spec_rdfxml_parse(text, base),
        _ => None,
    }
}

/// The decode of a quad-family document, dispatched by syntax.
pub open spec fn spec_quads_parse(fmt: RdfFormat, text: Seq<char>, base: Seq<char>) -> Option<
    Seq<QuadModel>,
> {
    match fmt {
        RdfFormat::NQuads => spec_nquads_parse(text),
        RdfFormat::TriG => spec_trig_parse(text, base),
        _ => None,
    }
}

/// The mathematical value of one planned output file.
pub ghost struct ChunkFileModel {
    pub path: Seq<char>,
    pub content: Seq<char>,
}

impl View for ChunkFile {
    type V = ChunkFileModel;

    open spec fn view(&self) -> ChunkFileModel {
        ChunkFileModel { path: self.path@, content: self.content@ }
    }
}

impl DeepView for ChunkFile {
    type V = ChunkFileModel;

    open spec fn deep_view(&self) -> ChunkFileModel {
        self.view()
    }
}

/// The chunk size a split actually runs with: a zero bound behaves as a
/// bound of one, since the buffer rotates as soon as it is at least full.
pub open spec fn spec_effective_chunk_size(cs: nat) -> nat {
    if cs == 0 {
        1
    } else {
        cs
    }
}

/// The text of one triple chunk in the given output syntax.
pub open spec fn spec_triple_chunk_text(fmt: RdfFormat, ts: Seq<TripleModel>) -> Seq<char> {
    match fmt {
        RdfFormat::NTriples => spec_ntriples_text(ts),
        RdfFormat::Turtle => spec_ntriples_text(ts),
        RdfFormat::RdfXml => spec_rdfxml_text(ts),
        RdfFormat::JsonLd => spec_jsonld_text(ts),
        _ => Seq::empty(),
    }
}

/// The text of one quad chunk in the given output syntax.
pub open spec fn spec_quad_chunk_text(fmt: RdfFormat, qs: Seq<QuadModel>) -> Seq<char> {
    match fmt {
        RdfFormat::NQuads => spec_nquads_text(qs),
        RdfFormat::TriG => spec_nquads_text(qs),
        _ => Seq::empty(),
    }
}

/// The complete plan of a triple-family split: one file per chunk, indexed
/// from zero with no gaps, named under the output directory, holding the
/// chunk's records in the output syntax.
pub open spec fn spec_triple_chunks(
    dir: Seq<char>,
    stem: Seq<char>,
    fmt: RdfFormat,
    cs: nat,
    ts: Seq<TripleModel>,
) -> Seq<ChunkFileModel>
    recommends
        cs >= 1,
{
    Seq::new(
        spec_num_chunks(ts.len(), cs),
        |i: int|
            ChunkFileModel {
                path: spec_chunk_path(dir, stem, fmt, i as nat),
                content: spec_triple_chunk_text(fmt, spec_chunk(ts, cs, i)),
            },
    )
}

/// The complete plan of a quad-family split.
pub open spec fn spec_quad_chunks(
    dir: Seq<char>,
    stem: Seq<char>,
    fmt: RdfFormat,
    cs: nat,
    qs: Seq<QuadModel>,
) -> Seq<ChunkFileModel>
    recommends
        cs >= 1,
{
    Seq::new(
        spec_num_chunks(qs.len(), cs),
        |i: int|
            ChunkFileModel {
                path: spec_chunk_path(dir, stem, fmt, i as nat),
                content: spec_quad_chunk_text(fmt, spec_chunk(qs, cs, i)),
            },
    )
}

/// The shape of every split plan. For a decoded input of `total` records and
/// chunk size `cs`, the plan holds exactly the ceiling of `total / cs` files,
/// so an empty input yields none and nothing trailing is ever empty; every
/// chunk's records are a consecutive slice, each but the last of exactly
/// `cs` records and the last holding the positive remainder; and the
/// chunks' record slices, concatenated in order, are exactly the decoded
/// input sequence: no record is lost, duplicated or reordered.
pub proof fn lemma_plan_properties(
    dir: Seq<char>,
    stem: Seq<char>,
    fmt: RdfFormat,
    cs: nat,
    ts: Seq<TripleModel>,
)
    requires
        cs >= 1,
    ensures
        spec_triple_chunks(dir, stem, fmt, cs, ts).len() == spec_num_chunks(ts.len(), cs),
        ts.len() == 0 ==> spec_num_chunks(ts.len(), cs) == 0,
        ts.len() > 0 ==> spec_num_chunks(ts.len(), cs) >= 1,
        forall|i: int|
            0 <= i < spec_num_chunks(ts.len(), cs) ==> #[trigger] spec_triple_chunks(
                dir,
                stem,
                fmt,
                cs,
                ts,
            )[i].content == spec_triple_chunk_text(fmt, spec_chunk(ts, cs, i)),
        forall|i: int|
            0 <= i < spec_num_chunks(ts.len(), cs) - 1 ==> #[trigger] spec_chunk(
                ts,
                cs,
                i,
            ).len() == cs,
        spec_num_chunks(ts.len(), cs) > 0 ==> {
            let m = spec_num_chunks(ts.len(), cs) as int;
            let last = spec_chunk(ts, cs, m - 1).len();
            last == ts.len() - cs * (m - 1) && 0 < last <= cs
        },
        spec_chunks_of(ts, cs).flatten() == ts,
{
    lemma_chunk_sizes(ts, cs);
    lemma_chunks_concat(ts, cs);
}

/// What a triple-family split returns: the full plan exactly when the
/// document decodes, a parse error otherwise.
pub open spec fn spec_triple_split_result(
    r: Result<Vec<ChunkFile>, SplitterError>,
    parsed: Option<Seq<TripleModel>>,
    dir: Seq<char>,
    stem: Seq<char>,
    fmt: RdfFormat,
    cs: nat,
) -> bool {
    &&& (r is Ok <==> parsed is Some)
    &&& (r matches Ok(chunks) ==> (parsed matches Some(ts) && chunks.deep_view()
        == spec_triple_chunks(dir, stem, fmt, spec_effective_chunk_size(cs), ts)))
    &&& (r matches Err(e) ==> e is Parse)
}

/// What a quad-family split returns.
pub open spec fn spec_quad_split_result(
    r: Result<Vec<ChunkFile>, SplitterError>,
    parsed: Option<Seq<QuadModel>>,
    dir: Seq<char>,
    stem: Seq<char>,
    fmt: RdfFormat,
    cs: nat,
) -> bool {
    &&& (r is Ok <==> parsed is Some)
    &&& (r matches Ok(chunks) ==> (parsed matches Some(qs) && chunks.deep_view()
        == spec_quad_chunks(dir, stem, fmt, spec_effective_chunk_size(cs), qs)))
    &&& (r matches Err(e) ==> e is Parse)
}

/// Splits one decoded triple batch into its planned chunk files.
fn plan_triple_chunks(
    stem: &str,
    fmt: RdfFormat,
    records: Vec<OwnedTriple>,
    opts: &SplitOptions,
) -> (out: Vec<ChunkFile>)
    requires
        fmt == RdfFormat::NTriples || fmt == RdfFormat::Turtle || fmt == RdfFormat::RdfXml || fmt
            == RdfFormat::JsonLd,
    ensures
        out.deep_view() == spec_triple_chunks(
            opts.output_dir@,
            stem@,
            fmt,
            spec_effective_chunk_size(opts.chunk_size as nat),
            records.deep_view(),
        ),
{
    let ghost ts = records.deep_view();
    let ghost cs = spec_effective_chunk_size(opts.chunk_size as nat);
    let eff: usize = if opts.chunk_size == 0 {
        1
    } else {
        opts.chunk_size
    };
    let ghost rs = records@;
    let batches = chunk_records(records, eff);
    proof {
        assert(ts.len() == rs.len());
        lemma_chunk_sizes(ts, cs);
        lemma_chunk_sizes(rs, cs);
        assert forall|i: int| 0 <= i < batches@.len() implies #[trigger] batches@[i].deep_view()
            == spec_chunk(ts, cs, i) by {
            let m = batches@.len() as int;
            let n = rs.len() as int;
            lemma_mul_inequality(0, i, cs as int);
            lemma_mul_is_distributive_add_other_way(cs as int, i, 1);
            lemma_mul_inequality(i, m - 1, cs as int);
            assert((m - 1) * (cs as int) == (cs as int) * (m - 1)) by (nonlinear_arith);
            assert((cs as int) * (m - 1) < n || n == 0);
            assert(batches@[i]@ == spec_chunk(rs, cs, i));
            assert(batches@[i].deep_view().len() == spec_chunk(ts, cs, i).len());
            assert forall|j: int|
                0 <= j < batches@[i]@.len() implies batches@[i].deep_view()[j] == spec_chunk(
                ts,
                cs,
                i,
            )[j] by {
                assert(batches@[i].deep_view()[j] == batches@[i]@[j].deep_view());
                assert(batches@[i]@[j] == spec_chunk(rs, cs, i)[j]);
                assert(spec_chunk(ts, cs, i)[j] == ts[i * cs + j]);
                assert(spec_chunk(rs, cs, i)[j] == rs[i * cs + j]);
                assert(ts[i * cs + j] == rs[i * cs + j].deep_view());
            }
            assert(batches@[i].deep_view() =~= spec_chunk(ts, cs, i));
        }
    }
    let mut out: Vec<ChunkFile> = Vec::new();
    let mut i: usize = 0;
    while i < batches.len()
        invariant
            ts == rs.map_values(|t: OwnedTriple| t.deep_view()),
            ts.len() == rs.len(),
            cs == spec_effective_chunk_size(opts.chunk_size as nat),
            batches@.len() == spec_num_chunks(ts.len(), cs),
            forall|w: int|
                0 <= w < batches@.len() ==> #[trigger] batches@[w].deep_view() == spec_chunk(
                    ts,
                    cs,
                    w,
                ),
            fmt == RdfFormat::NTriples || fmt == RdfFormat::Turtle || fmt == RdfFormat::RdfXml
                || fmt == RdfFormat::JsonLd,
            0 <= i <= batches@.len(),
            out@.len() == i,
            forall|w: int|
                0 <= w < i ==> #[trigger] out@[w]@ == (ChunkFileModel {
                    path: spec_chunk_path(opts.output_dir@, stem@, fmt, w as nat),
                    content: spec_triple_chunk_text(fmt, spec_chunk(ts, cs, w)),
                }),
        decreases batches@.len() - i,
    {
        let text: String = match fmt {
            RdfFormat::NTriples => write_ntriples(&batches[i]),
            RdfFormat::Turtle => write_turtle(&batches[i]),
            RdfFormat::JsonLd => write_jsonld(&batches[i]),
            _ => write_rdfxml(&batches[i]),
        };
        let path = chunk_path(stem, fmt, i, opts);
        out.push(ChunkFile { path, content: text });
        i += 1;
    }
    proof {
        assert(out.deep_view() =~= spec_triple_chunks(opts.output_dir@, stem@, fmt, cs, ts));
    }
    out
}

/// Splits one decoded quad batch into its planned chunk files.
fn plan_quad_chunks(stem: &str, fmt: RdfFormat, records: Vec<OwnedQuad>, opts: &SplitOptions) -> (out:
    Vec<ChunkFile>)
    requires
        fmt == RdfFormat::NQuads || fmt == RdfFormat::TriG,
    ensures
        out.deep_view() == spec_quad_chunks(
            opts.output_dir@,
            stem@,
            fmt,
            spec_effective_chunk_size(opts.chunk_size as nat),
            records.deep_view(),
        ),
{
    let ghost qs = records.deep_view();
    let ghost cs = spec_effective_chunk_size(opts.chunk_size as nat);
    let eff: usize = if opts.chunk_size == 0 {
        1
    } else {
        opts.chunk_size
    };
    let ghost rs = records@;
    let batches = chunk_records(records, eff);
    proof {
        assert(qs.len() == rs.len());
        lemma_chunk_sizes(qs, cs);
        lemma_chunk_sizes(rs, cs);
        assert forall|i: int| 0 <= i < batches@.len() implies #[trigger] batches@[i].deep_view()
            == spec_chunk(qs, cs, i) by {
            let m = batches@.len() as int;
            let n = rs.len() as int;
            lemma_mul_inequality(0, i, cs as int);
            lemma_mul_is_distributive_add_other_way(cs as int, i, 1);
            lemma_mul_inequality(i, m - 1, cs as int);
            assert((m - 1) * (cs as int) == (cs as int) * (m - 1)) by (nonlinear_arith);
            assert((cs as int) * (m - 1) < n || n == 0);
            assert(batches@[i]@ == spec_chunk(rs, cs, i));
            assert(batches@[i].deep_view().len() == spec_chunk(qs, cs, i).len());
            assert forall|j: int|
                0 <= j < batches@[i]@.len() implies batches@[i].deep_view()[j] == spec_chunk(
                qs,
                cs,
                i,
            )[j] by {
                assert(batches@[i].deep_view()[j] == batches@[i]@[j].deep_view());
                assert(batches@[i]@[j] == spec_chunk(rs, cs, i)[j]);
                assert(spec_chunk(qs, cs, i)[j] == qs[i * cs + j]);
                assert(spec_chunk(rs, cs, i)[j] == rs[i * cs + j]);
                assert(qs[i * cs + j] == rs[i * cs + j].deep_view());
            }
            assert(batches@[i].deep_view() =~= spec_chunk(qs, cs, i));
        }
    }
    let mut out: Vec<ChunkFile> = Vec::new();
    let mut i: usize = 0;
    while i < batches.len()
        invariant
            qs == rs.map_values(|t: OwnedQuad| t.deep_view()),
            qs.len() == rs.len(),
            cs == spec_effective_chunk_size(opts.chunk_size as nat),
            batches@.len() == spec_num_chunks(qs.len(), cs),
            forall|w: int|
                0 <= w < batches@.len() ==> #[trigger] batches@[w].deep_view() == spec_chunk(
                    qs,
                    cs,
                    w,
                ),
            fmt == RdfFormat::NQuads || fmt == RdfFormat::TriG,
            0 <= i <= batches@.len(),
            out@.len() == i,
            forall|w: int|
                0 <= w < i ==> #[trigger] out@[w]@ == (ChunkFileModel {
                    path: spec_chunk_path(opts.output_dir@, stem@, fmt, w as nat),
                    content: spec_quad_chunk_text(fmt, spec_chunk(qs, cs, w)),
                }),
        decreases batches@.len() - i,
    {
        let text: String = match fmt {
            RdfFormat::NQuads => write_nquads(&batches[i]),
            _ => write_trig(&batches[i]),
        };
        let path = chunk_path(stem, fmt, i, opts);
        out.push(ChunkFile { path, content: text });
        i += 1;
    }
    proof {
        assert(out.deep_view() =~= spec_quad_chunks(opts.output_dir@, stem@, fmt, cs, qs));
    }
    out
}

/// Splits one triple-family document: decodes it, partitions the statements
/// into chunks and renders each chunk as one planned output file.
pub fn split_triples(
    stem: &str,
    content: &str,
    base_iri: &str,
    fmt: RdfFormat,
    opts: &SplitOptions,
) -> (r: Result<Vec<ChunkFile>, SplitterError>)
    requires
        fmt == RdfFormat::NTriples || fmt == RdfFormat::Turtle || fmt == RdfFormat::RdfXml,
    ensures
        spec_triple_split_result(
            r,
            spec_triples_parse(fmt, content@, base_iri@),
            opts.output_dir@,
            stem@,
            fmt,
            opts.chunk_size as nat,
        ),
{
    let parsed = match fmt {
        RdfFormat::NTriples => parse_ntriples(content),
        RdfFormat::Turtle => parse_turtle(content, base_iri),
        _ => parse_rdfxml(content, base_iri),
    };
    let records = match parsed {
        Ok(v) => v,
        Err(e) => {
            return Err(SplitterError::Parse(e));
        },
    };
    Ok(plan_triple_chunks(stem, fmt, records, opts))
}

/// Splits one quad-family document.
pub fn split_quads(
    stem: &str,
    content: &str,
    base_iri: &str,
    fmt: RdfFormat,
    opts: &SplitOptions,
) -> (r: Result<Vec<ChunkFile>, SplitterError>)
    requires
        fmt == RdfFormat::NQuads || fmt == RdfFormat::TriG,
    ensures
        spec_quad_split_result(
            r,
            spec_quads_parse(fmt, content@, base_iri@),
            opts.output_dir@,
            stem@,
            fmt,
            opts.chunk_size as nat,
        ),
{
    let parsed = match fmt {
        RdfFormat::NQuads => parse_nquads(content),
        _ => parse_trig(content, base_iri),
    };
    let records = match parsed {
        Ok(v) => v,
        Err(e) => {
            return Err(SplitterError::Parse(e));
        },
    };
    Ok(plan_quad_chunks(stem, fmt, records, opts))
}

/// A blank character for line counting: space, tab or carriage return.
pub open spec fn spec_blank_char(c: char) -> bool {
    c == ' ' || c == '\t' || c == '\r'
}

/// A line with nothing but blank characters.
pub open spec fn spec_is_blank(line: Seq<char>) -> bool {
    forall|i: int| 0 <= i < line.len() ==> spec_blank_char(#[trigger] line[i])
}

proof fn lemma_find_char_bounds(s: Seq<char>, c: char)
    ensures
        spec_find_char(s, c) matches Some(p) ==> 0 <= p < s.len(),
    decreases s.len(),
{
    if s.len() > 0 && s[0] != c {
        lemma_find_char_bounds(s.drop_first(), c);
    }
}

/// How many newline-separated lines of `text` hold a non-blank character; a
/// final fragment without a closing newline counts as a line.
pub open spec fn spec_nonblank_lines(text: Seq<char>) -> nat
    decreases text.len(),
    via spec_nonblank_lines_decreases
{
    match spec_find_char(text, '\n') {
        Some(p) => (if spec_is_blank(text.subrange(0, p)) {
            0nat
        } else {
            1nat
        }) + spec_nonblank_lines(text.subrange(p + 1, text.len() as int)),
        None => if text.len() == 0 || spec_is_blank(text) {
            0nat
        } else {
            1nat
        },
    }
}

#[via_fn]
proof fn spec_nonblank_lines_decreases(text: Seq<char>) {
    lemma_find_char_bounds(text, '\n');
}

/// Counts the non-blank lines of `text`.
pub fn count_nonblank_lines(text: &str) -> (n: usize)
    ensures
        n == spec_nonblank_lines(text@),
{
    let total = text.unicode_len();
    let mut q: usize = 0;
    let mut count: usize = 0;
    proof {
        assert(text@.skip(0) =~= text@);
    }
    while q < total
        invariant
            total == text@.len(),
            0 <= q <= total,
            count <= q,
            count + spec_nonblank_lines(text@.skip(q as int)) == spec_nonblank_lines(text@),
        decreases total - q,
    {
        let ghost seg_start = q as int;
        let mut p: usize = q;
        let mut blank = true;
        proof {
            assert(text@.subrange(seg_start, seg_start) =~= Seq::<char>::empty());
        }
        while p < total && text.get_char(p) != '\n'
            invariant
                total == text@.len(),
                seg_start == q,
                q <= p <= total,
                blank == spec_is_blank(text@.subrange(seg_start, p as int)),
                forall|i: int| seg_start <= i < p ==> text@[i] != '\n',
            decreases total - p,
        {
            let c = text.get_char(p);
            if !(c == ' ' || c == '\t' || c == '\r') {
                blank = false;
            }
            proof {
                assert(text@.subrange(seg_start, p + 1) =~= text@.subrange(seg_start, p as int).push(
                    text@[p as int],
                ));
                if spec_is_blank(text@.subrange(seg_start, p as int)) && spec_blank_char(
                    text@[p as int],
                ) {
                    assert(spec_is_blank(text@.subrange(seg_start, p + 1))) by {
                        assert forall|i: int|
                            0 <= i < p + 1 - seg_start implies spec_blank_char(
                            #[trigger] text@.subrange(seg_start, p + 1)[i],
                        ) by {
                            if i < p - seg_start {
                                assert(text@.subrange(seg_start, p + 1)[i] == text@.subrange(
                                    seg_start,
                                    p as int,
                                )[i]);
                            }
                        }
                    }
                } else if !spec_blank_char(text@[p as int]) {
                    assert(!spec_is_blank(text@.subrange(seg_start, p + 1))) by {
                        assert(text@.subrange(seg_start, p + 1)[p - seg_start] == text@[p as int]);
                    }
                } else {
                    assert(!spec_is_blank(text@.subrange(seg_start, p as int)));
                    let w = choose|w: int|
                        0 <= w < p - seg_start && !spec_blank_char(
                            #[trigger] text@.subrange(seg_start, p as int)[w],
                        );
                    assert(text@.subrange(seg_start, p + 1)[w] == text@.subrange(
                        seg_start,
                        p as int,
                    )[w]);
                    assert(!spec_is_blank(text@.subrange(seg_start, p + 1)));
                }
            }
            p += 1;
        }
        let ghost seg = text@.skip(seg_start);
        proof {
            assert forall|i: int| 0 <= i < p - seg_start implies #[trigger] seg[i] != '\n' by {
                assert(seg[i] == text@[seg_start + i]);
            }
            if p < total {
                assert(seg[p - seg_start] == text@[p as int]);
                lemma_find_char_some(seg, '\n', p - seg_start);
            } else {
                lemma_find_char_none(seg, '\n');
            }
            assert(seg.subrange(0, p - seg_start) =~= text@.subrange(seg_start, p as int));
        }
        if !blank {
            count += 1;
        }
        if p < total {
            q = p + 1;
            proof {
                assert(seg.subrange(p - seg_start + 1, seg.len() as int) =~= text@.skip(
                    q as int,
                ));
            }
        } else {
            q = total;
            proof {
                assert(seg.len() > 0);
                assert(text@.skip(q as int).len() == 0);
            }
        }
    }
    proof {
        assert(text@.skip(q as int).len() == 0);
    }
    count
}

/// What counting a document's records returns for each syntax: the length of
/// the decoded statement sequence for the five statement syntaxes, and the
/// non-blank line count of the structural expansion for the JSON-tree
/// syntax; a parse error exactly when decoding fails.
pub open spec fn spec_count_result(
    r: Result<usize, SplitterError>,
    fmt: RdfFormat,
    text: Seq<char>,
    base: Seq<char>,
) -> bool {
    &&& ((fmt == RdfFormat::NTriples || fmt == RdfFormat::Turtle || fmt == RdfFormat::RdfXml)
        ==> {
        &&& (r is Ok <==> spec_triples_parse(fmt, text, base) is Some)
        &&& (r matches Ok(n) ==> (spec_triples_parse(fmt, text, base) matches Some(ts) && n
            == ts.len()))
    })
    &&& ((fmt == RdfFormat::NQuads || fmt == RdfFormat::TriG) ==> {
        &&& (r is Ok <==> spec_quads_parse(fmt, text, base) is Some)
        &&& (r matches Ok(n) ==> (spec_quads_parse(fmt, text, base) matches Some(qs) && n
            == qs.len()))
    })
    &&& (fmt == RdfFormat::JsonLd ==> {
        &&& (r is Ok <==> spec_json_parse(text) is Some)
        &&& (r matches Ok(n) ==> (spec_json_parse(text) matches Some(m) && n
            == spec_nonblank_lines(spec_jsonld_expansion(m))))
    })
    &&& (r matches Err(e) ==> e is Parse)
}

/// Counts a document's records without keeping them: one full decode pass,
/// used to derive a chunk size from a requested file count.
pub fn count_records(content: &str, base_iri: &str, fmt: RdfFormat) -> (r: Result<
    usize,
    SplitterError,
>)
    ensures
        spec_count_result(r, fmt, content@, base_iri@),
{
    match fmt {
        RdfFormat::NTriples => match parse_ntriples(content) {
            Ok(ts) => Ok(ts.len()),
            Err(e) => Err(SplitterError::Parse(e)),
        },
        RdfFormat::Turtle => match parse_turtle(content, base_iri) {
            Ok(ts) => Ok(ts.len()),
            Err(e) => Err(SplitterError::Parse(e)),
        },
        RdfFormat::RdfXml => match parse_rdfxml(content, base_iri) {
            Ok(ts) => Ok(ts.len()),
            Err(e) => Err(SplitterError::Parse(e)),
        },
        RdfFormat::NQuads => match parse_nquads(content) {
            Ok(qs) => Ok(qs.len()),
            Err(e) => Err(SplitterError::Parse(e)),
        },
        RdfFormat::TriG => match parse_trig(content, base_iri) {
            Ok(qs) => Ok(qs.len()),
            Err(e) => Err(SplitterError::Parse(e)),
        },
        RdfFormat::JsonLd => match jsonld_to_ntriples(content) {
            Ok(nt) => Ok(count_nonblank_lines(nt.as_str())),
            Err(e) => Err(e),
        },
    }
}

/// What a JSON-tree split returns: the document is parsed, structurally
/// expanded to flat statement text, re-decoded through the ordinary
/// N-Triples decoder, and the statements are chunked; a parse error exactly
/// when either stage fails.
pub open spec fn spec_jsonld_split_result(
    r: Result<Vec<ChunkFile>, SplitterError>,
    text: Seq<char>,
    dir: Seq<char>,
    stem: Seq<char>,
    cs: nat,
) -> bool {
    &&& (r is Ok <==> (spec_json_parse(text) matches Some(m) && spec_ntriples_parse(
        spec_jsonld_expansion(m),
    ) is Some))
    &&& (r matches Ok(chunks) ==> (spec_json_parse(text) matches Some(m) && spec_ntriples_parse(
        spec_jsonld_expansion(m),
    ) matches Some(ts) && chunks.deep_view() == spec_triple_chunks(
        dir,
        stem,
        RdfFormat::JsonLd,
        spec_effective_chunk_size(cs),
        ts,
    )))
    &&& (r matches Err(e) ==> e is Parse)
}

/// Splits one JSON-tree document: parses and expands it into flat statement
/// text, re-decodes that text, and chunks the statements as JSON-LD output.
pub fn split_jsonld_file(stem: &str, content: &str, opts: &SplitOptions) -> (r: Result<
    Vec<ChunkFile>,
    SplitterError,
>)
    ensures
        spec_jsonld_split_result(r, content@, opts.output_dir@, stem@, opts.chunk_size as nat),
{
    let nt = match jsonld_to_ntriples(content) {
        Ok(nt) => nt,
        Err(e) => {
            return Err(e);
        },
    };
    let records = match parse_ntriples(nt.as_str()) {
        Ok(v) => v,
        Err(e) => {
            return Err(SplitterError::Parse(e));
        },
    };
    Ok(plan_triple_chunks(stem, RdfFormat::JsonLd, records, opts))
}

/// What splitting one file returns, for every syntax.
pub open spec fn spec_split_file_result(
    r: Result<Vec<ChunkFile>, SplitterError>,
    fmt: RdfFormat,
    text: Seq<char>,
    base: Seq<char>,
    dir: Seq<char>,
    stem: Seq<char>,
    cs: nat,
) -> bool {
    &&& ((fmt == RdfFormat::NTriples || fmt == RdfFormat::Turtle || fmt == RdfFormat::RdfXml)
        ==> spec_triple_split_result(r, spec_triples_parse(fmt, text, base), dir, stem, fmt, cs))
    &&& ((fmt == RdfFormat::NQuads || fmt == RdfFormat::TriG) ==> spec_quad_split_result(
        r,
        spec_quads_parse(fmt, text, base),
        dir,
        stem,
        fmt,
        cs,
    ))
    &&& (fmt == RdfFormat::JsonLd ==> spec_jsonld_split_result(r, text, dir, stem, cs))
}

/// Splits a single decoded document into planned chunk files, dispatching on
/// its syntax family. The caller settles the output-directory policy with
/// `prepare_output_dir` and the per-chunk overwrite policy with
/// `check_overwrite` when it writes the plan out.
pub fn split_file(
    stem: &str,
    content: &str,
    base_iri: &str,
    fmt: RdfFormat,
    opts: &SplitOptions,
) -> (r: Result<Vec<ChunkFile>, SplitterError>)
    ensures
        spec_split_file_result(
            r,
            fmt,
            content@,
            base_iri@,
            opts.output_dir@,
            stem@,
            opts.chunk_size as nat,
        ),
{
    match fmt {
        RdfFormat::NTriples | RdfFormat::Turtle | RdfFormat::RdfXml => split_triples(
            stem,
            content,
            base_iri,
            fmt,
            opts,
        ),
        RdfFormat::NQuads | RdfFormat::TriG => split_quads(stem, content, base_iri, fmt, opts),
        RdfFormat::JsonLd => split_jsonld_file(stem, content, opts),
    }
}

} // verus!
