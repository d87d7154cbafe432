//! The supported RDF serialisation syntaxes: detection from a path's
//! extension, the canonical output extension of each syntax, and the error
//! type shared by the splitting engine.
use vstd::prelude::*;

verus! {

use vstd::string::StrSliceExecFns;
use vstd::string::StringExecFns;
use crate::text::{spec_lower, str_eq, to_ascii_lowercase};

/// One of the six supported RDF syntaxes.
#[derive(Debug, Clone, Copy, PartialEq, Eq, Structural)]
pub enum RdfFormat {
    Turtle,
    NTriples,
    NQuads,
    TriG,
    RdfXml,
    JsonLd,
}

/// `p` with every trailing `'/'` removed.
pub open spec fn spec_strip_trailing_slashes(p: Seq<char>) -> Seq<char>
    decreases p.len(),
{
    if p.len() > 0 && p.last() == '/' {
        spec_strip_trailing_slashes(p.drop_last())
    } else {
        p
    }
}

/// One past the last occurrence of `c` in `s`, or 0 when `c` does not occur.
pub open spec fn spec_after_last(s: Seq<char>, c: char) -> int
    decreases s.len(),
{
    if s.len() == 0 {
        0
    } else if s.last() == c {
        s.len() as int
    } else {
        spec_after_last(s.drop_last(), c)
    }
}

/// `spec_after_last` is pinned down by its two defining properties: everything
/// from the returned position on differs from `c`, and the position is either
/// 0 or just past an occurrence of `c`.
pub proof fn lemma_after_last_unique(s: Seq<char>, c: char, k: int)
    requires
        0 <= k <= s.len(),
        k == 0 || s[k - 1] == c,
        forall|i: int| k <= i < s.len() ==> s[i] != c,
    ensures
        spec_after_last(s, c) == k,
    decreases s.len(),
{
    if s.len() == 0 {
    } else if s.last() == c {
        assert(k == s.len());
    } else {
        assert(k < s.len() || k == 0);
        lemma_after_last_unique(s.drop_last(), c, k);
    }
}

/// The final path component: what stands after the last `'/'`, trailing
/// slashes ignored.
pub open spec fn spec_file_name(p: Seq<char>) -> Seq<char> {
    let q = spec_strip_trailing_slashes(p);
    q.subrange(spec_after_last(q, '/'), q.len() as int)
}

/// The extension of the final path component: what stands after its last
/// `'.'`, provided that dot is neither absent nor the component's first
/// character (a leading dot marks a hidden file, not an extension).
pub open spec fn spec_extension(p: Seq<char>) -> Option<Seq<char>> {
    let name = spec_file_name(p);
    let d = spec_after_last(name, '.');
    if d <= 1 {
        None
    } else {
        Some(name.subrange(d, name.len() as int))
    }
}

/// The syntax that a (lowercased) extension selects.
pub open spec fn spec_format_of_extension(e: Seq<char>) -> Option<RdfFormat> {
    if e == "ttl"@ {
        Some(RdfFormat::Turtle)
    } else if e == "nt"@ {
        Some(RdfFormat::NTriples)
    } else if e == "nq"@ || e == "nquads"@ {
        Some(RdfFormat::NQuads)
    } else if e == "trig"@ {
        Some(RdfFormat::TriG)
    } else if e == "rdf"@ || e == "owl"@ || e == "xml"@ {
        Some(RdfFormat::RdfXml)
    } else if e == "jsonld"@ || e == "json-ld"@ || e == "json"@ {
        Some(RdfFormat::JsonLd)
    } else {
        None
    }
}

/// Format detection from a whole path: extension extraction, ASCII
/// lowercasing, then the extension table.
pub open spec fn spec_from_path(p: Seq<char>) -> Option<RdfFormat> {
    match spec_extension(p) {
        None => None,
        Some(e) => spec_format_of_extension(spec_lower(e)),
    }
}

impl RdfFormat {
    /// Detects the syntax of a file from its path's extension,
    /// case-insensitively; `None` when the extension is missing or
    /// unrecognised.
    pub fn from_path(path: &str) -> (r: Option<RdfFormat>)
        ensures
            r == spec_from_path(path@),
    {
        let n = path.unicode_len();
        // Ignore trailing slashes, as a path ending in a separator names the
        // same final component.
        let mut end: usize = n;
        proof {
            assert(path@.take(n as int) =~= path@);
        }
        while end > 0 && path.get_char(end - 1) == '/'
            invariant
                n == path@.len(),
                0 <= end <= n,
                spec_strip_trailing_slashes(path@) == spec_strip_trailing_slashes(
                    path@.take(end as int),
                ),
            decreases end,
        {
            proof {
                assert(path@.take(end as int).drop_last() =~= path@.take(end - 1));
            }
            end -= 1;
        }
        let ghost q = path@.take(end as int);
        proof {
            assert(spec_strip_trailing_slashes(q) == q);
        }
        // The final component starts after the last separator.
        let mut start: usize = end;
        while start > 0 && path.get_char(start - 1) != '/'
            invariant
                n == path@.len(),
                0 <= start <= end <= n,
                forall|i: int| start <= i < end ==> path@[i] != '/',
            decreases start,
        {
            start -= 1;
        }
        proof {
            lemma_after_last_unique(q, '/', start as int);
        }
        let ghost name = q.subrange(start as int, end as int);
        proof {
            assert(name == spec_file_name(path@));
        }
        // The extension starts after the last dot of the component.
        let mut dot: usize = end;
        while dot > start && path.get_char(dot - 1) != '.'
            invariant
                n == path@.len(),
                0 <= start <= dot <= end <= n,
                forall|i: int| dot <= i < end ==> path@[i] != '.',
            decreases dot,
        {
            dot -= 1;
        }
        proof {
            assert forall|i: int|
                dot - start <= i < name.len() implies #[trigger] name[i] != '.' by {
                assert(name[i] == path@[start + i]);
            }
            if dot > start {
                assert(name[dot - start - 1] == path@[dot - 1]);
            }
            lemma_after_last_unique(name, '.', dot - start);
        }
        if dot <= start + 1 {
            return None;
        }
        let ext = path.substring_char(dot, end);
        proof {
            assert(ext@ =~= name.subrange(dot - start, name.len() as int));
        }
        let low = to_ascii_lowercase(ext);
        let l = low.as_str();
        if str_eq(l, "ttl") {
            Some(RdfFormat::Turtle)
        } else if str_eq(l, "nt") {
            Some(RdfFormat::NTriples)
        } else if str_eq(l, "nq") || str_eq(l, "nquads") {
            Some(RdfFormat::NQuads)
        } else if str_eq(l, "trig") {
            Some(RdfFormat::TriG)
        } else if str_eq(l, "rdf") || str_eq(l, "owl") || str_eq(l, "xml") {
            Some(RdfFormat::RdfXml)
        } else if str_eq(l, "jsonld") || str_eq(l, "json-ld") || str_eq(l, "json") {
            Some(RdfFormat::JsonLd)
        } else {
            None
        }
    }

    /// The canonical extension that output chunks of this syntax carry.
    pub open spec fn spec_extension_str(self) -> Seq<char> {
        match self {
            RdfFormat::Turtle => "ttl"@,
            RdfFormat::NTriples => "nt"@,
            RdfFormat::NQuads => "nq"@,
            RdfFormat::TriG => "trig"@,
            RdfFormat::RdfXml => "rdf"@,
            RdfFormat::JsonLd => "jsonld"@,
        }
    }

    /// The canonical file extension for this syntax.
    pub fn extension(self) -> (r: &'static str)
        ensures
            r@ == self.spec_extension_str(),
    {
        match self {
            RdfFormat::Turtle => "ttl",
            RdfFormat::NTriples => "nt",
            RdfFormat::NQuads => "nq",
            RdfFormat::TriG => "trig",
            RdfFormat::RdfXml => "rdf",
            RdfFormat::JsonLd => "jsonld",
        }
    }

    /// The human-readable name of this syntax.
    pub open spec fn spec_label_str(self) -> Seq<char> {
        match self {
            RdfFormat::Turtle => "Turtle"@,
            RdfFormat::NTriples => "N-Triples"@,
            RdfFormat::NQuads => "N-Quads"@,
            RdfFormat::TriG => "TriG"@,
            RdfFormat::RdfXml => "RDF/XML"@,
            RdfFormat::JsonLd => "JSON-LD"@,
        }
    }

    /// A short human-readable label for this syntax.
    pub fn label(self) -> (r: &'static str)
        ensures
            r@ == self.spec_label_str(),
            r@.len() > 0,
    {
        proof {
            reveal_strlit("Turtle");
            reveal_strlit("N-Triples");
            reveal_strlit("N-Quads");
            reveal_strlit("TriG");
            reveal_strlit("RDF/XML");
            reveal_strlit("JSON-LD");
        }
        match self {
            RdfFormat::Turtle => "Turtle",
            RdfFormat::NTriples => "N-Triples",
            RdfFormat::NQuads => "N-Quads",
            RdfFormat::TriG => "TriG",
            RdfFormat::RdfXml => "RDF/XML",
            RdfFormat::JsonLd => "JSON-LD",
        }
    }
}

/// Every detected format round-trips: a file named with a format's canonical
/// extension is detected as that format.
pub proof fn lemma_extension_roundtrip(fmt: RdfFormat, stem: Seq<char>)
    requires
        stem.len() > 0,
        forall|i: int| 0 <= i < stem.len() ==> stem[i] != '/' && stem[i] != '.',
    ensures
        spec_from_path(stem + seq!['.'] + fmt.spec_extension_str()) == Some(fmt),
{
    let ext = fmt.spec_extension_str();
    let p = stem + seq!['.'] + ext;
    reveal_strlit("ttl");
    reveal_strlit("nt");
    reveal_strlit("nq");
    reveal_strlit("trig");
    reveal_strlit("rdf");
    reveal_strlit("jsonld");
    reveal_strlit("nquads");
    reveal_strlit("owl");
    reveal_strlit("xml");
    reveal_strlit("json-ld");
    reveal_strlit("json");
    assert(ext.len() > 0 && ext.last() != '/') by {
        match fmt {
            RdfFormat::Turtle => assert(ext =~= seq!['t', 't', 'l']),
            RdfFormat::NTriples => assert(ext =~= seq!['n', 't']),
            RdfFormat::NQuads => assert(ext =~= seq!['n', 'q']),
            RdfFormat::TriG => assert(ext =~= seq!['t', 'r', 'i', 'g']),
            RdfFormat::RdfXml => assert(ext =~= seq!['r', 'd', 'f']),
            RdfFormat::JsonLd => assert(ext =~= seq!['j', 's', 'o', 'n', 'l', 'd']),
        }
    }
    assert(spec_strip_trailing_slashes(p) == p);
    assert(forall|i: int| 0 <= i < ext.len() ==> ext[i] != '/' && ext[i] != '.');
    lemma_after_last_unique(p, '/', 0);
    let name = spec_file_name(p);
    assert(name =~= p);
    lemma_after_last_unique(name, '.', stem.len() + 1int);
    let e = name.subrange(stem.len() + 1int, name.len() as int);
    assert(e =~= ext);
    assert(spec_lower(e) =~= ext) by {
        assert(forall|i: int| 0 <= i < ext.len() ==> crate::text::spec_lower_char(ext[i]) == ext[i]);
    }
    assert(spec_format_of_extension(ext) == Some(fmt));
}

/// The error type that a callback handed to a decoder reports: a plain
/// message carried through the decode.
#[derive(Debug)]
pub struct CallbackError(pub String);

/// Everything that can go wrong while splitting one input file.
#[derive(Debug, Clone)]
pub enum SplitterError {
    /// The input path's extension names no supported syntax.
    UnsupportedFormat(String),
    /// The output directory does not exist and force mode is off.
    OutputDirMissing(String),
    /// An output chunk file already exists and force mode is off.
    OutputExists(String),
    /// A filesystem failure, carried as its message.
    Io(String),
    /// Malformed input, carried with the decoder's position description.
    Parse(String),
    /// Any other failure, carried as its message.
    Other(String),
}

/// The message that each error displays.
pub open spec fn spec_error_message(e: SplitterError) -> Seq<char> {
    match e {
        SplitterError::UnsupportedFormat(p) => "Unsupported format for '"@ + p@
            + "'; supported: .ttl .nt .nq .trig .rdf .owl .xml .jsonld"@,
        SplitterError::OutputDirMissing(d) => "Output directory '"@ + d@
            + "' does not exist (use --force to create it)"@,
        SplitterError::OutputExists(p) => "Output file '"@ + p@
            + "' already exists (use --force to overwrite)"@,
        SplitterError::Io(m) => "I/O error: "@ + m@,
        SplitterError::Parse(m) => "RDF parse error: "@ + m@,
        SplitterError::Other(m) => m@,
    }
}

impl SplitterError {
    /// Renders the error for display.
    pub fn message(&self) -> (r: String)
        ensures
            r@ == spec_error_message(*self),
    {
        match self {
            SplitterError::UnsupportedFormat(p) => String::from_str(
                "Unsupported format for '",
            ).concat(p.as_str()).concat(
                "'; supported: .ttl .nt .nq .trig .rdf .owl .xml .jsonld",
            ),
            SplitterError::OutputDirMissing(d) => String::from_str("Output directory '").concat(
                d.as_str(),
            ).concat("' does not exist (use --force to create it)"),
            SplitterError::OutputExists(p) => String::from_str("Output file '").concat(
                p.as_str(),
            ).concat("' already exists (use --force to overwrite)"),
            SplitterError::Io(m) => String::from_str("I/O error: ").concat(m.as_str()),
            SplitterError::Parse(m) => String::from_str("RDF parse error: ").concat(m.as_str()),
            SplitterError::Other(m) => m.clone(),
        }
    }
}

} // verus!
