//! What a file actually is, judged by its leading bytes first and its name
//! second.
use vstd::prelude::*;

use crate::path::{extension, extension_chars, opt_view};
use crate::text::{chars_of, lowercase, lowercase_of, str_eq, string_of};

verus! {

/// What a file actually is.
///
/// Detection reads the file's leading bytes and only consults the name when
/// the content is unrecognised. A `.jpg` holding a zip is a zip here.
#[derive(Debug, PartialEq, Eq)]
pub enum Kind {
    /// Identified from magic bytes.
    Magic { mime: String },
    /// Magic bytes were unrecognised; this is the extension's claim.
    Extension { mime: String },
    /// No signature and no useful extension.
    Unknown,
}

/// A `Kind` with its text as character sequences.
pub enum KindView {
    Magic(Seq<char>),
    Extension(Seq<char>),
    Unknown,
}

impl View for Kind {
    type V = KindView;

    open spec fn view(&self) -> KindView {
        match self {
            Kind::Magic { mime } => KindView::Magic(mime@),
            Kind::Extension { mime } => KindView::Extension(mime@),
            Kind::Unknown => KindView::Unknown,
        }
    }
}

/// An archive container mote can expand.
#[derive(Debug, Clone, Copy, PartialEq, Eq, Structural)]
pub enum Format {
    Zip,
    Tar,
    TarGz,
}

/// The MIME type a kind stands for.
pub open spec fn mime_of(k: KindView) -> Seq<char> {
    match k {
        KindView::Magic(m) => m,
        KindView::Extension(m) => m,
        KindView::Unknown => "application/octet-stream"@,
    }
}

/// The container format of a kind: only a kind known from magic bytes counts.
pub open spec fn archive_of(k: KindView) -> Option<Format> {
    match k {
        KindView::Magic(m) => {
            if m == "application/zip"@ {
                Some(Format::Zip)
            } else if m == "application/x-tar"@ {
                Some(Format::Tar)
            } else if m == "application/gzip"@ {
                Some(Format::TarGz)
            } else {
                None
            }
        },
        _ => None,
    }
}

impl Kind {
    /// The MIME type, `application/octet-stream` when nothing is known.
    pub fn mime(&self) -> (m: &str)
        ensures
            m@ == mime_of(self@),
    {
        match self {
            Kind::Magic { mime } => mime.as_str(),
            Kind::Extension { mime } => mime.as_str(),
            Kind::Unknown => "application/octet-stream",
        }
    }

    /// Whether this is a container `mote` knows how to expand.
    ///
    /// Only magic bytes are trusted here: extracting something because it
    /// was *named* `.zip` means handing a parser bytes it did not expect.
    pub fn archive(&self) -> (f: Option<Format>)
        ensures
            f == archive_of(self@),
    {
        match self {
            Kind::Magic { mime } => {
                if str_eq(mime.as_str(), "application/zip") {
                    Some(Format::Zip)
                } else if str_eq(mime.as_str(), "application/x-tar") {
                    Some(Format::Tar)
                } else if str_eq(mime.as_str(), "application/gzip") {
                    Some(Format::TarGz)
                } else {
                    None
                }
            },
            _ => None,
        }
    }

    /// An equal kind.
    pub fn duplicate(&self) -> (k: Kind)
        ensures
            k@ == self@,
    {
        match self {
            Kind::Magic { mime } => Kind::Magic { mime: mime.clone() },
            Kind::Extension { mime } => Kind::Extension { mime: mime.clone() },
            Kind::Unknown => Kind::Unknown,
        }
    }
}

/// The MIME type an extension (already lower-cased) stands for, for the
/// formats that carry no magic bytes.
pub open spec fn from_extension_spec(e: Seq<char>) -> Option<Seq<char>> {
    if e == "txt"@ || e == "log"@ || e == "text"@ {
        Some("text/plain"@)
    } else if e == "md"@ || e == "markdown"@ {
        Some("text/markdown"@)
    } else if e == "csv"@ {
        Some("text/csv"@)
    } else if e == "tsv"@ {
        Some("text/tab-separated-values"@)
    } else if e == "html"@ || e == "htm"@ {
        Some("text/html"@)
    } else if e == "css"@ {
        Some("text/css"@)
    } else if e == "json"@ {
        Some("application/json"@)
    } else if e == "yaml"@ || e == "yml"@ {
        Some("application/yaml"@)
    } else if e == "toml"@ {
        Some("application/toml"@)
    } else if e == "xml"@ {
        Some("application/xml"@)
    } else if e == "svg"@ {
        Some("image/svg+xml"@)
    } else if e == "rs"@ {
        Some("text/x-rust"@)
    } else if e == "py"@ {
        Some("text/x-python"@)
    } else if e == "c"@ || e == "h"@ {
        Some("text/x-c"@)
    } else if e == "cpp"@ || e == "cc"@ || e == "hpp"@ {
        Some("text/x-c++"@)
    } else if e == "go"@ {
        Some("text/x-go"@)
    } else if e == "js"@ || e == "mjs"@ || e == "cjs"@ {
        Some("text/javascript"@)
    } else if e == "ts"@ || e == "tsx"@ {
        Some("text/x-typescript"@)
    } else if e == "sh"@ || e == "bash"@ || e == "zsh"@ {
        Some("application/x-sh"@)
    } else if e == "sql"@ {
        Some("application/sql"@)
    } else {
        None
    }
}

/// Extensions worth knowing that carry no magic bytes.
///
/// `infer` covers binary formats well but recognises almost no text, and text
/// is most of what a source tree holds.
pub fn from_extension(ext: &str) -> (m: Option<&'static str>)
    ensures
        match m {
            Some(s) => from_extension_spec(ext@) == Some(s@),
            None => from_extension_spec(ext@) is None,
        },
{
    if str_eq(ext, "txt") || str_eq(ext, "log") || str_eq(ext, "text") {
        Some("text/plain")
    } else if str_eq(ext, "md") || str_eq(ext, "markdown") {
        Some("text/markdown")
    } else if str_eq(ext, "csv") {
        Some("text/csv")
    } else if str_eq(ext, "tsv") {
        Some("text/tab-separated-values")
    } else if str_eq(ext, "html") || str_eq(ext, "htm") {
        Some("text/html")
    } else if str_eq(ext, "css") {
        Some("text/css")
    } else if str_eq(ext, "json") {
        Some("application/json")
    } else if str_eq(ext, "yaml") || str_eq(ext, "yml") {
        Some("application/yaml")
    } else if str_eq(ext, "toml") {
        Some("application/toml")
    } else if str_eq(ext, "xml") {
        Some("application/xml")
    } else if str_eq(ext, "svg") {
        Some("image/svg+xml")
    } else if str_eq(ext, "rs") {
        Some("text/x-rust")
    } else if str_eq(ext, "py") {
        Some("text/x-python")
    } else if str_eq(ext, "c") || str_eq(ext, "h") {
        Some("text/x-c")
    } else if str_eq(ext, "cpp") || str_eq(ext, "cc") || str_eq(ext, "hpp") {
        Some("text/x-c++")
    } else if str_eq(ext, "go") {
        Some("text/x-go")
    } else if str_eq(ext, "js") || str_eq(ext, "mjs") || str_eq(ext, "cjs") {
        Some("text/javascript")
    } else if str_eq(ext, "ts") || str_eq(ext, "tsx") {
        Some("text/x-typescript")
    } else if str_eq(ext, "sh") || str_eq(ext, "bash") || str_eq(ext, "zsh") {
        Some("application/x-sh")
    } else if str_eq(ext, "sql") {
        Some("application/sql")
    } else {
        None
    }
}

/// What `infer::get` recognises in a file's leading bytes, as the MIME type of
/// the recognised format. A function of the bytes alone: `infer` runs a fixed
/// list of signature matchers and takes the first that accepts.
pub uninterp spec fn sniffed_mime(head: Seq<u8>) -> Option<Seq<char>>;

/// `infer::get`, with the matched type turned into its MIME string.
///
/// Trusted: the result is `sniffed_mime` of the bytes.
#[verifier::external_body]
fn sniff(head: &[u8]) -> (r: Option<String>)
    ensures
        match r {
            Some(m) => sniffed_mime(head@) == Some(m@),
            None => sniffed_mime(head@) is None,
        },
{
    match infer::get(head) {
        Some(t) => Some(t.mime_type().to_string()),
        None => None,
    }
}

/// The kind a file name alone claims: its lower-cased extension looked up.
pub open spec fn kind_from_name_spec(name: Seq<char>) -> KindView {
    match extension(name) {
        Some(e) => match from_extension_spec(lowercase_of(e)) {
            Some(m) => KindView::Extension(m),
            None => KindView::Unknown,
        },
        None => KindView::Unknown,
    }
}

/// What `identify_bytes` decides: magic bytes first, the name second.
pub open spec fn identify_spec(head: Seq<u8>, name: Seq<char>) -> KindView {
    match sniffed_mime(head) {
        Some(m) => KindView::Magic(m),
        None => kind_from_name_spec(name),
    }
}

/// The kind a file name alone claims.
pub fn kind_from_name(name: &str) -> (k: Kind)
    ensures
        k@ == kind_from_name_spec(name@),
{
    let cs = chars_of(name);
    match extension_chars(&cs) {
        Some(e) => {
            let es = string_of(&e);
            let lower = lowercase(es.as_str());
            match from_extension(lower.as_str()) {
                Some(m) => Kind::Extension { mime: m.to_string() },
                None => Kind::Unknown,
            }
        },
        None => Kind::Unknown,
    }
}

/// What a file is, given what the signature matchers recognised in its
/// leading bytes (if anything) and its name: the recognised type first, the
/// name's claim second.
pub open spec fn kind_from_spec(sniffed: Option<Seq<char>>, name: Seq<char>) -> KindView {
    match sniffed {
        Some(m) => KindView::Magic(m),
        None => kind_from_name_spec(name),
    }
}

/// Decide a kind from the signature matchers' verdict and the name.
pub fn kind_from(sniffed: Option<&str>, name: &str) -> (k: Kind)
    ensures
        k@ == kind_from_spec(
            match sniffed {
                Some(m) => Some(m@),
                None => None,
            },
            name@,
        ),
{
    match sniffed {
        Some(m) => Kind::Magic { mime: m.to_string() },
        None => kind_from_name(name),
    }
}

/// Identify from bytes already in hand, for archive members that are never
/// written to disk before their destination is known.
pub fn identify_bytes(head: &[u8], name: &str) -> (k: Kind)
    ensures
        k@ == identify_spec(head@, name@),
{
    match sniff(head) {
        Some(m) => kind_from(Some(m.as_str()), name),
        None => kind_from(None, name),
    }
}

/// Identify a file from what could be read off its head: `None` when the
/// file could not be read at all, which makes it `Unknown` (one unreadable
/// file must not abort a scan); an empty read is not shown to the signature
/// matchers, so only the name is consulted.
pub fn identify_head(head: Option<&[u8]>, name: &str) -> (k: Kind)
    ensures
        match head {
            None => k@ == KindView::Unknown,
            Some(h) => if h@.len() > 0 {
                k@ == identify_spec(h@, name@)
            } else {
                k@ == kind_from_name_spec(name@)
            },
        },
{
    match head {
        None => Kind::Unknown,
        Some(h) => {
            if h.len() > 0 {
                identify_bytes(h, name)
            } else {
                kind_from_name(name)
            }
        },
    }
}

proof fn lemma_extension_0()
    ensures
        from_extension_spec("txt"@) == Some("text/plain"@),
{
    reveal_strlit("txt");
}

proof fn lemma_extension_1()
    ensures
        from_extension_spec("log"@) == Some("text/plain"@),
{
    reveal_strlit("txt");
    reveal_strlit("log");
    assert("log"@[0] != "txt"@[0]);
}

proof fn lemma_extension_2()
    ensures
        from_extension_spec("text"@) == Some("text/plain"@),
{
    reveal_strlit("txt");
    reveal_strlit("log");
    reveal_strlit("text");
    assert("text"@.len() != "txt"@.len());
    assert("text"@.len() != "log"@.len());
}

proof fn lemma_extension_3()
    ensures
        from_extension_spec("md"@) == Some("text/markdown"@),
{
    reveal_strlit("txt");
    reveal_strlit("log");
    reveal_strlit("text");
    reveal_strlit("md");
    assert("md"@.len() != "txt"@.len());
    assert("md"@.len() != "log"@.len());
    assert("md"@.len() != "text"@.len());
}

proof fn lemma_extension_4()
    ensures
        from_extension_spec("markdown"@) == Some("text/markdown"@),
{
    reveal_strlit("txt");
    reveal_strlit("log");
    reveal_strlit("text");
    reveal_strlit("md");
    reveal_strlit("markdown");
    assert("markdown"@.len() != "txt"@.len());
    assert("markdown"@.len() != "log"@.len());
    assert("markdown"@.len() != "text"@.len());
    assert("markdown"@.len() != "md"@.len());
}

proof fn lemma_extension_5()
    ensures
        from_extension_spec("csv"@) == Some("text/csv"@),
{
    reveal_strlit("txt");
    reveal_strlit("log");
    reveal_strlit("text");
    reveal_strlit("md");
    reveal_strlit("markdown");
    reveal_strlit("csv");
    assert("csv"@[0] != "txt"@[0]);
    assert("csv"@[0] != "log"@[0]);
    assert("csv"@.len() != "text"@.len());
    assert("csv"@.len() != "md"@.len());
    assert("csv"@.len() != "markdown"@.len());
}

proof fn lemma_extension_6()
    ensures
        from_extension_spec("tsv"@) == Some("text/tab-separated-values"@),
{
    reveal_strlit("txt");
    reveal_strlit("log");
    reveal_strlit("text");
    reveal_strlit("md");
    reveal_strlit("markdown");
    reveal_strlit("csv");
    reveal_strlit("tsv");
    assert("tsv"@[1] != "txt"@[1]);
    assert("tsv"@[0] != "log"@[0]);
    assert("tsv"@.len() != "text"@.len());
    assert("tsv"@.len() != "md"@.len());
    assert("tsv"@.len() != "markdown"@.len());
    assert("tsv"@[0] != "csv"@[0]);
}

proof fn lemma_extension_7()
    ensures
        from_extension_spec("html"@) == Some("text/html"@),
{
    reveal_strlit("txt");
    reveal_strlit("log");
    reveal_strlit("text");
    reveal_strlit("md");
    reveal_strlit("markdown");
    reveal_strlit("csv");
    reveal_strlit("tsv");
    reveal_strlit("html");
    assert("html"@.len() != "txt"@.len());
    assert("html"@.len() != "log"@.len());
    assert("html"@[0] != "text"@[0]);
    assert("html"@.len() != "md"@.len());
    assert("html"@.len() != "markdown"@.len());
    assert("html"@.len() != "csv"@.len());
    assert("html"@.len() != "tsv"@.len());
}

proof fn lemma_extension_8()
    ensures
        from_extension_spec("htm"@) == Some("text/html"@),
{
    reveal_strlit("txt");
    reveal_strlit("log");
    reveal_strlit("text");
    reveal_strlit("md");
    reveal_strlit("markdown");
    reveal_strlit("csv");
    reveal_strlit("tsv");
    reveal_strlit("html");
    reveal_strlit("htm");
    assert("htm"@[0] != "txt"@[0]);
    assert("htm"@[0] != "log"@[0]);
    assert("htm"@.len() != "text"@.len());
    assert("htm"@.len() != "md"@.len());
    assert("htm"@.len() != "markdown"@.len());
    assert("htm"@[0] != "csv"@[0]);
    assert("htm"@[0] != "tsv"@[0]);
    assert("htm"@.len() != "html"@.len());
}

proof fn lemma_extension_9()
    ensures
        from_extension_spec("css"@) == Some("text/css"@),
{
    reveal_strlit("txt");
    reveal_strlit("log");
    reveal_strlit("text");
    reveal_strlit("md");
    reveal_strlit("markdown");
    reveal_strlit("csv");
    reveal_strlit("tsv");
    reveal_strlit("html");
    reveal_strlit("htm");
    reveal_strlit("css");
    assert("css"@[0] != "txt"@[0]);
    assert("css"@[0] != "log"@[0]);
    assert("css"@.len() != "text"@.len());
    assert("css"@.len() != "md"@.len());
    assert("css"@.len() != "markdown"@.len());
    assert("css"@[2] != "csv"@[2]);
    assert("css"@[0] != "tsv"@[0]);
    assert("css"@.len() != "html"@.len());
    assert("css"@[0] != "htm"@[0]);
}

proof fn lemma_extension_10()
    ensures
        from_extension_spec("json"@) == Some("application/json"@),
{
    reveal_strlit("txt");
    reveal_strlit("log");
    reveal_strlit("text");
    reveal_strlit("md");
    reveal_strlit("markdown");
    reveal_strlit("csv");
    reveal_strlit("tsv");
    reveal_strlit("html");
    reveal_strlit("htm");
    reveal_strlit("css");
    reveal_strlit("json");
    assert("json"@.len() != "txt"@.len());
    assert("json"@.len() != "log"@.len());
    assert("json"@[0] != "text"@[0]);
    assert("json"@.len() != "md"@.len());
    assert("json"@.len() != "markdown"@.len());
    assert("json"@.len() != "csv"@.len());
    assert("json"@.len() != "tsv"@.len());
    assert("json"@[0] != "html"@[0]);
    assert("json"@.len() != "htm"@.len());
    assert("json"@.len() != "css"@.len());
}

proof fn lemma_extension_11()
    ensures
        from_extension_spec("yaml"@) == Some("application/yaml"@),
{
    reveal_strlit("txt");
    reveal_strlit("log");
    reveal_strlit("text");
    reveal_strlit("md");
    reveal_strlit("markdown");
    reveal_strlit("csv");
    reveal_strlit("tsv");
    reveal_strlit("html");
    reveal_strlit("htm");
    reveal_strlit("css");
    reveal_strlit("json");
    reveal_strlit("yaml");
    assert("yaml"@.len() != "txt"@.len());
    assert("yaml"@.len() != "log"@.len());
    assert("yaml"@[0] != "text"@[0]);
    assert("yaml"@.len() != "md"@.len());
    assert("yaml"@.len() != "markdown"@.len());
    assert("yaml"@.len() != "csv"@.len());
    assert("yaml"@.len() != "tsv"@.len());
    assert("yaml"@[0] != "html"@[0]);
    assert("yaml"@.len() != "htm"@.len());
    assert("yaml"@.len() != "css"@.len());
    assert("yaml"@[0] != "json"@[0]);
}

proof fn lemma_extension_12()
    ensures
        from_extension_spec("yml"@) == Some("application/yaml"@),
{
    reveal_strlit("txt");
    reveal_strlit("log");
    reveal_strlit("text");
    reveal_strlit("md");
    reveal_strlit("markdown");
    reveal_strlit("csv");
    reveal_strlit("tsv");
    reveal_strlit("html");
    reveal_strlit("htm");
    reveal_strlit("css");
    reveal_strlit("json");
    reveal_strlit("yaml");
    reveal_strlit("yml");
    assert("yml"@[0] != "txt"@[0]);
    assert("yml"@[0] != "log"@[0]);
    assert("yml"@.len() != "text"@.len());
    assert("yml"@.len() != "md"@.len());
    assert("yml"@.len() != "markdown"@.len());
    assert("yml"@[0] != "csv"@[0]);
    assert("yml"@[0] != "tsv"@[0]);
    assert("yml"@.len() != "html"@.len());
    assert("yml"@[0] != "htm"@[0]);
    assert("yml"@[0] != "css"@[0]);
    assert("yml"@.len() != "json"@.len());
    assert("yml"@.len() != "yaml"@.len());
}

proof fn lemma_extension_13()
    ensures
        from_extension_spec("toml"@) == Some("application/toml"@),
{
    reveal_strlit("txt");
    reveal_strlit("log");
    reveal_strlit("text");
    reveal_strlit("md");
    reveal_strlit("markdown");
    reveal_strlit("csv");
    reveal_strlit("tsv");
    reveal_strlit("html");
    reveal_strlit("htm");
    reveal_strlit("css");
    reveal_strlit("json");
    reveal_strlit("yaml");
    reveal_strlit("yml");
    reveal_strlit("toml");
    assert("toml"@.len() != "txt"@.len());
    assert("toml"@.len() != "log"@.len());
    assert("toml"@[1] != "text"@[1]);
    assert("toml"@.len() != "md"@.len());
    assert("toml"@.len() != "markdown"@.len());
    assert("toml"@.len() != "csv"@.len());
    assert("toml"@.len() != "tsv"@.len());
    assert("toml"@[0] != "html"@[0]);
    assert("toml"@.len() != "htm"@.len());
    assert("toml"@.len() != "css"@.len());
    assert("toml"@[0] != "json"@[0]);
    assert("toml"@[0] != "yaml"@[0]);
    assert("toml"@.len() != "yml"@.len());
}

proof fn lemma_extension_14()
    ensures
        from_extension_spec("xml"@) == Some("application/xml"@),
{
    reveal_strlit("txt");
    reveal_strlit("log");
    reveal_strlit("text");
    reveal_strlit("md");
    reveal_strlit("markdown");
    reveal_strlit("csv");
    reveal_strlit("tsv");
    reveal_strlit("html");
    reveal_strlit("htm");
    reveal_strlit("css");
    reveal_strlit("json");
    reveal_strlit("yaml");
    reveal_strlit("yml");
    reveal_strlit("toml");
    reveal_strlit("xml");
    assert("xml"@[0] != "txt"@[0]);
    assert("xml"@[0] != "log"@[0]);
    assert("xml"@.len() != "text"@.len());
    assert("xml"@.len() != "md"@.len());
    assert("xml"@.len() != "markdown"@.len());
    assert("xml"@[0] != "csv"@[0]);
    assert("xml"@[0] != "tsv"@[0]);
    assert("xml"@.len() != "html"@.len());
    assert("xml"@[0] != "htm"@[0]);
    assert("xml"@[0] != "css"@[0]);
    assert("xml"@.len() != "json"@.len());
    assert("xml"@.len() != "yaml"@.len());
    assert("xml"@[0] != "yml"@[0]);
    assert("xml"@.len() != "toml"@.len());
}

proof fn lemma_extension_15()
    ensures
        from_extension_spec("svg"@) == Some("image/svg+xml"@),
{
    reveal_strlit("txt");
    reveal_strlit("log");
    reveal_strlit("text");
    reveal_strlit("md");
    reveal_strlit("markdown");
    reveal_strlit("csv");
    reveal_strlit("tsv");
    reveal_strlit("html");
    reveal_strlit("htm");
    reveal_strlit("css");
    reveal_strlit("json");
    reveal_strlit("yaml");
    reveal_strlit("yml");
    reveal_strlit("toml");
    reveal_strlit("xml");
    reveal_strlit("svg");
    assert("svg"@[0] != "txt"@[0]);
    assert("svg"@[0] != "log"@[0]);
    assert("svg"@.len() != "text"@.len());
    assert("svg"@.len() != "md"@.len());
    assert("svg"@.len() != "markdown"@.len());
    assert("svg"@[0] != "csv"@[0]);
    assert("svg"@[0] != "tsv"@[0]);
    assert("svg"@.len() != "html"@.len());
    assert("svg"@[0] != "htm"@[0]);
    assert("svg"@[0] != "css"@[0]);
    assert("svg"@.len() != "json"@.len());
    assert("svg"@.len() != "yaml"@.len());
    assert("svg"@[0] != "yml"@[0]);
    assert("svg"@.len() != "toml"@.len());
    assert("svg"@[0] != "xml"@[0]);
}

proof fn lemma_extension_16()
    ensures
        from_extension_spec("rs"@) == Some("text/x-rust"@),
{
    reveal_strlit("txt");
    reveal_strlit("log");
    reveal_strlit("text");
    reveal_strlit("md");
    reveal_strlit("markdown");
    reveal_strlit("csv");
    reveal_strlit("tsv");
    reveal_strlit("html");
    reveal_strlit("htm");
    reveal_strlit("css");
    reveal_strlit("json");
    reveal_strlit("yaml");
    reveal_strlit("yml");
    reveal_strlit("toml");
    reveal_strlit("xml");
    reveal_strlit("svg");
    reveal_strlit("rs");
    assert("rs"@.len() != "txt"@.len());
    assert("rs"@.len() != "log"@.len());
    assert("rs"@.len() != "text"@.len());
    assert("rs"@[0] != "md"@[0]);
    assert("rs"@.len() != "markdown"@.len());
    assert("rs"@.len() != "csv"@.len());
    assert("rs"@.len() != "tsv"@.len());
    assert("rs"@.len() != "html"@.len());
    assert("rs"@.len() != "htm"@.len());
    assert("rs"@.len() != "css"@.len());
    assert("rs"@.len() != "json"@.len());
    assert("rs"@.len() != "yaml"@.len());
    assert("rs"@.len() != "yml"@.len());
    assert("rs"@.len() != "toml"@.len());
    assert("rs"@.len() != "xml"@.len());
    assert("rs"@.len() != "svg"@.len());
}

proof fn lemma_extension_17()
    ensures
        from_extension_spec("py"@) == Some("text/x-python"@),
{
    reveal_strlit("txt");
    reveal_strlit("log");
    reveal_strlit("text");
    reveal_strlit("md");
    reveal_strlit("markdown");
    reveal_strlit("csv");
    reveal_strlit("tsv");
    reveal_strlit("html");
    reveal_strlit("htm");
    reveal_strlit("css");
    reveal_strlit("json");
    reveal_strlit("yaml");
    reveal_strlit("yml");
    reveal_strlit("toml");
    reveal_strlit("xml");
    reveal_strlit("svg");
    reveal_strlit("rs");
    reveal_strlit("py");
    assert("py"@.len() != "txt"@.len());
    assert("py"@.len() != "log"@.len());
    assert("py"@.len() != "text"@.len());
    assert("py"@[0] != "md"@[0]);
    assert("py"@.len() != "markdown"@.len());
    assert("py"@.len() != "csv"@.len());
    assert("py"@.len() != "tsv"@.len());
    assert("py"@.len() != "html"@.len());
    assert("py"@.len() != "htm"@.len());
    assert("py"@.len() != "css"@.len());
    assert("py"@.len() != "json"@.len());
    assert("py"@.len() != "yaml"@.len());
    assert("py"@.len() != "yml"@.len());
    assert("py"@.len() != "toml"@.len());
    assert("py"@.len() != "xml"@.len());
    assert("py"@.len() != "svg"@.len());
    assert("py"@[0] != "rs"@[0]);
}

proof fn lemma_extension_18()
    ensures
        from_extension_spec("c"@) == Some("text/x-c"@),
{
    reveal_strlit("txt");
    reveal_strlit("log");
    reveal_strlit("text");
    reveal_strlit("md");
    reveal_strlit("markdown");
    reveal_strlit("csv");
    reveal_strlit("tsv");
    reveal_strlit("html");
    reveal_strlit("htm");
    reveal_strlit("css");
    reveal_strlit("json");
    reveal_strlit("yaml");
    reveal_strlit("yml");
    reveal_strlit("toml");
    reveal_strlit("xml");
    reveal_strlit("svg");
    reveal_strlit("rs");
    reveal_strlit("py");
    reveal_strlit("c");
    assert("c"@.len() != "txt"@.len());
    assert("c"@.len() != "log"@.len());
    assert("c"@.len() != "text"@.len());
    assert("c"@.len() != "md"@.len());
    assert("c"@.len() != "markdown"@.len());
    assert("c"@.len() != "csv"@.len());
    assert("c"@.len() != "tsv"@.len());
    assert("c"@.len() != "html"@.len());
    assert("c"@.len() != "htm"@.len());
    assert("c"@.len() != "css"@.len());
    assert("c"@.len() != "json"@.len());
    assert("c"@.len() != "yaml"@.len());
    assert("c"@.len() != "yml"@.len());
    assert("c"@.len() != "toml"@.len());
    assert("c"@.len() != "xml"@.len());
    assert("c"@.len() != "svg"@.len());
    assert("c"@.len() != "rs"@.len());
    assert("c"@.len() != "py"@.len());
}

proof fn lemma_extension_19()
    ensures
        from_extension_spec("h"@) == Some("text/x-c"@),
{
    reveal_strlit("txt");
    reveal_strlit("log");
    reveal_strlit("text");
    reveal_strlit("md");
    reveal_strlit("markdown");
    reveal_strlit("csv");
    reveal_strlit("tsv");
    reveal_strlit("html");
    reveal_strlit("htm");
    reveal_strlit("css");
    reveal_strlit("json");
    reveal_strlit("yaml");
    reveal_strlit("yml");
    reveal_strlit("toml");
    reveal_strlit("xml");
    reveal_strlit("svg");
    reveal_strlit("rs");
    reveal_strlit("py");
    reveal_strlit("c");
    reveal_strlit("h");
    assert("h"@.len() != "txt"@.len());
    assert("h"@.len() != "log"@.len());
    assert("h"@.len() != "text"@.len());
    assert("h"@.len() != "md"@.len());
    assert("h"@.len() != "markdown"@.len());
    assert("h"@.len() != "csv"@.len());
    assert("h"@.len() != "tsv"@.len());
    assert("h"@.len() != "html"@.len());
    assert("h"@.len() != "htm"@.len());
    assert("h"@.len() != "css"@.len());
    assert("h"@.len() != "json"@.len());
    assert("h"@.len() != "yaml"@.len());
    assert("h"@.len() != "yml"@.len());
    assert("h"@.len() != "toml"@.len());
    assert("h"@.len() != "xml"@.len());
    assert("h"@.len() != "svg"@.len());
    assert("h"@.len() != "rs"@.len());
    assert("h"@.len() != "py"@.len());
    assert("h"@[0] != "c"@[0]);
}

proof fn lemma_extension_20()
    ensures
        from_extension_spec("cpp"@) == Some("text/x-c++"@),
{
    reveal_strlit("txt");
    reveal_strlit("log");
    reveal_strlit("text");
    reveal_strlit("md");
    reveal_strlit("markdown");
    reveal_strlit("csv");
    reveal_strlit("tsv");
    reveal_strlit("html");
    reveal_strlit("htm");
    reveal_strlit("css");
    reveal_strlit("json");
    reveal_strlit("yaml");
    reveal_strlit("yml");
    reveal_strlit("toml");
    reveal_strlit("xml");
    reveal_strlit("svg");
    reveal_strlit("rs");
    reveal_strlit("py");
    reveal_strlit("c");
    reveal_strlit("h");
    reveal_strlit("cpp");
    assert("cpp"@[0] != "txt"@[0]);
    assert("cpp"@[0] != "log"@[0]);
    assert("cpp"@.len() != "text"@.len());
    assert("cpp"@.len() != "md"@.len());
    assert("cpp"@.len() != "markdown"@.len());
    assert("cpp"@[1] != "csv"@[1]);
    assert("cpp"@[0] != "tsv"@[0]);
    assert("cpp"@.len() != "html"@.len());
    assert("cpp"@[0] != "htm"@[0]);
    assert("cpp"@[1] != "css"@[1]);
    assert("cpp"@.len() != "json"@.len());
    assert("cpp"@.len() != "yaml"@.len());
    assert("cpp"@[0] != "yml"@[0]);
    assert("cpp"@.len() != "toml"@.len());
    assert("cpp"@[0] != "xml"@[0]);
    assert("cpp"@[0] != "svg"@[0]);
    assert("cpp"@.len() != "rs"@.len());
    assert("cpp"@.len() != "py"@.len());
    assert("cpp"@.len() != "c"@.len());
    assert("cpp"@.len() != "h"@.len());
}

proof fn lemma_extension_21()
    ensures
        from_extension_spec("cc"@) == Some("text/x-c++"@),
{
    reveal_strlit("txt");
    reveal_strlit("log");
    reveal_strlit("text");
    reveal_strlit("md");
    reveal_strlit("markdown");
    reveal_strlit("csv");
    reveal_strlit("tsv");
    reveal_strlit("html");
    reveal_strlit("htm");
    reveal_strlit("css");
    reveal_strlit("json");
    reveal_strlit("yaml");
    reveal_strlit("yml");
    reveal_strlit("toml");
    reveal_strlit("xml");
    reveal_strlit("svg");
    reveal_strlit("rs");
    reveal_strlit("py");
    reveal_strlit("c");
    reveal_strlit("h");
    reveal_strlit("cpp");
    reveal_strlit("cc");
    assert("cc"@.len() != "txt"@.len());
    assert("cc"@.len() != "log"@.len());
    assert("cc"@.len() != "text"@.len());
    assert("cc"@[0] != "md"@[0]);
    assert("cc"@.len() != "markdown"@.len());
    assert("cc"@.len() != "csv"@.len());
    assert("cc"@.len() != "tsv"@.len());
    assert("cc"@.len() != "html"@.len());
    assert("cc"@.len() != "htm"@.len());
    assert("cc"@.len() != "css"@.len());
    assert("cc"@.len() != "json"@.len());
    assert("cc"@.len() != "yaml"@.len());
    assert("cc"@.len() != "yml"@.len());
    assert("cc"@.len() != "toml"@.len());
    assert("cc"@.len() != "xml"@.len());
    assert("cc"@.len() != "svg"@.len());
    assert("cc"@[0] != "rs"@[0]);
    assert("cc"@[0] != "py"@[0]);
    assert("cc"@.len() != "c"@.len());
    assert("cc"@.len() != "h"@.len());
    assert("cc"@.len() != "cpp"@.len());
}

proof fn lemma_extension_22()
    ensures
        from_extension_spec("hpp"@) == Some("text/x-c++"@),
{
    reveal_strlit("txt");
    reveal_strlit("log");
    reveal_strlit("text");
    reveal_strlit("md");
    reveal_strlit("markdown");
    reveal_strlit("csv");
    reveal_strlit("tsv");
    reveal_strlit("html");
    reveal_strlit("htm");
    reveal_strlit("css");
    reveal_strlit("json");
    reveal_strlit("yaml");
    reveal_strlit("yml");
    reveal_strlit("toml");
    reveal_strlit("xml");
    reveal_strlit("svg");
    reveal_strlit("rs");
    reveal_strlit("py");
    reveal_strlit("c");
    reveal_strlit("h");
    reveal_strlit("cpp");
    reveal_strlit("cc");
    reveal_strlit("hpp");
    assert("hpp"@[0] != "txt"@[0]);
    assert("hpp"@[0] != "log"@[0]);
    assert("hpp"@.len() != "text"@.len());
    assert("hpp"@.len() != "md"@.len());
    assert("hpp"@.len() != "markdown"@.len());
    assert("hpp"@[0] != "csv"@[0]);
    assert("hpp"@[0] != "tsv"@[0]);
    assert("hpp"@.len() != "html"@.len());
    assert("hpp"@[1] != "htm"@[1]);
    assert("hpp"@[0] != "css"@[0]);
    assert("hpp"@.len() != "json"@.len());
    assert("hpp"@.len() != "yaml"@.len());
    assert("hpp"@[0] != "yml"@[0]);
    assert("hpp"@.len() != "toml"@.len());
    assert("hpp"@[0] != "xml"@[0]);
    assert("hpp"@[0] != "svg"@[0]);
    assert("hpp"@.len() != "rs"@.len());
    assert("hpp"@.len() != "py"@.len());
    assert("hpp"@.len() != "c"@.len());
    assert("hpp"@.len() != "h"@.len());
    assert("hpp"@[0] != "cpp"@[0]);
    assert("hpp"@.len() != "cc"@.len());
}

proof fn lemma_extension_23()
    ensures
        from_extension_spec("go"@) == Some("text/x-go"@),
{
    reveal_strlit("txt");
    reveal_strlit("log");
    reveal_strlit("text");
    reveal_strlit("md");
    reveal_strlit("markdown");
    reveal_strlit("csv");
    reveal_strlit("tsv");
    reveal_strlit("html");
    reveal_strlit("htm");
    reveal_strlit("css");
    reveal_strlit("json");
    reveal_strlit("yaml");
    reveal_strlit("yml");
    reveal_strlit("toml");
    reveal_strlit("xml");
    reveal_strlit("svg");
    reveal_strlit("rs");
    reveal_strlit("py");
    reveal_strlit("c");
    reveal_strlit("h");
    reveal_strlit("cpp");
    reveal_strlit("cc");
    reveal_strlit("hpp");
    reveal_strlit("go");
    assert("go"@.len() != "txt"@.len());
    assert("go"@.len() != "log"@.len());
    assert("go"@.len() != "text"@.len());
    assert("go"@[0] != "md"@[0]);
    assert("go"@.len() != "markdown"@.len());
    assert("go"@.len() != "csv"@.len());
    assert("go"@.len() != "tsv"@.len());
    assert("go"@.len() != "html"@.len());
    assert("go"@.len() != "htm"@.len());
    assert("go"@.len() != "css"@.len());
    assert("go"@.len() != "json"@.len());
    assert("go"@.len() != "yaml"@.len());
    assert("go"@.len() != "yml"@.len());
    assert("go"@.len() != "toml"@.len());
    assert("go"@.len() != "xml"@.len());
    assert("go"@.len() != "svg"@.len());
    assert("go"@[0] != "rs"@[0]);
    assert("go"@[0] != "py"@[0]);
    assert("go"@.len() != "c"@.len());
    assert("go"@.len() != "h"@.len());
    assert("go"@.len() != "cpp"@.len());
    assert("go"@[0] != "cc"@[0]);
    assert("go"@.len() != "hpp"@.len());
}

proof fn lemma_extension_24()
    ensures
        from_extension_spec("js"@) == Some("text/javascript"@),
{
    reveal_strlit("txt");
    reveal_strlit("log");
    reveal_strlit("text");
    reveal_strlit("md");
    reveal_strlit("markdown");
    reveal_strlit("csv");
    reveal_strlit("tsv");
    reveal_strlit("html");
    reveal_strlit("htm");
    reveal_strlit("css");
    reveal_strlit("json");
    reveal_strlit("yaml");
    reveal_strlit("yml");
    reveal_strlit("toml");
    reveal_strlit("xml");
    reveal_strlit("svg");
    reveal_strlit("rs");
    reveal_strlit("py");
    reveal_strlit("c");
    reveal_strlit("h");
    reveal_strlit("cpp");
    reveal_strlit("cc");
    reveal_strlit("hpp");
    reveal_strlit("go");
    reveal_strlit("js");
    assert("js"@.len() != "txt"@.len());
    assert("js"@.len() != "log"@.len());
    assert("js"@.len() != "text"@.len());
    assert("js"@[0] != "md"@[0]);
    assert("js"@.len() != "markdown"@.len());
    assert("js"@.len() != "csv"@.len());
    assert("js"@.len() != "tsv"@.len());
    assert("js"@.len() != "html"@.len());
    assert("js"@.len() != "htm"@.len());
    assert("js"@.len() != "css"@.len());
    assert("js"@.len() != "json"@.len());
    assert("js"@.len() != "yaml"@.len());
    assert("js"@.len() != "yml"@.len());
    assert("js"@.len() != "toml"@.len());
    assert("js"@.len() != "xml"@.len());
    assert("js"@.len() != "svg"@.len());
    assert("js"@[0] != "rs"@[0]);
    assert("js"@[0] != "py"@[0]);
    assert("js"@.len() != "c"@.len());
    assert("js"@.len() != "h"@.len());
    assert("js"@.len() != "cpp"@.len());
    assert("js"@[0] != "cc"@[0]);
    assert("js"@.len() != "hpp"@.len());
    assert("js"@[0] != "go"@[0]);
}

proof fn lemma_extension_25()
    ensures
        from_extension_spec("mjs"@) == Some("text/javascript"@),
{
    reveal_strlit("txt");
    reveal_strlit("log");
    reveal_strlit("text");
    reveal_strlit("md");
    reveal_strlit("markdown");
    reveal_strlit("csv");
    reveal_strlit("tsv");
    reveal_strlit("html");
    reveal_strlit("htm");
    reveal_strlit("css");
    reveal_strlit("json");
    reveal_strlit("yaml");
    reveal_strlit("yml");
    reveal_strlit("toml");
    reveal_strlit("xml");
    reveal_strlit("svg");
    reveal_strlit("rs");
    reveal_strlit("py");
    reveal_strlit("c");
    reveal_strlit("h");
    reveal_strlit("cpp");
    reveal_strlit("cc");
    reveal_strlit("hpp");
    reveal_strlit("go");
    reveal_strlit("js");
    reveal_strlit("mjs");
    assert("mjs"@[0] != "txt"@[0]);
    assert("mjs"@[0] != "log"@[0]);
    assert("mjs"@.len() != "text"@.len());
    assert("mjs"@.len() != "md"@.len());
    assert("mjs"@.len() != "markdown"@.len());
    assert("mjs"@[0] != "csv"@[0]);
    assert("mjs"@[0] != "tsv"@[0]);
    assert("mjs"@.len() != "html"@.len());
    assert("mjs"@[0] != "htm"@[0]);
    assert("mjs"@[0] != "css"@[0]);
    assert("mjs"@.len() != "json"@.len());
    assert("mjs"@.len() != "yaml"@.len());
    assert("mjs"@[0] != "yml"@[0]);
    assert("mjs"@.len() != "toml"@.len());
    assert("mjs"@[0] != "xml"@[0]);
    assert("mjs"@[0] != "svg"@[0]);
    assert("mjs"@.len() != "rs"@.len());
    assert("mjs"@.len() != "py"@.len());
    assert("mjs"@.len() != "c"@.len());
    assert("mjs"@.len() != "h"@.len());
    assert("mjs"@[0] != "cpp"@[0]);
    assert("mjs"@.len() != "cc"@.len());
    assert("mjs"@[0] != "hpp"@[0]);
    assert("mjs"@.len() != "go"@.len());
    assert("mjs"@.len() != "js"@.len());
}

proof fn lemma_extension_26()
    ensures
        from_extension_spec("cjs"@) == Some("text/javascript"@),
{
    reveal_strlit("txt");
    reveal_strlit("log");
    reveal_strlit("text");
    reveal_strlit("md");
    reveal_strlit("markdown");
    reveal_strlit("csv");
    reveal_strlit("tsv");
    reveal_strlit("html");
    reveal_strlit("htm");
    reveal_strlit("css");
    reveal_strlit("json");
    reveal_strlit("yaml");
    reveal_strlit("yml");
    reveal_strlit("toml");
    reveal_strlit("xml");
    reveal_strlit("svg");
    reveal_strlit("rs");
    reveal_strlit("py");
    reveal_strlit("c");
    reveal_strlit("h");
    reveal_strlit("cpp");
    reveal_strlit("cc");
    reveal_strlit("hpp");
    reveal_strlit("go");
    reveal_strlit("js");
    reveal_strlit("mjs");
    reveal_strlit("cjs");
    assert("cjs"@[0] != "txt"@[0]);
    assert("cjs"@[0] != "log"@[0]);
    assert("cjs"@.len() != "text"@.len());
    assert("cjs"@.len() != "md"@.len());
    assert("cjs"@.len() != "markdown"@.len());
    assert("cjs"@[1] != "csv"@[1]);
    assert("cjs"@[0] != "tsv"@[0]);
    assert("cjs"@.len() != "html"@.len());
    assert("cjs"@[0] != "htm"@[0]);
    assert("cjs"@[1] != "css"@[1]);
    assert("cjs"@.len() != "json"@.len());
    assert("cjs"@.len() != "yaml"@.len());
    assert("cjs"@[0] != "yml"@[0]);
    assert("cjs"@.len() != "toml"@.len());
    assert("cjs"@[0] != "xml"@[0]);
    assert("cjs"@[0] != "svg"@[0]);
    assert("cjs"@.len() != "rs"@.len());
    assert("cjs"@.len() != "py"@.len());
    assert("cjs"@.len() != "c"@.len());
    assert("cjs"@.len() != "h"@.len());
    assert("cjs"@[1] != "cpp"@[1]);
    assert("cjs"@.len() != "cc"@.len());
    assert("cjs"@[0] != "hpp"@[0]);
    assert("cjs"@.len() != "go"@.len());
    assert("cjs"@.len() != "js"@.len());
    assert("cjs"@[0] != "mjs"@[0]);
}

proof fn lemma_extension_27()
    ensures
        from_extension_spec("ts"@) == Some("text/x-typescript"@),
{
    reveal_strlit("txt");
    reveal_strlit("log");
    reveal_strlit("text");
    reveal_strlit("md");
    reveal_strlit("markdown");
    reveal_strlit("csv");
    reveal_strlit("tsv");
    reveal_strlit("html");
    reveal_strlit("htm");
    reveal_strlit("css");
    reveal_strlit("json");
    reveal_strlit("yaml");
    reveal_strlit("yml");
    reveal_strlit("toml");
    reveal_strlit("xml");
    reveal_strlit("svg");
    reveal_strlit("rs");
    reveal_strlit("py");
    reveal_strlit("c");
    reveal_strlit("h");
    reveal_strlit("cpp");
    reveal_strlit("cc");
    reveal_strlit("hpp");
    reveal_strlit("go");
    reveal_strlit("js");
    reveal_strlit("mjs");
    reveal_strlit("cjs");
    reveal_strlit("ts");
    assert("ts"@.len() != "txt"@.len());
    assert("ts"@.len() != "log"@.len());
    assert("ts"@.len() != "text"@.len());
    assert("ts"@[0] != "md"@[0]);
    assert("ts"@.len() != "markdown"@.len());
    assert("ts"@.len() != "csv"@.len());
    assert("ts"@.len() != "tsv"@.len());
    assert("ts"@.len() != "html"@.len());
    assert("ts"@.len() != "htm"@.len());
    assert("ts"@.len() != "css"@.len());
    assert("ts"@.len() != "json"@.len());
    assert("ts"@.len() != "yaml"@.len());
    assert("ts"@.len() != "yml"@.len());
    assert("ts"@.len() != "toml"@.len());
    assert("ts"@.len() != "xml"@.len());
    assert("ts"@.len() != "svg"@.len());
    assert("ts"@[0] != "rs"@[0]);
    assert("ts"@[0] != "py"@[0]);
    assert("ts"@.len() != "c"@.len());
    assert("ts"@.len() != "h"@.len());
    assert("ts"@.len() != "cpp"@.len());
    assert("ts"@[0] != "cc"@[0]);
    assert("ts"@.len() != "hpp"@.len());
    assert("ts"@[0] != "go"@[0]);
    assert("ts"@[0] != "js"@[0]);
    assert("ts"@.len() != "mjs"@.len());
    assert("ts"@.len() != "cjs"@.len());
}

proof fn lemma_extension_28()
    ensures
        from_extension_spec("tsx"@) == Some("text/x-typescript"@),
{
    reveal_strlit("txt");
    reveal_strlit("log");
    reveal_strlit("text");
    reveal_strlit("md");
    reveal_strlit("markdown");
    reveal_strlit("csv");
    reveal_strlit("tsv");
    reveal_strlit("html");
    reveal_strlit("htm");
    reveal_strlit("css");
    reveal_strlit("json");
    reveal_strlit("yaml");
    reveal_strlit("yml");
    reveal_strlit("toml");
    reveal_strlit("xml");
    reveal_strlit("svg");
    reveal_strlit("rs");
    reveal_strlit("py");
    reveal_strlit("c");
    reveal_strlit("h");
    reveal_strlit("cpp");
    reveal_strlit("cc");
    reveal_strlit("hpp");
    reveal_strlit("go");
    reveal_strlit("js");
    reveal_strlit("mjs");
    reveal_strlit("cjs");
    reveal_strlit("ts");
    reveal_strlit("tsx");
    assert("tsx"@[1] != "txt"@[1]);
    assert("tsx"@[0] != "log"@[0]);
    assert("tsx"@.len() != "text"@.len());
    assert("tsx"@.len() != "md"@.len());
    assert("tsx"@.len() != "markdown"@.len());
    assert("tsx"@[0] != "csv"@[0]);
    assert("tsx"@[2] != "tsv"@[2]);
    assert("tsx"@.len() != "html"@.len());
    assert("tsx"@[0] != "htm"@[0]);
    assert("tsx"@[0] != "css"@[0]);
    assert("tsx"@.len() != "json"@.len());
    assert("tsx"@.len() != "yaml"@.len());
    assert("tsx"@[0] != "yml"@[0]);
    assert("tsx"@.len() != "toml"@.len());
    assert("tsx"@[0] != "xml"@[0]);
    assert("tsx"@[0] != "svg"@[0]);
    assert("tsx"@.len() != "rs"@.len());
    assert("tsx"@.len() != "py"@.len());
    assert("tsx"@.len() != "c"@.len());
    assert("tsx"@.len() != "h"@.len());
    assert("tsx"@[0] != "cpp"@[0]);
    assert("tsx"@.len() != "cc"@.len());
    assert("tsx"@[0] != "hpp"@[0]);
    assert("tsx"@.len() != "go"@.len());
    assert("tsx"@.len() != "js"@.len());
    assert("tsx"@[0] != "mjs"@[0]);
    assert("tsx"@[0] != "cjs"@[0]);
    assert("tsx"@.len() != "ts"@.len());
}

proof fn lemma_extension_29()
    ensures
        from_extension_spec("sh"@) == Some("application/x-sh"@),
{
    reveal_strlit("txt");
    reveal_strlit("log");
    reveal_strlit("text");
    reveal_strlit("md");
    reveal_strlit("markdown");
    reveal_strlit("csv");
    reveal_strlit("tsv");
    reveal_strlit("html");
    reveal_strlit("htm");
    reveal_strlit("css");
    reveal_strlit("json");
    reveal_strlit("yaml");
    reveal_strlit("yml");
    reveal_strlit("toml");
    reveal_strlit("xml");
    reveal_strlit("svg");
    reveal_strlit("rs");
    reveal_strlit("py");
    reveal_strlit("c");
    reveal_strlit("h");
    reveal_strlit("cpp");
    reveal_strlit("cc");
    reveal_strlit("hpp");
    reveal_strlit("go");
    reveal_strlit("js");
    reveal_strlit("mjs");
    reveal_strlit("cjs");
    reveal_strlit("ts");
    reveal_strlit("tsx");
    reveal_strlit("sh");
    assert("sh"@.len() != "txt"@.len());
    assert("sh"@.len() != "log"@.len());
    assert("sh"@.len() != "text"@.len());
    assert("sh"@[0] != "md"@[0]);
    assert("sh"@.len() != "markdown"@.len());
    assert("sh"@.len() != "csv"@.len());
    assert("sh"@.len() != "tsv"@.len());
    assert("sh"@.len() != "html"@.len());
    assert("sh"@.len() != "htm"@.len());
    assert("sh"@.len() != "css"@.len());
    assert("sh"@.len() != "json"@.len());
    assert("sh"@.len() != "yaml"@.len());
    assert("sh"@.len() != "yml"@.len());
    assert("sh"@.len() != "toml"@.len());
    assert("sh"@.len() != "xml"@.len());
    assert("sh"@.len() != "svg"@.len());
    assert("sh"@[0] != "rs"@[0]);
    assert("sh"@[0] != "py"@[0]);
    assert("sh"@.len() != "c"@.len());
    assert("sh"@.len() != "h"@.len());
    assert("sh"@.len() != "cpp"@.len());
    assert("sh"@[0] != "cc"@[0]);
    assert("sh"@.len() != "hpp"@.len());
    assert("sh"@[0] != "go"@[0]);
    assert("sh"@[0] != "js"@[0]);
    assert("sh"@.len() != "mjs"@.len());
    assert("sh"@.len() != "cjs"@.len());
    assert("sh"@[0] != "ts"@[0]);
    assert("sh"@.len() != "tsx"@.len());
}

proof fn lemma_extension_30()
    ensures
        from_extension_spec("bash"@) == Some("application/x-sh"@),
{
    reveal_strlit("txt");
    reveal_strlit("log");
    reveal_strlit("text");
    reveal_strlit("md");
    reveal_strlit("markdown");
    reveal_strlit("csv");
    reveal_strlit("tsv");
    reveal_strlit("html");
    reveal_strlit("htm");
    reveal_strlit("css");
    reveal_strlit("json");
    reveal_strlit("yaml");
    reveal_strlit("yml");
    reveal_strlit("toml");
    reveal_strlit("xml");
    reveal_strlit("svg");
    reveal_strlit("rs");
    reveal_strlit("py");
    reveal_strlit("c");
    reveal_strlit("h");
    reveal_strlit("cpp");
    reveal_strlit("cc");
    reveal_strlit("hpp");
    reveal_strlit("go");
    reveal_strlit("js");
    reveal_strlit("mjs");
    reveal_strlit("cjs");
    reveal_strlit("ts");
    reveal_strlit("tsx");
    reveal_strlit("sh");
    reveal_strlit("bash");
    assert("bash"@.len() != "txt"@.len());
    assert("bash"@.len() != "log"@.len());
    assert("bash"@[0] != "text"@[0]);
    assert("bash"@.len() != "md"@.len());
    assert("bash"@.len() != "markdown"@.len());
    assert("bash"@.len() != "csv"@.len());
    assert("bash"@.len() != "tsv"@.len());
    assert("bash"@[0] != "html"@[0]);
    assert("bash"@.len() != "htm"@.len());
    assert("bash"@.len() != "css"@.len());
    assert("bash"@[0] != "json"@[0]);
    assert("bash"@[0] != "yaml"@[0]);
    assert("bash"@.len() != "yml"@.len());
    assert("bash"@[0] != "toml"@[0]);
    assert("bash"@.len() != "xml"@.len());
    assert("bash"@.len() != "svg"@.len());
    assert("bash"@.len() != "rs"@.len());
    assert("bash"@.len() != "py"@.len());
    assert("bash"@.len() != "c"@.len());
    assert("bash"@.len() != "h"@.len());
    assert("bash"@.len() != "cpp"@.len());
    assert("bash"@.len() != "cc"@.len());
    assert("bash"@.len() != "hpp"@.len());
    assert("bash"@.len() != "go"@.len());
    assert("bash"@.len() != "js"@.len());
    assert("bash"@.len() != "mjs"@.len());
    assert("bash"@.len() != "cjs"@.len());
    assert("bash"@.len() != "ts"@.len());
    assert("bash"@.len() != "tsx"@.len());
    assert("bash"@.len() != "sh"@.len());
}

proof fn lemma_extension_31()
    ensures
        from_extension_spec("zsh"@) == Some("application/x-sh"@),
{
    reveal_strlit("txt");
    reveal_strlit("log");
    reveal_strlit("text");
    reveal_strlit("md");
    reveal_strlit("markdown");
    reveal_strlit("csv");
    reveal_strlit("tsv");
    reveal_strlit("html");
    reveal_strlit("htm");
    reveal_strlit("css");
    reveal_strlit("json");
    reveal_strlit("yaml");
    reveal_strlit("yml");
    reveal_strlit("toml");
    reveal_strlit("xml");
    reveal_strlit("svg");
    reveal_strlit("rs");
    reveal_strlit("py");
    reveal_strlit("c");
    reveal_strlit("h");
    reveal_strlit("cpp");
    reveal_strlit("cc");
    reveal_strlit("hpp");
    reveal_strlit("go");
    reveal_strlit("js");
    reveal_strlit("mjs");
    reveal_strlit("cjs");
    reveal_strlit("ts");
    reveal_strlit("tsx");
    reveal_strlit("sh");
    reveal_strlit("bash");
    reveal_strlit("zsh");
    assert("zsh"@[0] != "txt"@[0]);
    assert("zsh"@[0] != "log"@[0]);
    assert("zsh"@.len() != "text"@.len());
    assert("zsh"@.len() != "md"@.len());
    assert("zsh"@.len() != "markdown"@.len());
    assert("zsh"@[0] != "csv"@[0]);
    assert("zsh"@[0] != "tsv"@[0]);
    assert("zsh"@.len() != "html"@.len());
    assert("zsh"@[0] != "htm"@[0]);
    assert("zsh"@[0] != "css"@[0]);
    assert("zsh"@.len() != "json"@.len());
    assert("zsh"@.len() != "yaml"@.len());
    assert("zsh"@[0] != "yml"@[0]);
    assert("zsh"@.len() != "toml"@.len());
    assert("zsh"@[0] != "xml"@[0]);
    assert("zsh"@[0] != "svg"@[0]);
    assert("zsh"@.len() != "rs"@.len());
    assert("zsh"@.len() != "py"@.len());
    assert("zsh"@.len() != "c"@.len());
    assert("zsh"@.len() != "h"@.len());
    assert("zsh"@[0] != "cpp"@[0]);
    assert("zsh"@.len() != "cc"@.len());
    assert("zsh"@[0] != "hpp"@[0]);
    assert("zsh"@.len() != "go"@.len());
    assert("zsh"@.len() != "js"@.len());
    assert("zsh"@[0] != "mjs"@[0]);
    assert("zsh"@[0] != "cjs"@[0]);
    assert("zsh"@.len() != "ts"@.len());
    assert("zsh"@[0] != "tsx"@[0]);
    assert("zsh"@.len() != "sh"@.len());
    assert("zsh"@.len() != "bash"@.len());
}

proof fn lemma_extension_32()
    ensures
        from_extension_spec("sql"@) == Some("application/sql"@),
{
    reveal_strlit("txt");
    reveal_strlit("log");
    reveal_strlit("text");
    reveal_strlit("md");
    reveal_strlit("markdown");
    reveal_strlit("csv");
    reveal_strlit("tsv");
    reveal_strlit("html");
    reveal_strlit("htm");
    reveal_strlit("css");
    reveal_strlit("json");
    reveal_strlit("yaml");
    reveal_strlit("yml");
    reveal_strlit("toml");
    reveal_strlit("xml");
    reveal_strlit("svg");
    reveal_strlit("rs");
    reveal_strlit("py");
    reveal_strlit("c");
    reveal_strlit("h");
    reveal_strlit("cpp");
    reveal_strlit("cc");
    reveal_strlit("hpp");
    reveal_strlit("go");
    reveal_strlit("js");
    reveal_strlit("mjs");
    reveal_strlit("cjs");
    reveal_strlit("ts");
    reveal_strlit("tsx");
    reveal_strlit("sh");
    reveal_strlit("bash");
    reveal_strlit("zsh");
    reveal_strlit("sql");
    assert("sql"@[0] != "txt"@[0]);
    assert("sql"@[0] != "log"@[0]);
    assert("sql"@.len() != "text"@.len());
    assert("sql"@.len() != "md"@.len());
    assert("sql"@.len() != "markdown"@.len());
    assert("sql"@[0] != "csv"@[0]);
    assert("sql"@[0] != "tsv"@[0]);
    assert("sql"@.len() != "html"@.len());
    assert("sql"@[0] != "htm"@[0]);
    assert("sql"@[0] != "css"@[0]);
    assert("sql"@.len() != "json"@.len());
    assert("sql"@.len() != "yaml"@.len());
    assert("sql"@[0] != "yml"@[0]);
    assert("sql"@.len() != "toml"@.len());
    assert("sql"@[0] != "xml"@[0]);
    assert("sql"@[1] != "svg"@[1]);
    assert("sql"@.len() != "rs"@.len());
    assert("sql"@.len() != "py"@.len());
    assert("sql"@.len() != "c"@.len());
    assert("sql"@.len() != "h"@.len());
    assert("sql"@[0] != "cpp"@[0]);
    assert("sql"@.len() != "cc"@.len());
    assert("sql"@[0] != "hpp"@[0]);
    assert("sql"@.len() != "go"@.len());
    assert("sql"@.len() != "js"@.len());
    assert("sql"@[0] != "mjs"@[0]);
    assert("sql"@[0] != "cjs"@[0]);
    assert("sql"@.len() != "ts"@.len());
    assert("sql"@[0] != "tsx"@[0]);
    assert("sql"@.len() != "sh"@.len());
    assert("sql"@.len() != "bash"@.len());
    assert("sql"@[0] != "zsh"@[0]);
}

/// The extension table: each extension known without magic bytes stands for
/// its fixed MIME type (`csv` for `text/csv`, `md` for `text/markdown`, ...).
pub proof fn lemma_extension_table()
    ensures
        from_extension_spec("txt"@) == Some("text/plain"@),
        from_extension_spec("log"@) == Some("text/plain"@),
        from_extension_spec("text"@) == Some("text/plain"@),
        from_extension_spec("md"@) == Some("text/markdown"@),
        from_extension_spec("markdown"@) == Some("text/markdown"@),
        from_extension_spec("csv"@) == Some("text/csv"@),
        from_extension_spec("tsv"@) == Some("text/tab-separated-values"@),
        from_extension_spec("html"@) == Some("text/html"@),
        from_extension_spec("htm"@) == Some("text/html"@),
        from_extension_spec("css"@) == Some("text/css"@),
        from_extension_spec("json"@) == Some("application/json"@),
        from_extension_spec("yaml"@) == Some("application/yaml"@),
        from_extension_spec("yml"@) == Some("application/yaml"@),
        from_extension_spec("toml"@) == Some("application/toml"@),
        from_extension_spec("xml"@) == Some("application/xml"@),
        from_extension_spec("svg"@) == Some("image/svg+xml"@),
        from_extension_spec("rs"@) == Some("text/x-rust"@),
        from_extension_spec("py"@) == Some("text/x-python"@),
        from_extension_spec("c"@) == Some("text/x-c"@),
        from_extension_spec("h"@) == Some("text/x-c"@),
        from_extension_spec("cpp"@) == Some("text/x-c++"@),
        from_extension_spec("cc"@) == Some("text/x-c++"@),
        from_extension_spec("hpp"@) == Some("text/x-c++"@),
        from_extension_spec("go"@) == Some("text/x-go"@),
        from_extension_spec("js"@) == Some("text/javascript"@),
        from_extension_spec("mjs"@) == Some("text/javascript"@),
        from_extension_spec("cjs"@) == Some("text/javascript"@),
        from_extension_spec("ts"@) == Some("text/x-typescript"@),
        from_extension_spec("tsx"@) == Some("text/x-typescript"@),
        from_extension_spec("sh"@) == Some("application/x-sh"@),
        from_extension_spec("bash"@) == Some("application/x-sh"@),
        from_extension_spec("zsh"@) == Some("application/x-sh"@),
        from_extension_spec("sql"@) == Some("application/sql"@),
{
    lemma_extension_0();
    lemma_extension_1();
    lemma_extension_2();
    lemma_extension_3();
    lemma_extension_4();
    lemma_extension_5();
    lemma_extension_6();
    lemma_extension_7();
    lemma_extension_8();
    lemma_extension_9();
    lemma_extension_10();
    lemma_extension_11();
    lemma_extension_12();
    lemma_extension_13();
    lemma_extension_14();
    lemma_extension_15();
    lemma_extension_16();
    lemma_extension_17();
    lemma_extension_18();
    lemma_extension_19();
    lemma_extension_20();
    lemma_extension_21();
    lemma_extension_22();
    lemma_extension_23();
    lemma_extension_24();
    lemma_extension_25();
    lemma_extension_26();
    lemma_extension_27();
    lemma_extension_28();
    lemma_extension_29();
    lemma_extension_30();
    lemma_extension_31();
    lemma_extension_32();
}

/// Only the listed extensions are known without magic bytes: any other
/// extension gives no MIME type.
pub proof fn lemma_extension_table_closed(e: Seq<char>)
    ensures
        from_extension_spec(e) is Some ==> {
            ||| e == "txt"@
            ||| e == "log"@
            ||| e == "text"@
            ||| e == "md"@
            ||| e == "markdown"@
            ||| e == "csv"@
            ||| e == "tsv"@
            ||| e == "html"@
            ||| e == "htm"@
            ||| e == "css"@
            ||| e == "json"@
            ||| e == "yaml"@
            ||| e == "yml"@
            ||| e == "toml"@
            ||| e == "xml"@
            ||| e == "svg"@
            ||| e == "rs"@
            ||| e == "py"@
            ||| e == "c"@
            ||| e == "h"@
            ||| e == "cpp"@
            ||| e == "cc"@
            ||| e == "hpp"@
            ||| e == "go"@
            ||| e == "js"@
            ||| e == "mjs"@
            ||| e == "cjs"@
            ||| e == "ts"@
            ||| e == "tsx"@
            ||| e == "sh"@
            ||| e == "bash"@
            ||| e == "zsh"@
            ||| e == "sql"@
        },
{
}

} // verus!
