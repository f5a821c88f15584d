//! File types and their detection from file names.
use vstd::prelude::*;
use crate::text::{lowercase, chars_to_lowercase, to_chars, chars_eq, from_chars};

verus! {

/// The kinds of file the index knows how to chunk.
#[derive(Debug, Clone, Copy, PartialEq, Eq, Structural)]
pub enum FileType {
    Rust,
    Markdown,
    Yaml,
    Json,
    Toml,
    Plaintext,
}

/// The name a file type is written as.
pub open spec fn file_type_name(t: FileType) -> Seq<char> {
    match t {
        FileType::Rust => "rust"@,
        FileType::Markdown => "markdown"@,
        FileType::Yaml => "yaml"@,
        FileType::Json => "json"@,
        FileType::Toml => "toml"@,
        FileType::Plaintext => "plaintext"@,
    }
}

/// The file type a name stands for.
pub open spec fn parse_file_type_spec(s: Seq<char>) -> Option<FileType> {
    if s == "rust"@ {
        Some(FileType::Rust)
    } else if s == "markdown"@ {
        Some(FileType::Markdown)
    } else if s == "yaml"@ {
        Some(FileType::Yaml)
    } else if s == "json"@ {
        Some(FileType::Json)
    } else if s == "toml"@ {
        Some(FileType::Toml)
    } else if s == "plaintext"@ {
        Some(FileType::Plaintext)
    } else {
        None
    }
}

/// A new `String` holding the characters of `s`.
pub(crate) fn owned(s: &str) -> (r: String)
    ensures
        r@ == s@,
{
    from_chars(to_chars(s).as_slice())
}

/// Whether the characters `s` spell the text `lit`.
pub(crate) fn is_text(s: &[char], lit: &str) -> (r: bool)
    ensures
        r == (s@ == lit@),
{
    let l = to_chars(lit);
    chars_eq(s, l.as_slice())
}

impl FileType {
    /// The name of the file type (its display form).
    pub fn to_string(&self) -> (r: String)
        ensures
            r@ == file_type_name(*self),
    {
        match self {
            FileType::Rust => owned("rust"),
            FileType::Markdown => owned("markdown"),
            FileType::Yaml => owned("yaml"),
            FileType::Json => owned("json"),
            FileType::Toml => owned("toml"),
            FileType::Plaintext => owned("plaintext"),
        }
    }

    /// The file type named by `s`, if any.
    pub fn parse_name(s: &str) -> (r: Option<FileType>)
        ensures
            r == parse_file_type_spec(s@),
    {
        let c = to_chars(s);
        let c = c.as_slice();
        if is_text(c, "rust") {
            Some(FileType::Rust)
        } else if is_text(c, "markdown") {
            Some(FileType::Markdown)
        } else if is_text(c, "yaml") {
            Some(FileType::Yaml)
        } else if is_text(c, "json") {
            Some(FileType::Json)
        } else if is_text(c, "toml") {
            Some(FileType::Toml)
        } else if is_text(c, "plaintext") {
            Some(FileType::Plaintext)
        } else {
            None
        }
    }
}

impl std::str::FromStr for FileType {
    type Err = String;

    /// The file type named by `s`; otherwise the message `"Unknown file type: "` followed by `s`.
    fn from_str(s: &str) -> (r: Result<Self, Self::Err>)
        ensures
            match r {
                Ok(t) => parse_file_type_spec(s@) == Some(t),
                Err(m) => parse_file_type_spec(s@) is None && m@ == "Unknown file type: "@ + s@,
            },
    {
        match FileType::parse_name(s) {
            Some(t) => Ok(t),
            None => {
                let mut msg = owned("Unknown file type: ");
                msg.append(s);
                proof {
                    reveal_strlit("Unknown file type: ");
                }
                Err(msg)
            },
        }
    }
}

/// The file type of a (lowercase) extension.
pub open spec fn ext_type(e: Seq<char>) -> Option<FileType> {
    if e == "rs"@ {
        Some(FileType::Rust)
    } else if e == "md"@ || e == "mdx"@ {
        Some(FileType::Markdown)
    } else if e == "yml"@ || e == "yaml"@ {
        Some(FileType::Yaml)
    } else if e == "json"@ {
        Some(FileType::Json)
    } else if e == "toml"@ {
        Some(FileType::Toml)
    } else if e == "txt"@ || e == "cfg"@ || e == "ini"@ || e == "env"@ || e == "conf"@ {
        Some(FileType::Plaintext)
    } else {
        None
    }
}

/// The file type registered for an extension.
pub fn extension_map(ext: &[char]) -> (r: Option<FileType>)
    ensures
        r == ext_type(ext@),
{
    if is_text(ext, "rs") {
        Some(FileType::Rust)
    } else if is_text(ext, "md") || is_text(ext, "mdx") {
        Some(FileType::Markdown)
    } else if is_text(ext, "yml") || is_text(ext, "yaml") {
        Some(FileType::Yaml)
    } else if is_text(ext, "json") {
        Some(FileType::Json)
    } else if is_text(ext, "toml") {
        Some(FileType::Toml)
    } else if is_text(ext, "txt") || is_text(ext, "cfg") || is_text(ext, "ini") || is_text(ext, "env")
        || is_text(ext, "conf") {
        Some(FileType::Plaintext)
    } else {
        None
    }
}

/// The extension of a path as `Path::extension` reports it (then taken as UTF-8 text).
pub uninterp spec fn path_extension(p: Seq<char>) -> Option<Seq<char>>;

/// Calls `std::path::Path::extension` on `p`: what follows the last `.` of the
/// file name, unless the name has no `.` or only a leading one. The contract
/// names the answer `path_extension(p)`; it does not restate how the file name
/// is found.
#[verifier::external_body]
fn extension_of(p: &str) -> (r: Option<Vec<char>>)
    ensures
        r matches Some(e) ==> path_extension(p@) == Some(e@),
        r is None ==> path_extension(p@) is None,
{
    std::path::Path::new(p).extension().and_then(|e| e.to_str()).map(|e| e.chars().collect())
}

/// The file type of `file_path`, from its extension, compared without regard to case.
pub open spec fn spec_detect_file_type(file_path: Seq<char>) -> Option<FileType> {
    match path_extension(file_path) {
        Some(e) => ext_type(lowercase(e)),
        None => None,
    }
}

/// Detects the file type from a path's extension.
pub fn detect_file_type(file_path: &str) -> (r: Option<FileType>)
    ensures
        r == spec_detect_file_type(file_path@),
{
    match extension_of(file_path) {
        Some(e) => {
            let lower = chars_to_lowercase(e.as_slice());
            extension_map(lower.as_slice())
        },
        None => None,
    }
}

/// Files above this many bytes are left out of the index.
pub const MAX_FILE_SIZE: u64 = 1048576;

/// The type under which a scan indexes a file of `size` bytes at `relative_path`:
/// none for an empty file, one above `MAX_FILE_SIZE`, or one of unknown type.
pub open spec fn spec_scanned_type(size: u64, relative_path: Seq<char>) -> Option<FileType> {
    if size == 0 || size > MAX_FILE_SIZE {
        None
    } else {
        spec_detect_file_type(relative_path)
    }
}

/// Decides whether a scan indexes a file, from its size and its path
/// relative to the project root, and under which type.
pub fn scanned_type(size: u64, relative_path: &str) -> (r: Option<FileType>)
    ensures
        r == spec_scanned_type(size, relative_path@),
{
    if size == 0 || size > MAX_FILE_SIZE {
        None
    } else {
        detect_file_type(relative_path)
    }
}

/// Writing a file type and reading the name back gives the same type.
pub proof fn file_type_name_roundtrip(t: FileType)
    ensures
        parse_file_type_spec(file_type_name(t)) == Some(t),
{
    reveal_strlit("rust");
    assert("rust"@[0] == 'r');
    reveal_strlit("markdown");
    assert("markdown"@[0] == 'm');
    reveal_strlit("yaml");
    assert("yaml"@[0] == 'y');
    reveal_strlit("json");
    assert("json"@[0] == 'j');
    reveal_strlit("toml");
    assert("toml"@[0] == 't');
    reveal_strlit("plaintext");
    assert("plaintext"@[0] == 'p');
}


/// Every registered extension gives its type, whatever the case of its
/// letters: `rs` Rust; `md` and `mdx` Markdown; `yml` and `yaml` YAML; `json`
/// JSON; `toml` TOML; `txt`, `cfg`, `ini`, `env` and `conf` plain text.
pub proof fn registered_extensions(p: Seq<char>, e: Seq<char>)
    requires
        path_extension(p) == Some(e),
    ensures
        lowercase(e) == "rs"@ ==> spec_detect_file_type(p) == Some(FileType::Rust),
        lowercase(e) == "md"@ ==> spec_detect_file_type(p) == Some(FileType::Markdown),
        lowercase(e) == "mdx"@ ==> spec_detect_file_type(p) == Some(FileType::Markdown),
        lowercase(e) == "yml"@ ==> spec_detect_file_type(p) == Some(FileType::Yaml),
        lowercase(e) == "yaml"@ ==> spec_detect_file_type(p) == Some(FileType::Yaml),
        lowercase(e) == "json"@ ==> spec_detect_file_type(p) == Some(FileType::Json),
        lowercase(e) == "toml"@ ==> spec_detect_file_type(p) == Some(FileType::Toml),
        lowercase(e) == "txt"@ ==> spec_detect_file_type(p) == Some(FileType::Plaintext),
        lowercase(e) == "cfg"@ ==> spec_detect_file_type(p) == Some(FileType::Plaintext),
        lowercase(e) == "ini"@ ==> spec_detect_file_type(p) == Some(FileType::Plaintext),
        lowercase(e) == "env"@ ==> spec_detect_file_type(p) == Some(FileType::Plaintext),
        lowercase(e) == "conf"@ ==> spec_detect_file_type(p) == Some(FileType::Plaintext),
{
    reveal_strlit("rs");
    assert("rs"@[0] == 'r' && "rs"@[1] == 's');
    reveal_strlit("md");
    assert("md"@[0] == 'm' && "md"@[1] == 'd');
    reveal_strlit("mdx");
    assert("mdx"@[0] == 'm' && "mdx"@[1] == 'd');
    reveal_strlit("yml");
    assert("yml"@[0] == 'y' && "yml"@[1] == 'm');
    reveal_strlit("yaml");
    assert("yaml"@[0] == 'y' && "yaml"@[1] == 'a');
    reveal_strlit("json");
    assert("json"@[0] == 'j' && "json"@[1] == 's');
    reveal_strlit("toml");
    assert("toml"@[0] == 't' && "toml"@[1] == 'o');
    reveal_strlit("txt");
    assert("txt"@[0] == 't' && "txt"@[1] == 'x');
    reveal_strlit("cfg");
    assert("cfg"@[0] == 'c' && "cfg"@[1] == 'f');
    reveal_strlit("ini");
    assert("ini"@[0] == 'i' && "ini"@[1] == 'n');
    reveal_strlit("env");
    assert("env"@[0] == 'e' && "env"@[1] == 'n');
    reveal_strlit("conf");
    assert("conf"@[0] == 'c' && "conf"@[1] == 'o');
}

} // verus!
