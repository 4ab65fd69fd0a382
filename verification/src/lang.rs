//! The languages Skeletree can parse, their file extensions and stored names.

use vstd::prelude::*;

use crate::error::ParseError;
use crate::text::str_eq;

verus! {

broadcast use vstd::string::group_string_axioms;

/// A language Skeletree can parse.
#[derive(Debug, Clone, Copy, PartialEq, Eq, Hash, Structural)]
pub enum Lang {
    TypeScript,
    JavaScript,
    Python,
    Rust,
}

impl Lang {
    /// The language of a file extension (without the dot), if supported.
    pub open spec fn for_extension(ext: Seq<char>) -> Option<Lang> {
        if ext == "ts"@ || ext == "tsx"@ || ext == "mts"@ || ext == "cts"@ {
            Some(Lang::TypeScript)
        } else if ext == "js"@ || ext == "jsx"@ || ext == "mjs"@ || ext == "cjs"@ {
            Some(Lang::JavaScript)
        } else if ext == "py"@ || ext == "pyi"@ {
            Some(Lang::Python)
        } else if ext == "rs"@ {
            Some(Lang::Rust)
        } else {
            None
        }
    }

    /// Canonical lowercase name stored for the language.
    pub open spec fn canonical(self) -> Seq<char> {
        match self {
            Lang::TypeScript => "typescript"@,
            Lang::JavaScript => "javascript"@,
            Lang::Python => "python"@,
            Lang::Rust => "rust"@,
        }
    }

    /// The language whose canonical name is `s`, if any.
    pub open spec fn parse_canonical(s: Seq<char>) -> Option<Lang> {
        if s == "typescript"@ {
            Some(Lang::TypeScript)
        } else if s == "javascript"@ {
            Some(Lang::JavaScript)
        } else if s == "python"@ {
            Some(Lang::Python)
        } else if s == "rust"@ {
            Some(Lang::Rust)
        } else {
            None
        }
    }

    /// Map a file extension (without the dot) to a language, if supported.
    pub fn from_extension(ext: &str) -> (r: Option<Lang>)
        ensures
            r == Lang::for_extension(ext@),
    {
        if str_eq(ext, "ts") || str_eq(ext, "tsx") || str_eq(ext, "mts") || str_eq(ext, "cts") {
            Some(Lang::TypeScript)
        } else if str_eq(ext, "js") || str_eq(ext, "jsx") || str_eq(ext, "mjs") || str_eq(
            ext,
            "cjs",
        ) {
            Some(Lang::JavaScript)
        } else if str_eq(ext, "py") || str_eq(ext, "pyi") {
            Some(Lang::Python)
        } else if str_eq(ext, "rs") {
            Some(Lang::Rust)
        } else {
            None
        }
    }

    /// Canonical lowercase name — the exact string stored for the language.
    pub fn as_str(&self) -> (s: &'static str)
        ensures
            s@ == self.canonical(),
    {
        match self {
            Lang::TypeScript => "typescript",
            Lang::JavaScript => "javascript",
            Lang::Python => "python",
            Lang::Rust => "rust",
        }
    }

    /// The canonical name as an owned `String` (what `Display` would print).
    pub fn to_string(&self) -> (s: String)
        ensures
            s@ == self.canonical(),
    {
        self.as_str().to_owned()
    }

    /// Parses a stored name back into a language; any other string is
    /// refused with `UnknownLang` carrying it.
    pub fn from_name(s: &str) -> (r: Result<Lang, ParseError>)
        ensures
            match r {
                Ok(l) => Lang::parse_canonical(s@) == Some(l),
                Err(e) => Lang::parse_canonical(s@) is None && (e matches ParseError::UnknownLang(t) && t@ == s@),
            },
    {
        if str_eq(s, "typescript") {
            Ok(Lang::TypeScript)
        } else if str_eq(s, "javascript") {
            Ok(Lang::JavaScript)
        } else if str_eq(s, "python") {
            Ok(Lang::Python)
        } else if str_eq(s, "rust") {
            Ok(Lang::Rust)
        } else {
            Err(ParseError::UnknownLang(s.to_owned()))
        }
    }
}

impl std::str::FromStr for Lang {
    type Err = ParseError;

    fn from_str(s: &str) -> (r: Result<Lang, ParseError>)
        ensures
            match r {
                Ok(l) => Lang::parse_canonical(s@) == Some(l),
                Err(e) => Lang::parse_canonical(s@) is None && (e matches ParseError::UnknownLang(t) && t@ == s@),
            },
    {
        Lang::from_name(s)
    }
}

/// A language's stored name parses back to that language, and a string
/// parses to a language exactly when it is that language's stored name.
pub proof fn lemma_lang_round_trip(l: Lang, s: Seq<char>)
    ensures
        Lang::parse_canonical(l.canonical()) == Some(l),
        Lang::parse_canonical(s) == Some(l) <==> s == l.canonical(),
{
    reveal_strlit("typescript");
    reveal_strlit("javascript");
    reveal_strlit("python");
    reveal_strlit("rust");
    assert("typescript"@.len() == 10);
    assert("javascript"@.len() == 10);
    assert("python"@.len() == 6);
    assert("rust"@.len() == 4);
    assert("typescript"@[0] != "javascript"@[0]);
    assert("typescript"@ != "javascript"@);
    assert("typescript"@ != "python"@);
    assert("typescript"@ != "rust"@);
    assert("javascript"@ != "python"@);
    assert("javascript"@ != "rust"@);
    assert("python"@ != "rust"@);
}

} // verus!
