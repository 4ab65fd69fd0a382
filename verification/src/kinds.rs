//! What a symbol is and what an edge encodes, with the exact strings the index
//! stores for them.

use vstd::prelude::*;

use crate::error::ParseError;
use crate::text::str_eq;

verus! {

broadcast use vstd::string::group_string_axioms;

/// What a symbol is.
#[derive(Debug, Clone, Copy, PartialEq, Eq, Hash, Structural)]
pub enum SymbolKind {
    Function,
    Class,
    Method,
    Interface,
    TypeAlias,
    Constant,
}

impl SymbolKind {
    /// Canonical string stored for the kind.
    pub open spec fn canonical(self) -> Seq<char> {
        match self {
            SymbolKind::Function => "function"@,
            SymbolKind::Class => "class"@,
            SymbolKind::Method => "method"@,
            SymbolKind::Interface => "interface"@,
            SymbolKind::TypeAlias => "type_alias"@,
            SymbolKind::Constant => "constant"@,
        }
    }

    /// The kind whose canonical string is `s`, if any.
    pub open spec fn parse_canonical(s: Seq<char>) -> Option<SymbolKind> {
        if s == "function"@ {
            Some(SymbolKind::Function)
        } else if s == "class"@ {
            Some(SymbolKind::Class)
        } else if s == "method"@ {
            Some(SymbolKind::Method)
        } else if s == "interface"@ {
            Some(SymbolKind::Interface)
        } else if s == "type_alias"@ {
            Some(SymbolKind::TypeAlias)
        } else if s == "constant"@ {
            Some(SymbolKind::Constant)
        } else {
            None
        }
    }

    /// Canonical string stored in the index for this kind.
    pub fn as_str(&self) -> (s: &'static str)
        ensures
            s@ == self.canonical(),
    {
        match self {
            SymbolKind::Function => "function",
            SymbolKind::Class => "class",
            SymbolKind::Method => "method",
            SymbolKind::Interface => "interface",
            SymbolKind::TypeAlias => "type_alias",
            SymbolKind::Constant => "constant",
        }
    }

    /// The canonical string as an owned `String` (what `Display` would print).
    pub fn to_string(&self) -> (s: String)
        ensures
            s@ == self.canonical(),
    {
        self.as_str().to_owned()
    }

    /// Parses a stored string back into a kind; any other string is refused
    /// with `UnknownSymbolKind` carrying it.
    pub fn from_name(s: &str) -> (r: Result<SymbolKind, ParseError>)
        ensures
            match r {
                Ok(k) => SymbolKind::parse_canonical(s@) == Some(k),
                Err(e) => SymbolKind::parse_canonical(s@) is None && (e matches ParseError::UnknownSymbolKind(t) && t@ == s@),
            },
    {
        if str_eq(s, "function") {
            Ok(SymbolKind::Function)
        } else if str_eq(s, "class") {
            Ok(SymbolKind::Class)
        } else if str_eq(s, "method") {
            Ok(SymbolKind::Method)
        } else if str_eq(s, "interface") {
            Ok(SymbolKind::Interface)
        } else if str_eq(s, "type_alias") {
            Ok(SymbolKind::TypeAlias)
        } else if str_eq(s, "constant") {
            Ok(SymbolKind::Constant)
        } else {
            Err(ParseError::UnknownSymbolKind(s.to_owned()))
        }
    }
}

impl std::str::FromStr for SymbolKind {
    type Err = ParseError;

    fn from_str(s: &str) -> (r: Result<SymbolKind, ParseError>)
        ensures
            match r {
                Ok(k) => SymbolKind::parse_canonical(s@) == Some(k),
                Err(e) => SymbolKind::parse_canonical(s@) is None && (e matches ParseError::UnknownSymbolKind(t) && t@ == s@),
            },
    {
        SymbolKind::from_name(s)
    }
}

/// The relationship an edge encodes.
#[derive(Debug, Clone, Copy, PartialEq, Eq, Hash, Structural)]
pub enum EdgeKind {
    Imports,
    Calls,
    Defines,
    References,
    Extends,
}

impl EdgeKind {
    /// Canonical string stored for the kind.
    pub open spec fn canonical(self) -> Seq<char> {
        match self {
            EdgeKind::Imports => "imports"@,
            EdgeKind::Calls => "calls"@,
            EdgeKind::Defines => "defines"@,
            EdgeKind::References => "references"@,
            EdgeKind::Extends => "extends"@,
        }
    }

    /// The kind whose canonical string is `s`, if any.
    pub open spec fn parse_canonical(s: Seq<char>) -> Option<EdgeKind> {
        if s == "imports"@ {
            Some(EdgeKind::Imports)
        } else if s == "calls"@ {
            Some(EdgeKind::Calls)
        } else if s == "defines"@ {
            Some(EdgeKind::Defines)
        } else if s == "references"@ {
            Some(EdgeKind::References)
        } else if s == "extends"@ {
            Some(EdgeKind::Extends)
        } else {
            None
        }
    }

    /// Canonical string stored in the index for this kind.
    pub fn as_str(&self) -> (s: &'static str)
        ensures
            s@ == self.canonical(),
    {
        match self {
            EdgeKind::Imports => "imports",
            EdgeKind::Calls => "calls",
            EdgeKind::Defines => "defines",
            EdgeKind::References => "references",
            EdgeKind::Extends => "extends",
        }
    }

    /// The canonical string as an owned `String` (what `Display` would print).
    pub fn to_string(&self) -> (s: String)
        ensures
            s@ == self.canonical(),
    {
        self.as_str().to_owned()
    }

    /// Parses a stored string back into a kind; any other string is refused
    /// with `UnknownEdgeKind` carrying it.
    pub fn from_name(s: &str) -> (r: Result<EdgeKind, ParseError>)
        ensures
            match r {
                Ok(k) => EdgeKind::parse_canonical(s@) == Some(k),
                Err(e) => EdgeKind::parse_canonical(s@) is None && (e matches ParseError::UnknownEdgeKind(t) && t@ == s@),
            },
    {
        if str_eq(s, "imports") {
            Ok(EdgeKind::Imports)
        } else if str_eq(s, "calls") {
            Ok(EdgeKind::Calls)
        } else if str_eq(s, "defines") {
            Ok(EdgeKind::Defines)
        } else if str_eq(s, "references") {
            Ok(EdgeKind::References)
        } else if str_eq(s, "extends") {
            Ok(EdgeKind::Extends)
        } else {
            Err(ParseError::UnknownEdgeKind(s.to_owned()))
        }
    }
}

impl std::str::FromStr for EdgeKind {
    type Err = ParseError;

    fn from_str(s: &str) -> (r: Result<EdgeKind, ParseError>)
        ensures
            match r {
                Ok(k) => EdgeKind::parse_canonical(s@) == Some(k),
                Err(e) => EdgeKind::parse_canonical(s@) is None && (e matches ParseError::UnknownEdgeKind(t) && t@ == s@),
            },
    {
        EdgeKind::from_name(s)
    }
}

/// A symbol kind's stored string parses back to that kind, and a string
/// parses to a kind exactly when it is that kind's stored string.
pub proof fn lemma_symbol_kind_round_trip(k: SymbolKind, s: Seq<char>)
    ensures
        SymbolKind::parse_canonical(k.canonical()) == Some(k),
        SymbolKind::parse_canonical(s) == Some(k) <==> s == k.canonical(),
{
    reveal_strlit("function");
    reveal_strlit("class");
    reveal_strlit("method");
    reveal_strlit("interface");
    reveal_strlit("type_alias");
    reveal_strlit("constant");
    assert("function"@.len() == 8);
    assert("class"@.len() == 5);
    assert("method"@.len() == 6);
    assert("interface"@.len() == 9);
    assert("type_alias"@.len() == 10);
    assert("constant"@.len() == 8);
    assert("function"@ != "class"@);
    assert("function"@ != "method"@);
    assert("function"@ != "interface"@);
    assert("function"@ != "type_alias"@);
    assert("function"@[0] != "constant"@[0]);
    assert("function"@ != "constant"@);
    assert("class"@ != "method"@);
    assert("class"@ != "interface"@);
    assert("class"@ != "type_alias"@);
    assert("class"@ != "constant"@);
    assert("method"@ != "interface"@);
    assert("method"@ != "type_alias"@);
    assert("method"@ != "constant"@);
    assert("interface"@ != "type_alias"@);
    assert("interface"@ != "constant"@);
    assert("type_alias"@ != "constant"@);
}

/// An edge kind's stored string parses back to that kind, and a string
/// parses to a kind exactly when it is that kind's stored string.
pub proof fn lemma_edge_kind_round_trip(k: EdgeKind, s: Seq<char>)
    ensures
        EdgeKind::parse_canonical(k.canonical()) == Some(k),
        EdgeKind::parse_canonical(s) == Some(k) <==> s == k.canonical(),
{
    reveal_strlit("imports");
    reveal_strlit("calls");
    reveal_strlit("defines");
    reveal_strlit("references");
    reveal_strlit("extends");
    assert("imports"@.len() == 7);
    assert("calls"@.len() == 5);
    assert("defines"@.len() == 7);
    assert("references"@.len() == 10);
    assert("extends"@.len() == 7);
    assert("imports"@ != "calls"@);
    assert("imports"@[0] != "defines"@[0]);
    assert("imports"@ != "defines"@);
    assert("imports"@ != "references"@);
    assert("imports"@[0] != "extends"@[0]);
    assert("imports"@ != "extends"@);
    assert("calls"@ != "defines"@);
    assert("calls"@ != "references"@);
    assert("calls"@ != "extends"@);
    assert("defines"@ != "references"@);
    assert("defines"@[0] != "extends"@[0]);
    assert("defines"@ != "extends"@);
    assert("references"@ != "extends"@);
}

} // verus!
