//! The languages the extractor knows: each names its grammar, its two
//! queries and the syntax kinds that own nested definitions. Adding a
//! language means a new `SourceLanguage` impl, a `Grammar` variant and an entry in
//! `Registry::with_defaults`.
//!
//! Symbol queries capture each definition under its symbol kind's name
//! (`function`, `class`, `method`, `interface`, `type_alias`, `constant`)
//! with its identifier as `name`; edge queries capture each referenced
//! identifier under its edge kind's name (`calls`, `extends`, `references`).

use vstd::prelude::*;

use crate::index::views;
use crate::lang::Lang;
use crate::treesitter::{grammar, TsGrammar};

verus! {

/// Everything language-specific: the grammar and its queries.
pub trait SourceLanguage {
    /// The language this grammar parses.
    spec fn spec_lang(&self) -> Lang;

    /// The syntax kinds that own the symbols nested in them.
    spec fn spec_def_node_kinds(&self) -> Seq<Seq<char>>;

    fn lang(&self) -> (l: Lang)
        ensures
            l == self.spec_lang(),
    ;

    /// The grammar the language is parsed with.
    fn ts_language(&self) -> (g: TsGrammar)
        ensures
            g.lang() == self.spec_lang(),
    ;

    /// The text of the symbol query.
    spec fn spec_query_source(&self) -> Seq<char>;

    /// The text of the edge query.
    spec fn spec_edge_query_source(&self) -> Seq<char>;

    /// Query whose capture names are symbol-kind strings, plus a `name`
    /// capture for the identifier.
    fn query_source(&self) -> (q: &'static str)
        ensures
            q@ == self.spec_query_source(),
    ;

    /// Query whose capture names are edge-kind strings; each capture is the
    /// referenced identifier.
    fn edge_query_source(&self) -> (q: &'static str)
        ensures
            q@ == self.spec_edge_query_source(),
    ;

    /// Syntax kinds that own the symbols nested in them — the definitions a
    /// reference's source is looked up by. They must be the nodes the symbol
    /// query captures, so that spans match.
    fn def_node_kinds(&self) -> (k: &'static [&'static str])
        ensures
            views(k@) == self.spec_def_node_kinds(),
    ;
}

/// Python. Constants are module-level assignments to UPPER_SNAKE_CASE names.
pub struct Python;

/// The symbol query of Python.
pub const PYTHON_SYMBOL_QUERY: &'static str = "
(module (function_definition name: (identifier) @name) @function)
(module (decorated_definition definition: (function_definition name: (identifier) @name) @function))
(class_definition name: (identifier) @name) @class
(class_definition body: (block (function_definition name: (identifier) @name) @method))
(class_definition body: (block (decorated_definition definition: (function_definition name: (identifier) @name) @method)))
(module (expression_statement (assignment left: (identifier) @name) @constant))
";

/// The edge query of Python.
pub const PYTHON_EDGE_QUERY: &'static str = "
(call function: (identifier) @calls)
(call function: (attribute attribute: (identifier) @calls))
(class_definition superclasses: (argument_list (identifier) @extends))
(class_definition superclasses: (argument_list (attribute attribute: (identifier) @extends)))
";

impl SourceLanguage for Python {
    open spec fn spec_lang(&self) -> Lang {
        Lang::Python
    }

    open spec fn spec_def_node_kinds(&self) -> Seq<Seq<char>> {
        seq!["function_definition"@, "class_definition"@]
    }

    fn lang(&self) -> (l: Lang) {
        Lang::Python
    }

    fn ts_language(&self) -> (g: TsGrammar) {
        grammar(Lang::Python)
    }

    open spec fn spec_query_source(&self) -> Seq<char> {
        PYTHON_SYMBOL_QUERY@
    }

    fn query_source(&self) -> (q: &'static str) {
        PYTHON_SYMBOL_QUERY
    }

    open spec fn spec_edge_query_source(&self) -> Seq<char> {
        PYTHON_EDGE_QUERY@
    }

    fn edge_query_source(&self) -> (q: &'static str) {
        PYTHON_EDGE_QUERY
    }

    fn def_node_kinds(&self) -> (k: &'static [&'static str]) {
        let k: &'static [&'static str] = &["function_definition", "class_definition"];
        assert(views(k@) =~= self.spec_def_node_kinds());
        k
    }
}

/// TypeScript, parsed with the TSX grammar (a superset that also reads JSX,
/// so `.tsx` components work). Const-assigned arrow and function components
/// are captured at their declarator.
pub struct TypeScript;

/// The symbol query of TypeScript.
pub const TYPESCRIPT_SYMBOL_QUERY: &'static str = "
(function_declaration name: (identifier) @name) @function
(class_declaration name: (type_identifier) @name) @class
(abstract_class_declaration name: (type_identifier) @name) @class
(method_definition name: (property_identifier) @name) @method
(interface_declaration name: (type_identifier) @name) @interface
(type_alias_declaration name: (type_identifier) @name) @type_alias
(variable_declarator name: (identifier) @name value: [(arrow_function) (function_expression)]) @function
(program (lexical_declaration (variable_declarator name: (identifier) @name value: [(number) (string) (template_string) (true) (false) (null) (array) (object) (identifier) (member_expression) (call_expression) (new_expression) (binary_expression) (unary_expression) (as_expression)]) @constant))
(program (export_statement declaration: (lexical_declaration (variable_declarator name: (identifier) @name value: [(number) (string) (template_string) (true) (false) (null) (array) (object) (identifier) (member_expression) (call_expression) (new_expression) (binary_expression) (unary_expression) (as_expression)]) @constant)))
";

/// The edge query of TypeScript.
pub const TYPESCRIPT_EDGE_QUERY: &'static str = "
(call_expression function: (identifier) @calls)
(call_expression function: (member_expression property: (property_identifier) @calls))
(class_heritage (extends_clause value: (identifier) @extends))
(class_heritage (extends_clause value: (member_expression property: (property_identifier) @extends)))
((jsx_self_closing_element name: (identifier) @references) (#match? @references \"^[A-Z]\"))
((jsx_opening_element name: (identifier) @references) (#match? @references \"^[A-Z]\"))
";

impl SourceLanguage for TypeScript {
    open spec fn spec_lang(&self) -> Lang {
        Lang::TypeScript
    }

    open spec fn spec_def_node_kinds(&self) -> Seq<Seq<char>> {
        seq![
            "function_declaration"@,
            "class_declaration"@,
            "abstract_class_declaration"@,
            "method_definition"@,
            "variable_declarator"@,
        ]
    }

    fn lang(&self) -> (l: Lang) {
        Lang::TypeScript
    }

    fn ts_language(&self) -> (g: TsGrammar) {
        grammar(Lang::TypeScript)
    }

    open spec fn spec_query_source(&self) -> Seq<char> {
        TYPESCRIPT_SYMBOL_QUERY@
    }

    fn query_source(&self) -> (q: &'static str) {
        TYPESCRIPT_SYMBOL_QUERY
    }

    open spec fn spec_edge_query_source(&self) -> Seq<char> {
        TYPESCRIPT_EDGE_QUERY@
    }

    fn edge_query_source(&self) -> (q: &'static str) {
        TYPESCRIPT_EDGE_QUERY
    }

    fn def_node_kinds(&self) -> (k: &'static [&'static str]) {
        let k: &'static [&'static str] = &[
            "function_declaration",
            "class_declaration",
            "abstract_class_declaration",
            "method_definition",
            "variable_declarator",
        ];
        assert(views(k@) =~= self.spec_def_node_kinds());
        k
    }
}

/// JavaScript, including JSX, which the grammar reads natively.
pub struct JavaScript;

/// The symbol query of JavaScript.
pub const JAVASCRIPT_SYMBOL_QUERY: &'static str = "
(function_declaration name: (identifier) @name) @function
(class_declaration name: (identifier) @name) @class
(method_definition name: (property_identifier) @name) @method
(variable_declarator name: (identifier) @name value: [(arrow_function) (function_expression)]) @function
(program (lexical_declaration (variable_declarator name: (identifier) @name value: [(number) (string) (template_string) (true) (false) (null) (array) (object) (identifier) (member_expression) (call_expression) (new_expression) (binary_expression) (unary_expression)]) @constant))
(program (export_statement declaration: (lexical_declaration (variable_declarator name: (identifier) @name value: [(number) (string) (template_string) (true) (false) (null) (array) (object) (identifier) (member_expression) (call_expression) (new_expression) (binary_expression) (unary_expression)]) @constant)))
";

/// The edge query of JavaScript.
pub const JAVASCRIPT_EDGE_QUERY: &'static str = "
(call_expression function: (identifier) @calls)
(call_expression function: (member_expression property: (property_identifier) @calls))
(class_heritage (identifier) @extends)
(class_heritage (member_expression property: (property_identifier) @extends))
((jsx_self_closing_element name: (identifier) @references) (#match? @references \"^[A-Z]\"))
((jsx_opening_element name: (identifier) @references) (#match? @references \"^[A-Z]\"))
";

impl SourceLanguage for JavaScript {
    open spec fn spec_lang(&self) -> Lang {
        Lang::JavaScript
    }

    open spec fn spec_def_node_kinds(&self) -> Seq<Seq<char>> {
        seq![
            "function_declaration"@,
            "class_declaration"@,
            "method_definition"@,
            "variable_declarator"@,
        ]
    }

    fn lang(&self) -> (l: Lang) {
        Lang::JavaScript
    }

    fn ts_language(&self) -> (g: TsGrammar) {
        grammar(Lang::JavaScript)
    }

    open spec fn spec_query_source(&self) -> Seq<char> {
        JAVASCRIPT_SYMBOL_QUERY@
    }

    fn query_source(&self) -> (q: &'static str) {
        JAVASCRIPT_SYMBOL_QUERY
    }

    open spec fn spec_edge_query_source(&self) -> Seq<char> {
        JAVASCRIPT_EDGE_QUERY@
    }

    fn edge_query_source(&self) -> (q: &'static str) {
        JAVASCRIPT_EDGE_QUERY
    }

    fn def_node_kinds(&self) -> (k: &'static [&'static str]) {
        let k: &'static [&'static str] = &[
            "function_declaration",
            "class_declaration",
            "method_definition",
            "variable_declarator",
        ];
        assert(views(k@) =~= self.spec_def_node_kinds());
        k
    }
}

/// Rust. Structs, enums and unions are classes; traits are interfaces; free
/// functions and methods are both `function_item`, told apart by where they
/// stand.
pub struct Rust;

/// The symbol query of Rust.
pub const RUST_SYMBOL_QUERY: &'static str = "
(source_file (function_item name: (identifier) @name) @function)
(mod_item body: (declaration_list (function_item name: (identifier) @name) @function))
(impl_item body: (declaration_list (function_item name: (identifier) @name) @method))
(trait_item body: (declaration_list (function_item name: (identifier) @name) @method))
(trait_item body: (declaration_list (function_signature_item name: (identifier) @name) @method))
(struct_item name: (type_identifier) @name) @class
(enum_item name: (type_identifier) @name) @class
(union_item name: (type_identifier) @name) @class
(trait_item name: (type_identifier) @name) @interface
(type_item name: (type_identifier) @name) @type_alias
(const_item name: (identifier) @name) @constant
(static_item name: (identifier) @name) @constant
";

/// The edge query of Rust.
pub const RUST_EDGE_QUERY: &'static str = "
(call_expression function: (identifier) @calls)
(call_expression function: (scoped_identifier name: (identifier) @calls))
(call_expression function: (field_expression field: (field_identifier) @calls))
(trait_item bounds: (trait_bounds (type_identifier) @extends))
";

impl SourceLanguage for Rust {
    open spec fn spec_lang(&self) -> Lang {
        Lang::Rust
    }

    open spec fn spec_def_node_kinds(&self) -> Seq<Seq<char>> {
        seq!["function_item"@, "trait_item"@]
    }

    fn lang(&self) -> (l: Lang) {
        Lang::Rust
    }

    fn ts_language(&self) -> (g: TsGrammar) {
        grammar(Lang::Rust)
    }

    open spec fn spec_query_source(&self) -> Seq<char> {
        RUST_SYMBOL_QUERY@
    }

    fn query_source(&self) -> (q: &'static str) {
        RUST_SYMBOL_QUERY
    }

    open spec fn spec_edge_query_source(&self) -> Seq<char> {
        RUST_EDGE_QUERY@
    }

    fn edge_query_source(&self) -> (q: &'static str) {
        RUST_EDGE_QUERY
    }

    fn def_node_kinds(&self) -> (k: &'static [&'static str]) {
        let k: &'static [&'static str] = &["function_item", "trait_item"];
        assert(views(k@) =~= self.spec_def_node_kinds());
        k
    }
}

/// One of the registered languages.
pub enum Grammar {
    Python(Python),
    TypeScript(TypeScript),
    JavaScript(JavaScript),
    Rust(Rust),
}

impl SourceLanguage for Grammar {
    open spec fn spec_lang(&self) -> Lang {
        match self {
            Grammar::Python(g) => g.spec_lang(),
            Grammar::TypeScript(g) => g.spec_lang(),
            Grammar::JavaScript(g) => g.spec_lang(),
            Grammar::Rust(g) => g.spec_lang(),
        }
    }

    open spec fn spec_def_node_kinds(&self) -> Seq<Seq<char>> {
        match self {
            Grammar::Python(g) => g.spec_def_node_kinds(),
            Grammar::TypeScript(g) => g.spec_def_node_kinds(),
            Grammar::JavaScript(g) => g.spec_def_node_kinds(),
            Grammar::Rust(g) => g.spec_def_node_kinds(),
        }
    }

    open spec fn spec_query_source(&self) -> Seq<char> {
        match self {
            Grammar::Python(g) => g.spec_query_source(),
            Grammar::TypeScript(g) => g.spec_query_source(),
            Grammar::JavaScript(g) => g.spec_query_source(),
            Grammar::Rust(g) => g.spec_query_source(),
        }
    }

    open spec fn spec_edge_query_source(&self) -> Seq<char> {
        match self {
            Grammar::Python(g) => g.spec_edge_query_source(),
            Grammar::TypeScript(g) => g.spec_edge_query_source(),
            Grammar::JavaScript(g) => g.spec_edge_query_source(),
            Grammar::Rust(g) => g.spec_edge_query_source(),
        }
    }

    fn lang(&self) -> (l: Lang) {
        match self {
            Grammar::Python(g) => g.lang(),
            Grammar::TypeScript(g) => g.lang(),
            Grammar::JavaScript(g) => g.lang(),
            Grammar::Rust(g) => g.lang(),
        }
    }

    fn ts_language(&self) -> (g: TsGrammar) {
        match self {
            Grammar::Python(g) => g.ts_language(),
            Grammar::TypeScript(g) => g.ts_language(),
            Grammar::JavaScript(g) => g.ts_language(),
            Grammar::Rust(g) => g.ts_language(),
        }
    }

    fn query_source(&self) -> (q: &'static str) {
        match self {
            Grammar::Python(g) => g.query_source(),
            Grammar::TypeScript(g) => g.query_source(),
            Grammar::JavaScript(g) => g.query_source(),
            Grammar::Rust(g) => g.query_source(),
        }
    }

    fn edge_query_source(&self) -> (q: &'static str) {
        match self {
            Grammar::Python(g) => g.edge_query_source(),
            Grammar::TypeScript(g) => g.edge_query_source(),
            Grammar::JavaScript(g) => g.edge_query_source(),
            Grammar::Rust(g) => g.edge_query_source(),
        }
    }

    fn def_node_kinds(&self) -> (k: &'static [&'static str]) {
        match self {
            Grammar::Python(g) => g.def_node_kinds(),
            Grammar::TypeScript(g) => g.def_node_kinds(),
            Grammar::JavaScript(g) => g.def_node_kinds(),
            Grammar::Rust(g) => g.def_node_kinds(),
        }
    }
}

/// The extension of a path as `std::path::Path::extension` reads it (the
/// file name's part after its last dot, when there is one that does not
/// start the name), when it is valid UTF-8.
pub uninterp spec fn path_extension(path: Seq<char>) -> Option<Seq<char>>;

/// `std::path::Path::extension` of a path given as a string, copied out.
/// The result is claimed to be `path_extension` of the path, nothing more.
#[verifier::external_body]
fn extension_of(path: &str) -> (r: Option<String>)
    ensures
        match r {
            Some(e) => path_extension(path@) == Some(e@),
            None => path_extension(path@) is None,
        },
{
    std::path::Path::new(path).extension().and_then(|e| e.to_str()).map(|e| e.to_string())
}

/// Position of the first registered grammar for language `l`.
pub open spec fn first_for(langs: Seq<Grammar>, l: Lang) -> Option<int>
    decreases langs.len(),
{
    if langs.len() == 0 {
        None
    } else if langs.last().spec_lang() == l && first_for(langs.drop_last(), l) is None {
        Some(langs.len() - 1)
    } else {
        first_for(langs.drop_last(), l)
    }
}

/// The grammar registered for a path: the first grammar of the language its
/// extension names.
pub open spec fn grammar_for(grammars: Seq<Grammar>, path: Seq<char>) -> Option<Grammar> {
    match path_extension(path) {
        Some(e) => match Lang::for_extension(e) {
            Some(l) => match first_for(grammars, l) {
                Some(i) => Some(grammars[i]),
                None => None,
            },
            None => None,
        },
        None => None,
    }
}

/// The set of languages Skeletree knows how to parse.
pub struct Registry {
    langs: Vec<Grammar>,
}

impl Registry {
    /// The registered grammars, in registration order.
    pub closed spec fn grammars(self) -> Seq<Grammar> {
        self.langs@
    }

    /// The default language set: Python, TypeScript/TSX, JavaScript/JSX, Rust.
    pub fn with_defaults() -> (r: Registry)
        ensures
            r.grammars().map_values(|g: Grammar| g.spec_lang()) == seq![
                Lang::Python,
                Lang::TypeScript,
                Lang::JavaScript,
                Lang::Rust,
            ],
    {
        let mut langs: Vec<Grammar> = Vec::new();
        langs.push(Grammar::Python(Python));
        langs.push(Grammar::TypeScript(TypeScript));
        langs.push(Grammar::JavaScript(JavaScript));
        langs.push(Grammar::Rust(Rust));
        let r = Registry { langs };
        assert(r.grammars().map_values(|g: Grammar| g.spec_lang()) =~= seq![
            Lang::Python,
            Lang::TypeScript,
            Lang::JavaScript,
            Lang::Rust,
        ]);
        r
    }

    /// The grammar for a path, by extension: the first registered grammar of
    /// the extension's language; `None` when the path has no extension, the
    /// extension names no language, or no grammar for it is registered.
    pub fn for_path(&self, path: &str) -> (r: Option<&Grammar>)
        ensures
            match r {
                Some(g) => grammar_for(self.grammars(), path@) == Some(*g),
                None => grammar_for(self.grammars(), path@) is None,
            },
    {
        let ext = match extension_of(path) {
            Some(e) => e,
            None => return None,
        };
        let lang = match Lang::from_extension(ext.as_str()) {
            Some(l) => l,
            None => return None,
        };
        let mut i: usize = 0;
        while i < self.langs.len()
            invariant
                i <= self.langs.len(),
                first_for(self.langs@.take(i as int), lang) is None,
                path_extension(path@) == Some(ext@),
                Lang::for_extension(ext@) == Some(lang),
            decreases self.langs.len() - i,
        {
            let g = &self.langs[i];
            assert(self.langs@.take((i + 1) as int).drop_last() =~= self.langs@.take(i as int));
            if g.lang() == lang {
                proof {
                    assert(self.langs@.take((i + 1) as int).last() == *g);
                    assert(first_for(self.langs@.take((i + 1) as int), lang) == Some(i as int));
                    lemma_first_for_prefix(self.langs@, lang, (i + 1) as int, i as int);
                    assert(self.grammars()[i as int] == *g);
                    assert(path_extension(path@) == Some(ext@));
                    assert(Lang::for_extension(ext@) == Some(lang));
                }
                return Some(g);
            }
            i += 1;
        }
        assert(self.langs@.take(i as int) =~= self.langs@);
        None
    }
}

proof fn lemma_first_for_prefix(langs: Seq<Grammar>, l: Lang, k: int, i: int)
    requires
        0 < k <= langs.len(),
        first_for(langs.take(k), l) == Some(i),
    ensures
        first_for(langs, l) == Some(i),
    decreases langs.len() - k,
{
    if k < langs.len() {
        assert(langs.take(k + 1).drop_last() =~= langs.take(k));
        lemma_first_for_prefix(langs, l, k + 1, i);
    } else {
        assert(langs.take(k) =~= langs);
    }
}

impl Default for Registry {
    fn default() -> (r: Registry)
        ensures
            r.grammars().map_values(|g: Grammar| g.spec_lang()) == seq![
                Lang::Python,
                Lang::TypeScript,
                Lang::JavaScript,
                Lang::Rust,
            ],
    {
        Registry::with_defaults()
    }
}

} // verus!
