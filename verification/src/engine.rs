//! The pipeline's own decisions between reading files and writing the index:
//! parsing one file's bytes with a per-language cached extractor, tallying a
//! batch of parse outcomes, and mapping parsed files onto the store's write
//! model.

use vstd::prelude::*;

use crate::extract::{extraction, Extractor, LangError};
use crate::treesitter::{grammar_loads, query_compiles};
use crate::language::{grammar_for, Grammar, JavaScript, Python, Registry, Rust, SourceLanguage, TypeScript};
use crate::lang::Lang;
use crate::parser::{FileParse, ParsedSymbol, RawRef};
use crate::store::{blake3_hex, hash_contents, NewFile, NewSymbol};

verus! {

/// A parsed file held in memory between the parse and the write.
#[derive(Debug, Clone)]
pub struct ParsedFile {
    /// Path of the file, as stored in the index.
    pub path: String,
    pub lang: Lang,
    pub hash: String,
    pub symbols: Vec<ParsedSymbol>,
    pub refs: Vec<RawRef>,
}

/// Why one file could not be read or parsed.
#[derive(Debug)]
pub enum EngineError {
    Io { path: String, source: std::io::Error },
    Lang(LangError),
    NoLanguage(String),
}

#[verifier::external_type_specification]
#[verifier::external_body]
pub struct ExIoError(std::io::Error);

/// Result of an index run.
#[derive(Debug, Default, Clone, Copy, PartialEq, Eq)]
pub struct IndexStats {
    pub files: usize,
    pub symbols: usize,
    /// Files skipped because they could not be read or parsed.
    pub skipped: usize,
}

/// The definition kinds of the built-in grammar of a language.
pub open spec fn builtin_def_kinds(l: Lang) -> Seq<Seq<char>> {
    match l {
        Lang::Python => Python.spec_def_node_kinds(),
        Lang::TypeScript => TypeScript.spec_def_node_kinds(),
        Lang::JavaScript => JavaScript.spec_def_node_kinds(),
        Lang::Rust => Rust.spec_def_node_kinds(),
    }
}

/// The cache slot of a language.
pub open spec fn slot_of(l: Lang) -> int {
    match l {
        Lang::Python => 0,
        Lang::TypeScript => 1,
        Lang::JavaScript => 2,
        Lang::Rust => 3,
    }
}

fn slot_index(l: Lang) -> (i: usize)
    ensures
        i == slot_of(l),
{
    match l {
        Lang::Python => 0,
        Lang::TypeScript => 1,
        Lang::JavaScript => 2,
        Lang::Rust => 3,
    }
}

/// The language of a cache slot.
pub open spec fn lang_of_slot(i: int) -> Lang {
    if i == 0 {
        Lang::Python
    } else if i == 1 {
        Lang::TypeScript
    } else if i == 2 {
        Lang::JavaScript
    } else {
        Lang::Rust
    }
}

/// One extractor per language, built on first use and reused after, so a
/// query is compiled once per language rather than once per file.
pub struct ExtractorCache {
    slots: Vec<Option<Extractor>>,
}

/// The symbol query of the built-in grammar of a language.
pub open spec fn builtin_symbol_query(l: Lang) -> Seq<char> {
    match l {
        Lang::Python => Python.spec_query_source(),
        Lang::TypeScript => TypeScript.spec_query_source(),
        Lang::JavaScript => JavaScript.spec_query_source(),
        Lang::Rust => Rust.spec_query_source(),
    }
}

/// The edge query of the built-in grammar of a language.
pub open spec fn builtin_edge_query(l: Lang) -> Seq<char> {
    match l {
        Lang::Python => Python.spec_edge_query_source(),
        Lang::TypeScript => TypeScript.spec_edge_query_source(),
        Lang::JavaScript => JavaScript.spec_edge_query_source(),
        Lang::Rust => Rust.spec_edge_query_source(),
    }
}

/// Whether `e` is an extractor for the built-in grammar of `l`.
pub open spec fn builtin_extractor(e: Extractor, l: Lang) -> bool {
    &&& e.wf()
    &&& e.lang() == l
    &&& e.symbol_source() == builtin_symbol_query(l)
    &&& e.edge_source() == builtin_edge_query(l)
    &&& e.def_kinds_view() == builtin_def_kinds(l)
}

/// What extracting `source` for language `l` through the cache yields,
/// `was_cached` telling whether an extractor for `l` was cached before: with
/// none cached, `SetLanguage` when the grammar does not load and `Query` when
/// a query does not compile; else the extraction with the built-in queries.
pub open spec fn cache_outcome(r: Result<FileParse, LangError>, l: Lang, was_cached: bool, source: Seq<u8>) -> bool {
    let sq = builtin_symbol_query(l);
    let eq = builtin_edge_query(l);
    if !was_cached && !grammar_loads(l) {
        r matches Err(LangError::SetLanguage(_))
    } else if !was_cached && !(query_compiles(l, sq) && query_compiles(l, eq)) {
        r matches Err(LangError::Query(_))
    } else {
        extraction(r, l, sq, eq, builtin_def_kinds(l), source)
    }
}

impl ExtractorCache {
    /// Every cached extractor is the one for its slot's language, built from
    /// that language's grammar and queries.
    pub closed spec fn wf(self) -> bool {
        &&& self.slots@.len() == 4
        &&& forall|i: int|
            0 <= i < 4 ==> (#[trigger] self.slots@[i] matches Some(e) ==> builtin_extractor(
                e,
                lang_of_slot(i),
            ))
    }

    /// Whether an extractor for language `l` is cached.
    pub closed spec fn cached(self, l: Lang) -> bool {
        self.slots@[slot_of(l)] is Some
    }

    /// An empty cache.
    pub fn new() -> (c: ExtractorCache)
        ensures
            c.wf(),
            forall|l: Lang| !c.cached(l),
    {
        let mut slots: Vec<Option<Extractor>> = Vec::new();
        slots.push(None);
        slots.push(None);
        slots.push(None);
        slots.push(None);
        ExtractorCache { slots }
    }

    /// Parse `source` with the cached extractor of `language`'s language,
    /// building and caching it first if needed (`cache_outcome`). An
    /// extractor, once cached, stays cached and is reused: building it (and
    /// so `SetLanguage` or `Query`) happens only when none is cached.
    pub fn extract(&mut self, language: &Grammar, source: &[u8]) -> (r: Result<FileParse, LangError>)
        requires
            old(self).wf(),
        ensures
            final(self).wf(),
            cache_outcome(r, language.spec_lang(), old(self).cached(language.spec_lang()), source@),
            forall|l: Lang| old(self).cached(l) ==> #[trigger] final(self).cached(l),
            forall|l: Lang| l != language.spec_lang() ==> (#[trigger] final(self).cached(l) == old(self).cached(l)),
            match r {
                Ok(_) => final(self).cached(language.spec_lang()),
                Err(LangError::SetLanguage(_)) | Err(LangError::Query(_)) => {
                    &&& !old(self).cached(language.spec_lang())
                    &&& !final(self).cached(language.spec_lang())
                },
                Err(LangError::Parse) | Err(LangError::Utf8(_)) => final(self).cached(language.spec_lang()),
            },
    {
        let lang = language.lang();
        let k = slot_index(lang);
        proof {
            lemma_grammar_kinds(*language);
        }
        let ghost was = old(self).cached(lang);
        let mut slot: Option<Extractor> = None;
        self.slots.set_and_swap(k, &mut slot);
        let mut extractor = match slot {
            Some(e) => e,
            None => match Extractor::new(language) {
                Ok(e) => e,
                Err(e) => {
                    assert(self.slots@[k as int] is None);
                    assert forall|i: int| 0 <= i < 4 implies (#[trigger] self.slots@[i] matches Some(x)
                        ==> builtin_extractor(x, lang_of_slot(i))) by {
                        if i != k {
                            assert(self.slots@[i] == old(self).slots@[i]);
                        }
                    }
                    return Err(e);
                },
            },
        };
        assert(builtin_extractor(extractor, lang));
        let r = extractor.extract(source);
        self.slots.set(k, Some(extractor));
        assert forall|i: int| 0 <= i < 4 implies (#[trigger] self.slots@[i] matches Some(x)
            ==> builtin_extractor(x, lang_of_slot(i))) by {
            if i != k {
                assert(self.slots@[i] == old(self).slots@[i]);
            }
        }
        assert(cache_outcome(r, lang, was, source@));
        r
    }
}

proof fn lemma_grammar_kinds(g: Grammar)
    ensures
        g.spec_def_node_kinds() == builtin_def_kinds(g.spec_lang()),
        g.spec_query_source() == builtin_symbol_query(g.spec_lang()),
        g.spec_edge_query_source() == builtin_edge_query(g.spec_lang()),
        lang_of_slot(slot_of(g.spec_lang())) == g.spec_lang(),
{
}

/// The parse a file's outcome carries: its symbols and references, or the
/// extraction error.
pub open spec fn parse_part(r: Result<ParsedFile, EngineError>) -> Result<FileParse, LangError> {
    match r {
        Ok(pf) => Ok(FileParse { symbols: pf.symbols, refs: pf.refs }),
        Err(EngineError::Lang(e)) => Err(e),
        Err(_) => Err(LangError::Parse),
    }
}

/// Parse the bytes of the file at `path` with the registry's grammar for it.
/// Fails with `NoLanguage` (carrying the path) exactly when no grammar is
/// registered for the path. Otherwise the parse is the cache's outcome for
/// that grammar's language (`cache_outcome`), wrapped as `Lang` on failure;
/// on success the file carries the path, the language and the blake3 hash of
/// the bytes. The cache only ever gains the extractor of that language.
pub fn parse_one(registry: &Registry, extractors: &mut ExtractorCache, path: &str, bytes: &[u8]) -> (r:
    Result<ParsedFile, EngineError>)
    requires
        old(extractors).wf(),
    ensures
        final(extractors).wf(),
        forall|l: Lang| old(extractors).cached(l) ==> #[trigger] final(extractors).cached(l),
        match grammar_for(registry.grammars(), path@) {
            None => {
                &&& r matches Err(EngineError::NoLanguage(p)) && p@ == path@
                &&& forall|l: Lang| #[trigger] final(extractors).cached(l) == old(extractors).cached(l)
            },
            Some(g) => {
                &&& cache_outcome(parse_part(r), g.spec_lang(), old(extractors).cached(g.spec_lang()), bytes@)
                &&& forall|l: Lang|
                    l != g.spec_lang() ==> (#[trigger] final(extractors).cached(l) == old(extractors).cached(l))
                &&& match r {
                    Ok(pf) => {
                        &&& pf.path@ == path@
                        &&& pf.lang == g.spec_lang()
                        &&& pf.hash@ == blake3_hex(bytes@)
                        &&& final(extractors).cached(g.spec_lang())
                    },
                    Err(EngineError::Lang(_)) => true,
                    Err(_) => false,
                }
            },
        },
{
    let language = match registry.for_path(path) {
        Some(l) => l,
        None => {
            return Err(EngineError::NoLanguage(path.to_owned()));
        },
    };
    let lang = language.lang();
    let parse = match extractors.extract(language, bytes) {
        Ok(p) => p,
        Err(e) => {
            return Err(EngineError::Lang(e));
        },
    };
    let hash = hash_contents(bytes);
    let FileParse { symbols, refs } = parse;
    let r = Ok(ParsedFile { path: path.to_owned(), lang, hash, symbols, refs });
    assert(parse_part(r) == Ok::<FileParse, LangError>(parse));
    r
}

/// The files that parsed, in order.
pub open spec fn parsed_ok(results: Seq<Result<ParsedFile, EngineError>>) -> Seq<ParsedFile>
    decreases results.len(),
{
    if results.len() == 0 {
        Seq::empty()
    } else {
        match results.last() {
            Ok(f) => parsed_ok(results.drop_last()).push(f),
            Err(_) => parsed_ok(results.drop_last()),
        }
    }
}

/// How many files failed.
pub open spec fn failed_count(results: Seq<Result<ParsedFile, EngineError>>) -> nat
    decreases results.len(),
{
    if results.len() == 0 {
        0
    } else {
        failed_count(results.drop_last()) + if results.last() is Err {
            1nat
        } else {
            0nat
        }
    }
}

/// Total number of symbols over a list of parsed files.
pub open spec fn symbol_total(files: Seq<ParsedFile>) -> nat
    decreases files.len(),
{
    if files.len() == 0 {
        0
    } else {
        symbol_total(files.drop_last()) + files.last().symbols@.len()
    }
}

proof fn lemma_counts(results: Seq<Result<ParsedFile, EngineError>>)
    ensures
        parsed_ok(results).len() + failed_count(results) == results.len(),
    decreases results.len(),
{
    if results.len() > 0 {
        lemma_counts(results.drop_last());
    }
}

/// The files of the outcomes that are `Ok`, in order.
pub open spec fn ok_files(results: Seq<Result<ParsedFile, EngineError>>) -> Seq<ParsedFile> {
    results.filter(|x: Result<ParsedFile, EngineError>| x is Ok).map_values(
        |x: Result<ParsedFile, EngineError>| x->Ok_0,
    )
}

/// How many outcomes are `Err`.
pub open spec fn err_count(results: Seq<Result<ParsedFile, EngineError>>) -> nat {
    results.filter(|x: Result<ParsedFile, EngineError>| x is Err).len()
}

/// Tallying keeps every file that parsed, whatever it holds, in order, and
/// skips exactly the outcomes that failed.
pub proof fn lemma_tally_keeps_every_parsed_file(results: Seq<Result<ParsedFile, EngineError>>)
    ensures
        parsed_ok(results) == ok_files(results),
        failed_count(results) == err_count(results),
    decreases results.len(),
{
    reveal(Seq::filter);
    if results.len() > 0 {
        let prev = results.drop_last();
        lemma_tally_keeps_every_parsed_file(prev);
        let okp = |x: Result<ParsedFile, EngineError>| x is Ok;
        let errp = |x: Result<ParsedFile, EngineError>| x is Err;
        let val = |x: Result<ParsedFile, EngineError>| x->Ok_0;
        assert(results.filter(okp) == if okp(results.last()) {
            prev.filter(okp).push(results.last())
        } else {
            prev.filter(okp)
        });
        assert(results.filter(errp) == if errp(results.last()) {
            prev.filter(errp).push(results.last())
        } else {
            prev.filter(errp)
        });
        if results.last() is Ok {
            assert(prev.filter(okp).push(results.last()).map_values(val) =~= prev.filter(okp).map_values(val).push(
                results.last()->Ok_0,
            ));
        }
    }
}

/// Split a batch of parse outcomes: the files that parsed, in order, and
/// the counts of files, of their symbols and of the files skipped. One
/// failed file never stops the rest.
pub fn tally(results: Vec<Result<ParsedFile, EngineError>>) -> (r: (Vec<ParsedFile>, IndexStats))
    requires
        symbol_total(parsed_ok(results@)) <= usize::MAX,
    ensures
        r.0@ == parsed_ok(results@),
        r.1.files == parsed_ok(results@).len(),
        r.1.skipped == failed_count(results@),
        r.1.symbols == symbol_total(parsed_ok(results@)),
        r.1.files + r.1.skipped == results@.len(),
        r.0@ == ok_files(results@),
        r.1.skipped == err_count(results@),
{
    proof {
        lemma_tally_keeps_every_parsed_file(results@);
    }
    let ghost all = results@;
    let mut rest = results;
    let mut parsed: Vec<ParsedFile> = Vec::new();
    let mut skipped: usize = 0;
    let mut symbols: usize = 0;
    // `pop` hands the outcomes out last first; reverse them once so the
    // second loop can take them in their original order.
    let mut reversed: Vec<Result<ParsedFile, EngineError>> = Vec::new();
    while rest.len() > 0
        invariant
            reversed@.len() + rest@.len() == all.len(),
            forall|i: int| 0 <= i < rest@.len() ==> #[trigger] rest@[i] == all[i],
            forall|i: int| 0 <= i < reversed@.len() ==> #[trigger] reversed@[i] == all[all.len() - 1 - i],
        decreases rest.len(),
    {
        let x = rest.pop().unwrap();
        reversed.push(x);
    }
    proof {
        lemma_counts(all);
        assert(all.take(0) =~= Seq::<Result<ParsedFile, EngineError>>::empty());
    }
    let mut i: usize = 0;
    let n = reversed.len();
    while reversed.len() > 0
        invariant
            n == all.len(),
            reversed@.len() + i == n,
            forall|j: int| 0 <= j < reversed@.len() ==> #[trigger] reversed@[j] == all[n - 1 - j],
            parsed@ == parsed_ok(all.take(i as int)),
            skipped == failed_count(all.take(i as int)),
            symbols == symbol_total(parsed_ok(all.take(i as int))),
            symbol_total(parsed_ok(all)) <= usize::MAX,
        decreases reversed.len(),
    {
        let x = reversed.pop().unwrap();
        assert(x == all[i as int]);
        proof {
            assert(all.take((i + 1) as int).drop_last() =~= all.take(i as int));
            lemma_prefix_total(all, (i + 1) as int);
            lemma_counts(all.take((i + 1) as int));
        }
        match x {
            Ok(file) => {
                proof {
                    let p = parsed_ok(all.take(i as int));
                    assert(parsed_ok(all.take((i + 1) as int)) == p.push(file));
                    assert(p.push(file).drop_last() =~= p);
                }
                let count = file.symbols.len();
                symbols = symbols + count;
                parsed.push(file);
            },
            Err(_) => {
                skipped = skipped + 1;
            },
        }
        i += 1;
    }
    assert(all.take(n as int) =~= all);
    let files = parsed.len();
    (parsed, IndexStats { files, symbols, skipped })
}

proof fn lemma_prefix_total(all: Seq<Result<ParsedFile, EngineError>>, k: int)
    requires
        0 <= k <= all.len(),
    ensures
        symbol_total(parsed_ok(all.take(k))) <= symbol_total(parsed_ok(all)),
    decreases all.len() - k,
{
    if k < all.len() {
        lemma_prefix_total(all, k + 1);
        let t = all.take(k + 1);
        assert(t.drop_last() =~= all.take(k));
        let p = parsed_ok(all.take(k));
        match t.last() {
            Ok(f) => {
                assert(parsed_ok(t) == p.push(f));
                assert(p.push(f).drop_last() =~= p);
            },
            Err(_) => {},
        }
    } else {
        assert(all.take(k) =~= all);
    }
}

/// The write model of a parsed file: its path, language, hash and symbols,
/// borrowed from it.
pub fn new_file(file: &ParsedFile) -> (r: NewFile<'_>)
    ensures
        r.path@ == file.path@,
        r.lang == file.lang,
        r.hash@ == file.hash@,
        r.symbols@.len() == file.symbols@.len(),
        forall|i: int|
            0 <= i < r.symbols@.len() ==> {
                let n = #[trigger] r.symbols@[i];
                let s = file.symbols@[i];
                &&& n.name@ == s.name@
                &&& n.kind == s.kind
                &&& n.span == s.span
                &&& match (n.signature, s.signature) {
                    (Some(a), Some(b)) => a@ == b@,
                    (None, None) => true,
                    _ => false,
                }
            },
{
    let mut symbols: Vec<NewSymbol<'_>> = Vec::new();
    let mut i: usize = 0;
    while i < file.symbols.len()
        invariant
            i <= file.symbols.len(),
            symbols@.len() == i,
            forall|j: int|
                0 <= j < i ==> {
                    let n = #[trigger] symbols@[j];
                    let s = file.symbols@[j];
                    &&& n.name@ == s.name@
                    &&& n.kind == s.kind
                    &&& n.span == s.span
                    &&& match (n.signature, s.signature) {
                        (Some(a), Some(b)) => a@ == b@,
                        (None, None) => true,
                        _ => false,
                    }
                },
        decreases file.symbols.len() - i,
    {
        let s = &file.symbols[i];
        let signature = match &s.signature {
            Some(sig) => Some(sig.as_str()),
            None => None,
        };
        symbols.push(NewSymbol { name: s.name.as_str(), kind: s.kind, span: s.span, signature });
        i += 1;
    }
    NewFile { path: file.path.as_str(), lang: file.lang, hash: file.hash.as_str(), symbols }
}

} // verus!
