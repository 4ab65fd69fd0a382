//! Turning query captures into symbols and raw references.
//!
//! Tree-sitter finds the captures (see `treesitter`); what they mean is
//! decided here: a symbol is a match holding a `name` capture and a capture
//! named after a symbol kind; constants must read as UPPER_SNAKE_CASE; a
//! signature is the definition's first line; a reference is a capture named
//! after an edge kind, owned by its nearest enclosing definition.

use vstd::prelude::*;

use crate::entities::Span;
use crate::index::views;
use crate::kinds::{EdgeKind, SymbolKind};
use crate::parser::{FileParse, ParsedSymbol, RawRef};
use crate::language::SourceLanguage;
use crate::text::{first_line, first_line_of, is_upper_snake, str_eq, upper_snake};
use crate::lang::Lang;
use crate::treesitter::{
    capture_names, compile_query, grammar_loads, match_views, new_parser, parse_source,
    query_ancestors, query_capture_ancestors, query_capture_names, query_captures, query_compiles,
    query_matches, range_in, set_parser_language, utf8_string, LangParser, TsQuery,
};
use vstd::utf8::{decode_utf8, valid_utf8};

verus! {

broadcast use vstd::string::group_string_axioms;

/// Byte range and 0-based rows of a syntax node.
#[derive(Debug, Clone, Copy)]
pub struct NodeRange {
    pub start_byte: usize,
    pub end_byte: usize,
    pub start_row: usize,
    pub end_row: usize,
}

/// One ancestor of a captured node: its syntax kind and range.
#[derive(Debug, Clone, Copy)]
pub struct Ancestor {
    pub kind: &'static str,
    pub range: NodeRange,
}

/// One capture of a query match, as plain values: the capture's index into
/// the query's capture names, the node's text (or why it is not UTF-8), its
/// range, and its ancestors nearest first (left empty where not needed).
#[derive(Debug)]
pub struct Captured {
    pub index: u32,
    pub text: Result<String, std::str::Utf8Error>,
    pub range: NodeRange,
    pub ancestors: Vec<Ancestor>,
}

/// Failures building an extractor or parsing a file.
#[derive(Debug)]
pub enum LangError {
    SetLanguage(tree_sitter::LanguageError),
    Query(tree_sitter::QueryError),
    Parse,
    Utf8(std::str::Utf8Error),
}

/// A 0-based row as a 1-based line number (`u32`, wrapping).
pub open spec fn line_of(row: usize) -> u32 {
    (row as u32).wrapping_add(1)
}

/// The span of a node range: byte offsets narrowed to `u32`, rows made
/// 1-based.
pub open spec fn span_spec(r: NodeRange) -> Span {
    Span {
        start_byte: r.start_byte as u32,
        end_byte: r.end_byte as u32,
        start_line: line_of(r.start_row),
        end_line: line_of(r.end_row),
    }
}

/// The span of a node range.
pub fn span_of(r: &NodeRange) -> (s: Span)
    ensures
        s == span_spec(*r),
{
    Span {
        start_byte: r.start_byte as u32,
        end_byte: r.end_byte as u32,
        start_line: (r.start_row as u32).wrapping_add(1),
        end_line: (r.end_row as u32).wrapping_add(1),
    }
}

/// The name of a capture, when its index names one.
pub open spec fn capture_name(names: Seq<Seq<char>>, c: Captured) -> Option<Seq<char>> {
    if (c.index as int) < names.len() {
        Some(names[c.index as int])
    } else {
        None
    }
}

/// A symbol as the model sees it.
pub ghost struct SymbolModel {
    pub name: Seq<char>,
    pub kind: SymbolKind,
    pub span: Span,
    pub signature: Option<Seq<char>>,
}

/// The model of a parsed symbol.
pub open spec fn symbol_model(p: ParsedSymbol) -> SymbolModel {
    SymbolModel {
        name: p.name@,
        kind: p.kind,
        span: p.span,
        signature: match p.signature {
            Some(s) => Some(s@),
            None => None,
        },
    }
}

/// A raw reference as the model sees it.
pub ghost struct RefModel {
    pub from: Span,
    pub to_name: Seq<char>,
    pub kind: EdgeKind,
}

/// The model of a raw reference.
pub open spec fn ref_model(r: RawRef) -> RefModel {
    RefModel { from: r.from, to_name: r.to_name@, kind: r.kind }
}

/// What reading a match's captures in order has found: the first decoding
/// failure of a `name` capture, the text of the last `name` capture, and the
/// kind and position of the last capture named after a symbol kind.
pub ghost struct SymbolScan {
    pub failure: Option<std::str::Utf8Error>,
    pub name: Option<Seq<char>>,
    pub def: Option<(SymbolKind, int)>,
}

/// Reading the captures of one match in order; reading stops at the first
/// `name` capture that is not UTF-8.
pub open spec fn scan_symbol(names: Seq<Seq<char>>, caps: Seq<Captured>) -> SymbolScan
    decreases caps.len(),
{
    if caps.len() == 0 {
        SymbolScan { failure: None, name: None, def: None }
    } else {
        let prev = scan_symbol(names, caps.drop_last());
        let c = caps.last();
        if prev.failure is Some {
            prev
        } else {
            match capture_name(names, c) {
                Some(n) => if n == "name"@ {
                    match c.text {
                        Ok(t) => SymbolScan { name: Some(t@), ..prev },
                        Err(e) => SymbolScan { failure: Some(e), ..prev },
                    }
                } else {
                    match SymbolKind::parse_canonical(n) {
                        Some(k) => SymbolScan { def: Some((k, caps.len() - 1)), ..prev },
                        None => prev,
                    }
                },
                None => prev,
            }
        }
    }
}

/// What one match yields.
pub ghost enum Outcome<T> {
    Skip,
    Fail(std::str::Utf8Error),
    Found(T),
}

/// The symbol one match yields: none without both a name and a kind capture,
/// none for a constant whose name is not UPPER_SNAKE_CASE; the signature is
/// the first line of the kind capture's text.
pub open spec fn match_symbol(names: Seq<Seq<char>>, caps: Seq<Captured>) -> Outcome<SymbolModel> {
    let s = scan_symbol(names, caps);
    match s.failure {
        Some(e) => Outcome::Fail(e),
        None => match (s.name, s.def) {
            (Some(n), Some((k, i))) => if k == SymbolKind::Constant && !upper_snake(n) {
                Outcome::Skip
            } else {
                match caps[i].text {
                    Ok(t) => Outcome::Found(
                        SymbolModel { name: n, kind: k, span: span_spec(caps[i].range), signature: first_line(t@) },
                    ),
                    Err(e) => Outcome::Fail(e),
                }
            },
            _ => Outcome::Skip,
        },
    }
}

/// The symbols of a list of matches, in order, or the first decoding
/// failure met.
pub open spec fn symbols_model(names: Seq<Seq<char>>, matches: Seq<Vec<Captured>>) -> Result<
    Seq<SymbolModel>,
    std::str::Utf8Error,
>
    decreases matches.len(),
{
    if matches.len() == 0 {
        Ok(Seq::empty())
    } else {
        match symbols_model(names, matches.drop_last()) {
            Err(e) => Err(e),
            Ok(list) => match match_symbol(names, matches.last()@) {
                Outcome::Skip => Ok(list),
                Outcome::Fail(e) => Err(e),
                Outcome::Found(m) => Ok(list.push(m)),
            },
        }
    }
}

/// The range of the nearest ancestor whose kind is listed.
pub open spec fn first_def(ancestors: Seq<Ancestor>, kinds: Seq<Seq<char>>) -> Option<NodeRange>
    decreases ancestors.len(),
{
    if ancestors.len() == 0 {
        None
    } else if kinds.contains(ancestors[0].kind@) {
        Some(ancestors[0].range)
    } else {
        first_def(ancestors.drop_first(), kinds)
    }
}

/// The reference one capture yields: one for a capture named after an edge
/// kind that has an enclosing definition, from that definition's span to the
/// capture's text.
pub open spec fn capture_ref(names: Seq<Seq<char>>, kinds: Seq<Seq<char>>, c: Captured) -> Outcome<
    RefModel,
> {
    match capture_name(names, c) {
        Some(n) => match EdgeKind::parse_canonical(n) {
            Some(k) => match first_def(c.ancestors@, kinds) {
                Some(r) => match c.text {
                    Ok(t) => Outcome::Found(RefModel { from: span_spec(r), to_name: t@, kind: k }),
                    Err(e) => Outcome::Fail(e),
                },
                None => Outcome::Skip,
            },
            None => Outcome::Skip,
        },
        None => Outcome::Skip,
    }
}

/// The references of a list of captures, in order, or the first failure.
pub open spec fn caps_refs(names: Seq<Seq<char>>, kinds: Seq<Seq<char>>, caps: Seq<Captured>) -> Result<
    Seq<RefModel>,
    std::str::Utf8Error,
>
    decreases caps.len(),
{
    if caps.len() == 0 {
        Ok(Seq::empty())
    } else {
        match caps_refs(names, kinds, caps.drop_last()) {
            Err(e) => Err(e),
            Ok(list) => match capture_ref(names, kinds, caps.last()) {
                Outcome::Skip => Ok(list),
                Outcome::Fail(e) => Err(e),
                Outcome::Found(m) => Ok(list.push(m)),
            },
        }
    }
}

/// The references of a list of matches, in order, or the first failure.
pub open spec fn refs_model(names: Seq<Seq<char>>, kinds: Seq<Seq<char>>, matches: Seq<Vec<Captured>>) -> Result<
    Seq<RefModel>,
    std::str::Utf8Error,
>
    decreases matches.len(),
{
    if matches.len() == 0 {
        Ok(Seq::empty())
    } else {
        match refs_model(names, kinds, matches.drop_last()) {
            Err(e) => Err(e),
            Ok(list) => match caps_refs(names, kinds, matches.last()@) {
                Err(e) => Err(e),
                Ok(more) => Ok(list + more),
            },
        }
    }
}

/// The names of a list of strings.
pub open spec fn string_views(names: Seq<String>) -> Seq<Seq<char>> {
    names.map_values(|s: String| s@)
}

proof fn lemma_symbols_err_sticks(names: Seq<Seq<char>>, ms: Seq<Vec<Captured>>, k: int, e: std::str::Utf8Error)
    requires
        0 <= k <= ms.len(),
        symbols_model(names, ms.take(k)) == Err::<Seq<SymbolModel>, std::str::Utf8Error>(e),
    ensures
        symbols_model(names, ms) == Err::<Seq<SymbolModel>, std::str::Utf8Error>(e),
    decreases ms.len() - k,
{
    if k < ms.len() {
        assert(ms.take(k + 1).drop_last() =~= ms.take(k));
        lemma_symbols_err_sticks(names, ms, k + 1, e);
    } else {
        assert(ms.take(k) =~= ms);
    }
}

proof fn lemma_scan_failure_sticks(names: Seq<Seq<char>>, caps: Seq<Captured>, k: int)
    requires
        0 <= k <= caps.len(),
        scan_symbol(names, caps.take(k)).failure is Some,
    ensures
        scan_symbol(names, caps) == scan_symbol(names, caps.take(k)),
    decreases caps.len() - k,
{
    if k < caps.len() {
        assert(caps.take(k + 1).drop_last() =~= caps.take(k));
        lemma_scan_failure_sticks(names, caps, k + 1);
    } else {
        assert(caps.take(k) =~= caps);
    }
}

proof fn lemma_refs_err_sticks(names: Seq<Seq<char>>, kinds: Seq<Seq<char>>, ms: Seq<Vec<Captured>>, k: int, e: std::str::Utf8Error)
    requires
        0 <= k <= ms.len(),
        refs_model(names, kinds, ms.take(k)) == Err::<Seq<RefModel>, std::str::Utf8Error>(e),
    ensures
        refs_model(names, kinds, ms) == Err::<Seq<RefModel>, std::str::Utf8Error>(e),
    decreases ms.len() - k,
{
    if k < ms.len() {
        assert(ms.take(k + 1).drop_last() =~= ms.take(k));
        lemma_refs_err_sticks(names, kinds, ms, k + 1, e);
    } else {
        assert(ms.take(k) =~= ms);
    }
}

proof fn lemma_caps_err_sticks(names: Seq<Seq<char>>, kinds: Seq<Seq<char>>, caps: Seq<Captured>, k: int, e: std::str::Utf8Error)
    requires
        0 <= k <= caps.len(),
        caps_refs(names, kinds, caps.take(k)) == Err::<Seq<RefModel>, std::str::Utf8Error>(e),
    ensures
        caps_refs(names, kinds, caps) == Err::<Seq<RefModel>, std::str::Utf8Error>(e),
    decreases caps.len() - k,
{
    if k < caps.len() {
        assert(caps.take(k + 1).drop_last() =~= caps.take(k));
        lemma_caps_err_sticks(names, kinds, caps, k + 1, e);
    } else {
        assert(caps.take(k) =~= caps);
    }
}

/// Whether the definition nearest the node among `ancestors` (listed
/// nearest first) is the one at `i`: its kind is listed and no nearer
/// ancestor's is.
pub open spec fn nearest_def_at(ancestors: Seq<Ancestor>, kinds: Seq<Seq<char>>, i: int) -> bool {
    &&& 0 <= i < ancestors.len()
    &&& kinds.contains(ancestors[i].kind@)
    &&& forall|j: int| 0 <= j < i ==> !kinds.contains(#[trigger] ancestors[j].kind@)
}

/// A reference is owned by its nearest enclosing definition: the range found
/// is that of the nearest ancestor whose kind is a definition kind, and none
/// is found exactly when no ancestor's kind is one.
pub proof fn lemma_nearest_enclosing_definition(ancestors: Seq<Ancestor>, kinds: Seq<Seq<char>>)
    ensures
        match first_def(ancestors, kinds) {
            Some(r) => exists|i: int| #[trigger] nearest_def_at(ancestors, kinds, i) && ancestors[i].range == r,
            None => forall|i: int| 0 <= i < ancestors.len() ==> !kinds.contains(#[trigger] ancestors[i].kind@),
        },
    decreases ancestors.len(),
{
    if ancestors.len() > 0 {
        let rest = ancestors.drop_first();
        lemma_nearest_enclosing_definition(rest, kinds);
        if kinds.contains(ancestors[0].kind@) {
            assert(nearest_def_at(ancestors, kinds, 0));
        } else {
            match first_def(rest, kinds) {
                Some(r) => {
                    let i = choose|i: int| #[trigger] nearest_def_at(rest, kinds, i) && rest[i].range == r;
                    assert forall|j: int| 0 <= j < i + 1 implies !kinds.contains(#[trigger] ancestors[j].kind@) by {
                        if j > 0 {
                            assert(ancestors[j] == rest[j - 1]);
                        }
                    }
                    assert(ancestors[i + 1] == rest[i]);
                    assert(nearest_def_at(ancestors, kinds, i + 1));
                },
                None => {
                    assert forall|i: int| 0 <= i < ancestors.len() implies !kinds.contains(
                        #[trigger] ancestors[i].kind@,
                    ) by {
                        if i > 0 {
                            assert(ancestors[i] == rest[i - 1]);
                        }
                    }
                },
            }
        }
    }
}

/// Whether `kind` is one of `kinds`.
fn listed(kinds: &[&str], kind: &str) -> (r: bool)
    ensures
        r == views(kinds@).contains(kind@),
{
    let mut i: usize = 0;
    while i < kinds.len()
        invariant
            i <= kinds.len(),
            forall|j: int| 0 <= j < i ==> kinds@[j]@ != kind@,
        decreases kinds.len() - i,
    {
        if str_eq(kinds[i], kind) {
            assert(views(kinds@)[i as int] == kind@);
            return true;
        }
        i += 1;
    }
    assert forall|j: int| 0 <= j < views(kinds@).len() implies views(kinds@)[j] != kind@ by {
        assert(views(kinds@)[j] == kinds@[j]@);
    }
    false
}

/// Walk up the ancestors to the nearest definition listed in `kinds`.
pub fn enclosing_def(ancestors: &Vec<Ancestor>, kinds: &[&str]) -> (r: Option<NodeRange>)
    ensures
        r == first_def(ancestors@, views(kinds@)),
        match r {
            Some(d) => exists|i: int| #[trigger] nearest_def_at(ancestors@, views(kinds@), i) && ancestors@[i].range == d,
            None => forall|i: int| 0 <= i < ancestors@.len() ==> !views(kinds@).contains(#[trigger] ancestors@[i].kind@),
        },
{
    let mut j: usize = 0;
    assert(ancestors@.skip(0) =~= ancestors@);
    while j < ancestors.len()
        invariant
            j <= ancestors.len(),
            first_def(ancestors@, views(kinds@)) == first_def(ancestors@.skip(j as int), views(kinds@)),
        decreases ancestors.len() - j,
    {
        let a = ancestors[j];
        assert(ancestors@.skip(j as int)[0] == a);
        if listed(kinds, a.kind) {
            proof {
                lemma_nearest_enclosing_definition(ancestors@, views(kinds@));
            }
            return Some(a.range);
        }
        assert(ancestors@.skip(j as int).drop_first() =~= ancestors@.skip((j + 1) as int));
        j += 1;
    }
    assert(ancestors@.skip(j as int) =~= Seq::<Ancestor>::empty());
    proof {
        lemma_nearest_enclosing_definition(ancestors@, views(kinds@));
    }
    None
}

/// The symbols of a list of matches: for each match, read in order, the
/// symbol its `name` capture and symbol-kind capture describe. A capture
/// text that is not UTF-8 ends the work with `Utf8`.
pub fn symbols_from_matches(names: &Vec<String>, matches: &Vec<Vec<Captured>>) -> (r: Result<
    Vec<ParsedSymbol>,
    LangError,
>)
    ensures
        match r {
            Ok(v) => symbols_model(string_views(names@), matches@) == Ok::<
                Seq<SymbolModel>,
                std::str::Utf8Error,
            >(v@.map_values(|p: ParsedSymbol| symbol_model(p))),
            Err(LangError::Utf8(e)) => symbols_model(string_views(names@), matches@) == Err::<
                Seq<SymbolModel>,
                std::str::Utf8Error,
            >(e),
            Err(_) => false,
        },
{
    let ghost ns = string_views(names@);
    let mut out: Vec<ParsedSymbol> = Vec::new();
    let mut mi: usize = 0;
    assert(matches@.take(0) =~= Seq::<Vec<Captured>>::empty());
    assert(out@.map_values(|p: ParsedSymbol| symbol_model(p)) =~= Seq::<SymbolModel>::empty());
    while mi < matches.len()
        invariant
            mi <= matches.len(),
            ns == string_views(names@),
            symbols_model(ns, matches@.take(mi as int)) == Ok::<Seq<SymbolModel>, std::str::Utf8Error>(
                out@.map_values(|p: ParsedSymbol| symbol_model(p)),
            ),
        decreases matches.len() - mi,
    {
        let caps = &matches[mi];
        let mut name_text: Option<String> = None;
        let mut def: Option<(SymbolKind, usize)> = None;
        let mut ci: usize = 0;
        proof {
            assert(matches@.take((mi + 1) as int).drop_last() =~= matches@.take(mi as int));
            assert(caps@.take(0) =~= Seq::<Captured>::empty());
        }
        while ci < caps.len()
            invariant
                ci <= caps.len(),
                ns == string_views(names@),
                mi < matches@.len(),
                matches@[mi as int] == *caps,
                symbols_model(ns, matches@.take(mi as int)) == Ok::<Seq<SymbolModel>, std::str::Utf8Error>(
                    out@.map_values(|p: ParsedSymbol| symbol_model(p)),
                ),
                ({
                    let s = scan_symbol(ns, caps@.take(ci as int));
                    &&& s.failure is None
                    &&& match name_text {
                        Some(t) => s.name == Some(t@),
                        None => s.name is None,
                    }
                    &&& match def {
                        Some((k, i)) => s.def == Some((k, i as int)) && i < ci,
                        None => s.def is None,
                    }
                }),
            decreases caps.len() - ci,
        {
            let c = &caps[ci];
            proof {
                assert(caps@.take((ci + 1) as int).drop_last() =~= caps@.take(ci as int));
                assert(caps@.take((ci + 1) as int).last() == *c);
            }
            if (c.index as usize) < names.len() {
                let cname = names[c.index as usize].as_str();
                assert(ns[c.index as int] == cname@);
                if str_eq(cname, "name") {
                    match &c.text {
                        Ok(t) => {
                            name_text = Some(t.clone());
                        },
                        Err(e) => {
                            let e = *e;
                            proof {
                                assert(scan_symbol(ns, caps@.take((ci + 1) as int)).failure == Some(e));
                                lemma_scan_failure_sticks(ns, caps@, (ci + 1) as int);
                                assert(match_symbol(ns, caps@) == Outcome::<SymbolModel>::Fail(e));
                                assert(matches@.take((mi + 1) as int).last() == *caps);
                                assert(matches@.take((mi + 1) as int).drop_last() =~= matches@.take(mi as int));
                                assert(symbols_model(ns, matches@.take((mi + 1) as int)) == Err::<Seq<SymbolModel>, std::str::Utf8Error>(e));
                                lemma_symbols_err_sticks(ns, matches@, (mi + 1) as int, e);
                            }
                            return Err(LangError::Utf8(e));
                        },
                    }
                } else {
                    match SymbolKind::from_name(cname) {
                        Ok(k) => {
                            def = Some((k, ci));
                        },
                        Err(_) => {},
                    }
                }
            }
            ci += 1;
        }
        assert(caps@.take(caps@.len() as int) =~= caps@);
        match (name_text, def) {
            (Some(name), Some((kind, di))) => {
                if kind == SymbolKind::Constant && !is_upper_snake(name.as_str()) {
                } else {
                    let d = &caps[di];
                    match &d.text {
                        Ok(t) => {
                            let signature = first_line_of(t.as_str());
                            let sym = ParsedSymbol { name, kind, span: span_of(&d.range), signature };
                            let ghost before = out@;
                            out.push(sym);
                            assert(out@.map_values(|p: ParsedSymbol| symbol_model(p)) =~= before.map_values(
                                |p: ParsedSymbol| symbol_model(p),
                            ).push(symbol_model(sym)));
                        },
                        Err(e) => {
                            let e = *e;
                            proof {
                                assert(match_symbol(ns, caps@) == Outcome::<SymbolModel>::Fail(e));
                                assert(matches@.take((mi + 1) as int).last() == *caps);
                                assert(matches@.take((mi + 1) as int).drop_last() =~= matches@.take(mi as int));
                                assert(symbols_model(ns, matches@.take((mi + 1) as int)) == Err::<Seq<SymbolModel>, std::str::Utf8Error>(e));
                                lemma_symbols_err_sticks(ns, matches@, (mi + 1) as int, e);
                            }
                            return Err(LangError::Utf8(e));
                        },
                    }
                }
            },
            _ => {},
        }
        mi += 1;
    }
    assert(matches@.take(matches@.len() as int) =~= matches@);
    Ok(out)
}

/// The references of a list of matches: each capture named after an edge
/// kind, with an enclosing definition among `def_kinds`, becomes a reference
/// from that definition's span to the capture's text. A capture text that is
/// not UTF-8 ends the work with `Utf8`.
pub fn refs_from_matches(names: &Vec<String>, def_kinds: &[&str], matches: &Vec<Vec<Captured>>) -> (r:
    Result<Vec<RawRef>, LangError>)
    ensures
        match r {
            Ok(v) => refs_model(string_views(names@), views(def_kinds@), matches@) == Ok::<
                Seq<RefModel>,
                std::str::Utf8Error,
            >(v@.map_values(|x: RawRef| ref_model(x))),
            Err(LangError::Utf8(e)) => refs_model(string_views(names@), views(def_kinds@), matches@)
                == Err::<Seq<RefModel>, std::str::Utf8Error>(e),
            Err(_) => false,
        },
{
    let ghost ns = string_views(names@);
    let ghost ks = views(def_kinds@);
    let mut out: Vec<RawRef> = Vec::new();
    let mut mi: usize = 0;
    assert(matches@.take(0) =~= Seq::<Vec<Captured>>::empty());
    assert(out@.map_values(|x: RawRef| ref_model(x)) =~= Seq::<RefModel>::empty());
    while mi < matches.len()
        invariant
            mi <= matches.len(),
            ns == string_views(names@),
            ks == views(def_kinds@),
            refs_model(ns, ks, matches@.take(mi as int)) == Ok::<Seq<RefModel>, std::str::Utf8Error>(
                out@.map_values(|x: RawRef| ref_model(x)),
            ),
        decreases matches.len() - mi,
    {
        let caps = &matches[mi];
        let ghost before = out@;
        let mut ci: usize = 0;
        proof {
            assert(matches@.take((mi + 1) as int).drop_last() =~= matches@.take(mi as int));
            assert(caps@.take(0) =~= Seq::<Captured>::empty());
            assert(out@.skip(before.len() as int) =~= Seq::<RawRef>::empty());
            assert(out@.skip(before.len() as int).map_values(|x: RawRef| ref_model(x)) =~= Seq::<RefModel>::empty());
            assert(out@.take(before.len() as int) =~= before);
        }
        while ci < caps.len()
            invariant
                ci <= caps.len(),
                ns == string_views(names@),
                ks == views(def_kinds@),
                mi < matches@.len(),
                matches@[mi as int] == *caps,
                refs_model(ns, ks, matches@.take(mi as int)) == Ok::<Seq<RefModel>, std::str::Utf8Error>(
                    before.map_values(|x: RawRef| ref_model(x)),
                ),
                out@.len() >= before.len(),
                out@.take(before.len() as int) == before,
                caps_refs(ns, ks, caps@.take(ci as int)) == Ok::<Seq<RefModel>, std::str::Utf8Error>(
                    out@.skip(before.len() as int).map_values(|x: RawRef| ref_model(x)),
                ),
            decreases caps.len() - ci,
        {
            let c = &caps[ci];
            proof {
                assert(caps@.take((ci + 1) as int).drop_last() =~= caps@.take(ci as int));
                assert(caps@.take((ci + 1) as int).last() == *c);
            }
            let ghost mid = out@;
            if (c.index as usize) < names.len() {
                let cname = names[c.index as usize].as_str();
                assert(ns[c.index as int] == cname@);
                match EdgeKind::from_name(cname) {
                    Ok(kind) => {
                        match enclosing_def(&c.ancestors, def_kinds) {
                            Some(def) => {
                                match &c.text {
                                    Ok(t) => {
                                        let r = RawRef { from: span_of(&def), to_name: t.clone(), kind };
                                        out.push(r);
                                        assert(out@.take(before.len() as int) =~= before);
                                        assert(out@.skip(before.len() as int) =~= mid.skip(before.len() as int).push(r));
                                        assert(out@.skip(before.len() as int).map_values(|x: RawRef| ref_model(x)) =~= mid.skip(before.len() as int).map_values(|x: RawRef| ref_model(x)).push(ref_model(r)));
                                    },
                                    Err(e) => {
                                        let e = *e;
                                        proof {
                                            assert(capture_ref(ns, ks, *c) == Outcome::<RefModel>::Fail(e));
                                            assert(caps_refs(ns, ks, caps@.take((ci + 1) as int)) == Err::<Seq<RefModel>, std::str::Utf8Error>(e));
                                            lemma_caps_err_sticks(ns, ks, caps@, (ci + 1) as int, e);
                                            assert(matches@.take((mi + 1) as int).last() == *caps);
                                            assert(matches@.take((mi + 1) as int).drop_last() =~= matches@.take(mi as int));
                                            assert(refs_model(ns, ks, matches@.take((mi + 1) as int)) == Err::<Seq<RefModel>, std::str::Utf8Error>(e));
                                            lemma_refs_err_sticks(ns, ks, matches@, (mi + 1) as int, e);
                                        }
                                        return Err(LangError::Utf8(e));
                                    },
                                }
                            },
                            None => {},
                        }
                    },
                    Err(_) => {},
                }
            }
            ci += 1;
        }
        proof {
            assert(caps@.take(caps@.len() as int) =~= caps@);
            let more = out@.skip(before.len() as int);
            assert(out@ =~= before + more);
            assert(out@.map_values(|x: RawRef| ref_model(x)) =~= before.map_values(|x: RawRef| ref_model(x)) + more.map_values(|x: RawRef| ref_model(x)));
        }
        mi += 1;
    }
    assert(matches@.take(matches@.len() as int) =~= matches@);
    Ok(out)
}

/// The text of a node range of a source: the decoding of its bytes, or
/// `None` when they are not UTF-8.
pub open spec fn range_text(source: Seq<u8>, r: NodeRange) -> Option<Seq<char>> {
    let bytes = source.subrange(r.start_byte as int, r.end_byte as int);
    if valid_utf8(bytes) {
        Some(decode_utf8(bytes))
    } else {
        None
    }
}

/// Whether a copied-out capture is the capture `(index, range)` of `source`:
/// same index and range, the range lying in the source, and the text read
/// from it.
pub open spec fn captured_as(c: Captured, cap: (u32, NodeRange), source: Seq<u8>) -> bool {
    &&& c.index == cap.0
    &&& c.range == cap.1
    &&& range_in(cap.1, source.len())
    &&& match c.text {
        Ok(t) => range_text(source, cap.1) == Some(t@),
        Err(_) => range_text(source, cap.1) is None,
    }
}

/// Whether copied-out matches are, capture for capture, the named matches
/// `named` of `source`.
pub open spec fn captures_match(ms: Seq<Vec<Captured>>, named: Seq<Seq<(u32, NodeRange)>>, source: Seq<u8>) -> bool {
    &&& ms.len() == named.len()
    &&& forall|i: int| 0 <= i < ms.len() ==> (#[trigger] ms[i])@.len() == named[i].len()
    &&& forall|i: int, j: int|
        0 <= i < ms.len() && 0 <= j < ms[i]@.len() ==> captured_as(#[trigger] ms[i]@[j], named[i][j], source)
}

/// The text of a node range of a source.
fn text_of(source: &[u8], range: &NodeRange) -> (r: Result<String, std::str::Utf8Error>)
    requires
        range.start_byte <= range.end_byte <= source@.len(),
    ensures
        match r {
            Ok(t) => range_text(source@, *range) == Some(t@),
            Err(_) => range_text(source@, *range) is None,
        },
{
    let bytes = vstd::slice::slice_subrange(source, range.start_byte, range.end_byte);
    utf8_string(bytes)
}

/// Copies each match's captures out as plain values: index, range and the
/// range's text in the source; with `with_ancestors`, each capture's
/// ancestors from `ancestors`, else none.
fn collect_captures(
    raw: &Vec<Vec<(u32, NodeRange)>>,
    ancestors: &Vec<Vec<Vec<Ancestor>>>,
    source: &[u8],
    with_ancestors: bool,
) -> (out: Vec<Vec<Captured>>)
    requires
        forall|i: int, j: int|
            0 <= i < raw@.len() && 0 <= j < raw@[i]@.len() ==> range_in((#[trigger] raw@[i]@[j]).1, source@.len()),
        with_ancestors ==> ancestors@.len() == raw@.len(),
        with_ancestors ==> forall|i: int| 0 <= i < raw@.len() ==> (#[trigger] ancestors@[i])@.len() == raw@[i]@.len(),
    ensures
        captures_match(out@, match_views(raw@), source@),
        with_ancestors ==> forall|i: int, j: int|
            0 <= i < out@.len() && 0 <= j < out@[i]@.len() ==> (#[trigger] out@[i]@[j]).ancestors@ == ancestors@[i]@[j]@,
{
    let mut out: Vec<Vec<Captured>> = Vec::new();
    let mut i: usize = 0;
    while i < raw.len()
        invariant
            i <= raw.len(),
            out@.len() == i,
            forall|i: int, j: int|
                0 <= i < raw@.len() && 0 <= j < raw@[i]@.len() ==> range_in((#[trigger] raw@[i]@[j]).1, source@.len()),
            with_ancestors ==> ancestors@.len() == raw@.len(),
            with_ancestors ==> forall|i: int| 0 <= i < raw@.len() ==> (#[trigger] ancestors@[i])@.len() == raw@[i]@.len(),
            forall|k: int| 0 <= k < i ==> (#[trigger] out@[k])@.len() == raw@[k]@.len(),
            forall|k: int, j: int|
                0 <= k < i && 0 <= j < out@[k]@.len() ==> captured_as(#[trigger] out@[k]@[j], raw@[k]@[j], source@),
            with_ancestors ==> forall|k: int, j: int|
                0 <= k < i && 0 <= j < out@[k]@.len() ==> (#[trigger] out@[k]@[j]).ancestors@ == ancestors@[k]@[j]@,
        decreases raw.len() - i,
    {
        let m = &raw[i];
        let mut caps: Vec<Captured> = Vec::new();
        let mut j: usize = 0;
        while j < m.len()
            invariant
                j <= m.len(),
                caps@.len() == j,
                i < raw@.len(),
                *m == raw@[i as int],
                forall|i: int, j: int|
                    0 <= i < raw@.len() && 0 <= j < raw@[i]@.len() ==> range_in((#[trigger] raw@[i]@[j]).1, source@.len()),
                with_ancestors ==> ancestors@.len() == raw@.len(),
                with_ancestors ==> forall|i: int| 0 <= i < raw@.len() ==> (#[trigger] ancestors@[i])@.len() == raw@[i]@.len(),
                forall|k: int| 0 <= k < j ==> captured_as(#[trigger] caps@[k], m@[k], source@),
                with_ancestors ==> forall|k: int| 0 <= k < j ==> (#[trigger] caps@[k]).ancestors@ == ancestors@[i as int]@[k]@,
            decreases m.len() - j,
        {
            let pair = m[j];
            assert(range_in(raw@[i as int]@[j as int].1, source@.len()));
            let text = text_of(source, &pair.1);
            let anc = if with_ancestors {
                assert(ancestors@[i as int]@.len() == raw@[i as int]@.len());
                ancestors[i][j].clone()
            } else {
                Vec::new()
            };
            caps.push(Captured { index: pair.0, text, range: pair.1, ancestors: anc });
            j += 1;
        }
        out.push(caps);
        i += 1;
    }
    proof {
        let named = match_views(raw@);
        assert forall|i: int| 0 <= i < out@.len() implies (#[trigger] out@[i])@.len() == named[i].len() by {}
        assert forall|i: int, j: int|
            0 <= i < out@.len() && 0 <= j < out@[i]@.len() implies captured_as(#[trigger] out@[i]@[j], named[i][j], source@) by {
            assert(named[i][j] == raw@[i]@[j]);
        }
    }
    out
}

/// Whether copied-out captures carry, capture for capture, the ancestors
/// `named`.
pub open spec fn ancestors_match(ms: Seq<Vec<Captured>>, named: Seq<Seq<Seq<Ancestor>>>) -> bool {
    forall|i: int, j: int|
        0 <= i < ms.len() && 0 <= j < ms[i]@.len() ==> (#[trigger] ms[i]@[j]).ancestors@ == named[i][j]
}

/// What extracting a source yields, given copied-out matches `sm` and `em`
/// that are the named matches of the language's symbol and edge queries over
/// the source: on success, the symbols and references the verified rules
/// derive from them; `Utf8` when the symbol rules or, after them, the
/// reference rules meet a capture that is not UTF-8.
pub open spec fn extracted_with(
    r: Result<FileParse, LangError>,
    l: Lang,
    symbol_query: Seq<char>,
    edge_query: Seq<char>,
    def_kinds: Seq<Seq<char>>,
    source: Seq<u8>,
    sm: Seq<Vec<Captured>>,
    em: Seq<Vec<Captured>>,
) -> bool {
    let sn = query_capture_names(l, symbol_query);
    let en = query_capture_names(l, edge_query);
    &&& captures_match(sm, query_captures(l, symbol_query, source), source)
    &&& captures_match(em, query_captures(l, edge_query, source), source)
    &&& ancestors_match(em, query_capture_ancestors(l, edge_query, source))
    &&& match r {
        Ok(fp) => {
            &&& symbols_model(sn, sm) == Ok::<Seq<SymbolModel>, std::str::Utf8Error>(
                fp.symbols@.map_values(|p: ParsedSymbol| symbol_model(p)),
            )
            &&& refs_model(en, def_kinds, em) == Ok::<Seq<RefModel>, std::str::Utf8Error>(
                fp.refs@.map_values(|x: RawRef| ref_model(x)),
            )
        },
        Err(LangError::Utf8(e)) => symbols_model(sn, sm) == Err::<Seq<SymbolModel>, std::str::Utf8Error>(e)
            || (symbols_model(sn, sm) is Ok && refs_model(en, def_kinds, em) == Err::<
            Seq<RefModel>,
            std::str::Utf8Error,
        >(e)),
        Err(_) => false,
    }
}

/// The outcome of extracting `source` with the queries `symbol_query` and
/// `edge_query` of language `l`. The matches are named by `query_captures`
/// and the ancestors of the edge captures by `query_capture_ancestors`; what
/// is left open is only which `Utf8Error` a capture that is not UTF-8 gives.
pub open spec fn extraction(
    r: Result<FileParse, LangError>,
    l: Lang,
    symbol_query: Seq<char>,
    edge_query: Seq<char>,
    def_kinds: Seq<Seq<char>>,
    source: Seq<u8>,
) -> bool {
    exists|sm: Seq<Vec<Captured>>, em: Seq<Vec<Captured>>|
        #[trigger] extracted_with(r, l, symbol_query, edge_query, def_kinds, source, sm, em)
}

/// Whether a symbol's span lies in a source of `len` bytes, with 1-based,
/// ordered lines.
pub open spec fn span_within(s: Span, len: nat) -> bool {
    &&& s.start_byte <= s.end_byte <= len
    &&& 1 <= s.start_line <= s.end_line
}

/// A compiled parser and the two queries of one language. Build one per
/// thread; it is not meant to be shared.
pub struct Extractor {
    parser: LangParser,
    symbol_query: TsQuery,
    edge_query: TsQuery,
    def_kinds: &'static [&'static str],
}

impl Extractor {
    /// The parser has the grammar both queries were compiled for.
    pub closed spec fn wf(self) -> bool {
        &&& self.parser.lang() == Some(self.symbol_query.lang())
        &&& self.edge_query.lang() == self.symbol_query.lang()
    }

    /// The language whose grammar the extractor parses with.
    pub closed spec fn lang(self) -> Lang {
        self.symbol_query.lang()
    }

    /// The text the symbol query was compiled from.
    pub closed spec fn symbol_source(self) -> Seq<char> {
        self.symbol_query.text()
    }

    /// The text the edge query was compiled from.
    pub closed spec fn edge_source(self) -> Seq<char> {
        self.edge_query.text()
    }

    /// The definition kinds references are attributed to.
    pub closed spec fn def_kinds_view(self) -> Seq<Seq<char>> {
        views(self.def_kinds@)
    }

    /// Set up a parser for `language` and compile its two queries. Fails
    /// with `SetLanguage` exactly when its grammar does not load, and else
    /// with `Query` exactly when one of its queries does not compile.
    pub fn new<L: SourceLanguage>(language: &L) -> (r: Result<Extractor, LangError>)
        ensures
            ({
                let l = language.spec_lang();
                let sq = language.spec_query_source();
                let eq = language.spec_edge_query_source();
                match r {
                    Ok(e) => {
                        &&& e.wf()
                        &&& grammar_loads(l) && query_compiles(l, sq) && query_compiles(l, eq)
                        &&& e.lang() == l
                        &&& e.symbol_source() == sq
                        &&& e.edge_source() == eq
                        &&& e.def_kinds_view() == language.spec_def_node_kinds()
                    },
                    Err(LangError::SetLanguage(_)) => !grammar_loads(l),
                    Err(LangError::Query(_)) => grammar_loads(l) && !(query_compiles(l, sq) && query_compiles(
                        l,
                        eq,
                    )),
                    Err(_) => false,
                }
            }),
    {
        let ts = language.ts_language();
        let mut parser = new_parser();
        match set_parser_language(&mut parser, &ts) {
            Ok(()) => {},
            Err(e) => {
                return Err(LangError::SetLanguage(e));
            },
        }
        let symbol_query = match compile_query(&ts, language.query_source()) {
            Ok(q) => q,
            Err(e) => {
                return Err(LangError::Query(e));
            },
        };
        let edge_query = match compile_query(&ts, language.edge_query_source()) {
            Ok(q) => q,
            Err(e) => {
                return Err(LangError::Query(e));
            },
        };
        Ok(Extractor { parser, symbol_query, edge_query, def_kinds: language.def_node_kinds() })
    }

    /// Parse one file's source once and extract both its symbols and its
    /// references: exactly what the verified rules derive from the named
    /// matches of the two queries over the source (`extraction`). Symbol
    /// spans lie in the source, with 1-based ordered lines, when the source
    /// is shorter than `u32::MAX` bytes.
    pub fn extract(&mut self, source: &[u8]) -> (r: Result<FileParse, LangError>)
        requires
            old(self).wf(),
        ensures
            final(self).wf(),
            final(self).lang() == old(self).lang(),
            final(self).symbol_source() == old(self).symbol_source(),
            final(self).edge_source() == old(self).edge_source(),
            final(self).def_kinds_view() == old(self).def_kinds_view(),
            extraction(
                r,
                old(self).lang(),
                old(self).symbol_source(),
                old(self).edge_source(),
                old(self).def_kinds_view(),
                source@,
            ),
            match r {
                Ok(fp) => source@.len() < u32::MAX ==> forall|i: int|
                    0 <= i < fp.symbols@.len() ==> span_within(#[trigger] fp.symbols@[i].span, source@.len()),
                Err(_) => true,
            },
    {
        let tree = match parse_source(&mut self.parser, source) {
            Some(t) => t,
            None => {
                return Err(LangError::Parse);
            },
        };
        let src = tree.source_bytes();
        let symbol_names = capture_names(&self.symbol_query);
        let raw_symbols = query_matches(&self.symbol_query, &tree);
        let symbol_matches = collect_captures(&raw_symbols, &Vec::new(), src, false);
        let edge_names = capture_names(&self.edge_query);
        let raw_edges = query_matches(&self.edge_query, &tree);
        let edge_ancestors = query_ancestors(&self.edge_query, &tree);
        proof {
            let named = query_captures(self.lang(), self.edge_source(), source@);
            assert(match_views(raw_edges@) == named);
            assert forall|i: int| 0 <= i < raw_edges@.len() implies (#[trigger] edge_ancestors@[i])@.len()
                == raw_edges@[i]@.len() by {
                assert(match_views(raw_edges@)[i] == raw_edges@[i]@);
            }
        }
        let edge_matches = collect_captures(&raw_edges, &edge_ancestors, src, true);
        proof {
            let na = query_capture_ancestors(self.lang(), self.edge_source(), source@);
            assert forall|i: int, j: int|
                0 <= i < edge_matches@.len() && 0 <= j < edge_matches@[i]@.len() implies (
                #[trigger] edge_matches@[i]@[j]).ancestors@ == na[i][j] by {
                let mv = match_views(edge_ancestors@);
                assert(mv[i] == edge_ancestors@[i]@);
                assert(mv.map_values(|m: Seq<Vec<Ancestor>>| m.map_values(|a: Vec<Ancestor>| a@))[i]
                    == mv[i].map_values(|a: Vec<Ancestor>| a@));
            }
        }
        let ghost sn = string_views(symbol_names@);
        let ghost en = string_views(edge_names@);
        let ghost l = self.lang();
        assert(sn =~= query_capture_names(l, self.symbol_source()));
        assert(en =~= query_capture_names(l, self.edge_source()));
        let symbols = match symbols_from_matches(&symbol_names, &symbol_matches) {
            Ok(v) => v,
            Err(e) => {
                assert(extracted_with(
                    Err(e),
                    l,
                    self.symbol_source(),
                    self.edge_source(),
                    self.def_kinds_view(),
                    source@,
                    symbol_matches@,
                    edge_matches@,
                ));
                return Err(e);
            },
        };
        let refs = match refs_from_matches(&edge_names, self.def_kinds, &edge_matches) {
            Ok(v) => v,
            Err(e) => {
                assert(extracted_with(
                    Err(e),
                    l,
                    self.symbol_source(),
                    self.edge_source(),
                    self.def_kinds_view(),
                    source@,
                    symbol_matches@,
                    edge_matches@,
                ));
                return Err(e);
            },
        };
        let fp = FileParse { symbols, refs };
        assert(extracted_with(
            Ok(fp),
            l,
            self.symbol_source(),
            self.edge_source(),
            self.def_kinds_view(),
            source@,
            symbol_matches@,
            edge_matches@,
        ));
        proof {
            if source@.len() < u32::MAX {
                lemma_symbol_spans(sn, symbol_matches@, source@);
                assert forall|i: int| 0 <= i < fp.symbols@.len() implies span_within(
                    #[trigger] fp.symbols@[i].span,
                    source@.len(),
                ) by {
                    let ms = fp.symbols@.map_values(|p: ParsedSymbol| symbol_model(p));
                    assert(ms[i] == symbol_model(fp.symbols@[i]));
                }
            }
        }
        Ok(fp)
    }
}

} // verus!

verus! {

proof fn lemma_scan_def_in_range(names: Seq<Seq<char>>, caps: Seq<Captured>)
    ensures
        scan_symbol(names, caps).def matches Some((k, i)) ==> 0 <= i < caps.len(),
    decreases caps.len(),
{
    if caps.len() > 0 {
        lemma_scan_def_in_range(names, caps.drop_last());
    }
}

proof fn lemma_span_of_range(r: NodeRange, len: nat)
    requires
        range_in(r, len),
        len < u32::MAX,
    ensures
        span_within(span_spec(r), len),
{
    assert(r.start_row < u32::MAX && r.end_row < u32::MAX);
    assert((r.start_row as u32) as int == r.start_row);
    assert((r.end_row as u32) as int == r.end_row);
    assert(line_of(r.start_row) == r.start_row + 1);
    assert(line_of(r.end_row) == r.end_row + 1);
}

/// Every symbol extraction yields from captures lying in a source shorter
/// than `u32::MAX` bytes has a span in that source, with 1-based ordered
/// lines.
proof fn lemma_symbol_spans(names: Seq<Seq<char>>, ms: Seq<Vec<Captured>>, source: Seq<u8>)
    requires
        source.len() < u32::MAX,
        forall|i: int, j: int|
            0 <= i < ms.len() && 0 <= j < ms[i]@.len() ==> range_in((#[trigger] ms[i]@[j]).range, source.len()),
    ensures
        symbols_model(names, ms) matches Ok(list) ==> forall|k: int|
            0 <= k < list.len() ==> span_within((#[trigger] list[k]).span, source.len()),
    decreases ms.len(),
{
    if ms.len() > 0 {
        let prev_ms = ms.drop_last();
        assert forall|i: int, j: int|
            0 <= i < prev_ms.len() && 0 <= j < prev_ms[i]@.len() implies range_in(
            (#[trigger] prev_ms[i]@[j]).range,
            source.len(),
        ) by {
            assert(prev_ms[i] == ms[i]);
        }
        lemma_symbol_spans(names, prev_ms, source);
        let caps = ms.last()@;
        lemma_scan_def_in_range(names, caps);
        if let Ok(list) = symbols_model(names, ms) {
            if let Ok(prev) = symbols_model(names, prev_ms) {
                assert forall|k: int| 0 <= k < list.len() implies span_within(
                    (#[trigger] list[k]).span,
                    source.len(),
                ) by {
                    if k < prev.len() {
                        assert(list[k] == prev[k]);
                    } else {
                        let sc = scan_symbol(names, caps);
                        if let Some((kind, i)) = sc.def {
                            assert(caps[i] == ms[ms.len() - 1]@[i]);
                            lemma_span_of_range(caps[i].range, source.len());
                        }
                    }
                }
            }
        }
    }
}

/// Every constant extraction yields has an UPPER_SNAKE_CASE name.
pub proof fn lemma_constants_are_upper_snake(names: Seq<Seq<char>>, matches: Seq<Vec<Captured>>)
    ensures
        symbols_model(names, matches) matches Ok(list) ==> forall|i: int|
            0 <= i < list.len() && (#[trigger] list[i]).kind == SymbolKind::Constant ==> upper_snake(list[i].name),
    decreases matches.len(),
{
    if matches.len() > 0 {
        lemma_constants_are_upper_snake(names, matches.drop_last());
        if let Ok(list) = symbols_model(names, matches) {
            if let Ok(prev) = symbols_model(names, matches.drop_last()) {
                assert forall|i: int|
                    0 <= i < list.len() && (#[trigger] list[i]).kind == SymbolKind::Constant implies upper_snake(list[i].name) by {
                    if i < prev.len() {
                        assert(list[i] == prev[i]);
                    }
                }
            }
        }
    }
}

} // verus!
