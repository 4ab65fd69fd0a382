//! Name-based resolution of parsed references into symbol-id edges.
//!
//! A reference to `foo` links its enclosing definition to every symbol named
//! `foo`, preferring those in the same file; a class defines each method
//! whose span it contains. False positives are accepted by design: ranking
//! buries them.

use std::collections::HashMap;

use vstd::prelude::*;

use crate::engine::ParsedFile;
use crate::entities::{Edge, Span, Symbol};
use crate::ids::{FileId, SymbolId};
use crate::index::{matching, lemma_matching_members, views, KeyIndex};
use crate::kinds::{EdgeKind, SymbolKind};
use crate::parser::RawRef;

verus! {

broadcast use {vstd::std_specs::hash::group_hash_axioms, vstd::string::group_string_axioms};

/// Names of the listed symbols.
pub open spec fn symbol_names(syms: Seq<Symbol>) -> Seq<Seq<char>> {
    syms.map_values(|s: Symbol| s.name@)
}

/// Paths of the listed files.
pub open spec fn file_paths(files: Seq<(FileId, String)>) -> Seq<Seq<char>> {
    files.map_values(|f: (FileId, String)| f.1@)
}

/// The id of the last listed file whose path is `path`.
pub open spec fn file_for_path(files: Seq<(FileId, String)>, path: Seq<char>) -> Option<FileId> {
    let m = matching(file_paths(files), path, files.len());
    if m.len() > 0 {
        Some(files[m.last() as int].0)
    } else {
        None
    }
}

/// Position of the last symbol among the first `k` that lies in file `fid`
/// and starts at byte `start`.
pub open spec fn last_symbol_at(syms: Seq<Symbol>, fid: FileId, start: u32, k: nat) -> Option<
    usize,
>
    decreases k,
{
    if k == 0 {
        None
    } else if syms[k - 1].file_id == fid && syms[k - 1].span.start_byte == start {
        Some((k - 1) as usize)
    } else {
        last_symbol_at(syms, fid, start, (k - 1) as nat)
    }
}

/// The positions of `idxs` whose symbol lies in file `fid`, order kept.
pub open spec fn in_file(syms: Seq<Symbol>, idxs: Seq<usize>, fid: FileId) -> Seq<usize>
    decreases idxs.len(),
{
    if idxs.len() == 0 {
        Seq::empty()
    } else {
        let prev = in_file(syms, idxs.drop_last(), fid);
        if syms[idxs.last() as int].file_id == fid {
            prev.push(idxs.last())
        } else {
            prev
        }
    }
}

/// Positions of the symbols a reference to `name` from file `fid` links to:
/// the symbols of that name in the same file if there are any, else every
/// symbol of that name.
pub open spec fn targets(syms: Seq<Symbol>, name: Seq<char>, fid: FileId) -> Seq<usize> {
    let all = matching(symbol_names(syms), name, syms.len());
    let same = in_file(syms, all, fid);
    if same.len() > 0 {
        same
    } else {
        all
    }
}

/// Edges of kind `kind` from `from` to each listed symbol, self-links left out.
pub open spec fn edges_to(syms: Seq<Symbol>, idxs: Seq<usize>, from: SymbolId, kind: EdgeKind) -> Seq<
    Edge,
>
    decreases idxs.len(),
{
    if idxs.len() == 0 {
        Seq::empty()
    } else {
        let prev = edges_to(syms, idxs.drop_last(), from, kind);
        let to = syms[idxs.last() as int].id;
        if to != from {
            prev.push(Edge { src: from, dst: to, kind })
        } else {
            prev
        }
    }
}

/// The edges one reference from file `fid` resolves to. Its source is the
/// symbol of that file starting where the reference's enclosing definition
/// starts; without one, the reference yields nothing.
pub open spec fn ref_edges(syms: Seq<Symbol>, fid: FileId, r: RawRef) -> Seq<Edge> {
    match last_symbol_at(syms, fid, r.from.start_byte, syms.len()) {
        Some(i) => edges_to(syms, targets(syms, r.to_name@, fid), syms[i as int].id, r.kind),
        None => Seq::empty(),
    }
}

/// The edges of a list of references from file `fid`, in order.
pub open spec fn refs_edges(syms: Seq<Symbol>, fid: FileId, refs: Seq<RawRef>) -> Seq<Edge>
    decreases refs.len(),
{
    if refs.len() == 0 {
        Seq::empty()
    } else {
        refs_edges(syms, fid, refs.drop_last()) + ref_edges(syms, fid, refs.last())
    }
}

/// The edges of one parsed file's references; a file the index does not
/// list yields nothing.
pub open spec fn file_edges(syms: Seq<Symbol>, files: Seq<(FileId, String)>, pf: ParsedFile) -> Seq<
    Edge,
> {
    match file_for_path(files, pf.path@) {
        Some(fid) => refs_edges(syms, fid, pf.refs@),
        None => Seq::empty(),
    }
}

/// The reference edges of all parsed files, in order.
pub open spec fn call_edges(
    syms: Seq<Symbol>,
    files: Seq<(FileId, String)>,
    parsed: Seq<ParsedFile>,
) -> Seq<Edge>
    decreases parsed.len(),
{
    if parsed.len() == 0 {
        Seq::empty()
    } else {
        call_edges(syms, files, parsed.drop_last()) + file_edges(syms, files, parsed.last())
    }
}

/// Positions of the classes among the first `k` symbols that lie in file `fid`.
pub open spec fn classes_in(syms: Seq<Symbol>, fid: i64, k: nat) -> Seq<usize>
    decreases k,
{
    if k == 0 {
        Seq::empty()
    } else {
        let prev = classes_in(syms, fid, (k - 1) as nat);
        if syms[k - 1].kind == SymbolKind::Class && syms[k - 1].file_id.0 == fid {
            prev.push((k - 1) as usize)
        } else {
            prev
        }
    }
}

/// The first listed position whose symbol's span contains `span`.
pub open spec fn first_container(syms: Seq<Symbol>, idxs: Seq<usize>, span: Span) -> Option<usize>
    decreases idxs.len(),
{
    if idxs.len() == 0 {
        None
    } else if syms[idxs[0] as int].span.contains(span) {
        Some(idxs[0])
    } else {
        first_container(syms, idxs.drop_first(), span)
    }
}

/// The class that defines method `m`: the first listed class of its file
/// whose span contains the method's span.
pub open spec fn defining_class(syms: Seq<Symbol>, m: Symbol) -> Option<usize> {
    first_container(syms, classes_in(syms, m.file_id.0, syms.len()), m.span)
}

/// The `defines` edges of the first `k` symbols: class to method, for each
/// method that has a defining class.
pub open spec fn define_edges(syms: Seq<Symbol>, k: nat) -> Seq<Edge>
    decreases k,
{
    if k == 0 {
        Seq::empty()
    } else {
        let prev = define_edges(syms, (k - 1) as nat);
        let s = syms[k - 1];
        if s.kind == SymbolKind::Method {
            match defining_class(syms, s) {
                Some(c) => prev.push(Edge { src: syms[c as int].id, dst: s.id, kind: EdgeKind::Defines }),
                None => prev,
            }
        } else {
            prev
        }
    }
}

/// Every edge resolution yields: reference edges, then `defines` edges.
pub open spec fn resolved_edges(
    syms: Seq<Symbol>,
    files: Seq<(FileId, String)>,
    parsed: Seq<ParsedFile>,
) -> Seq<Edge> {
    call_edges(syms, files, parsed) + define_edges(syms, syms.len())
}

/// Key of a (file, start byte) pair; distinct pairs get distinct keys.
pub open spec fn span_key(fid: i64, start: u32) -> i128 {
    ((fid as int) * 0x1_0000_0000 + (start as int)) as i128
}

proof fn lemma_span_key_injective(f1: i64, s1: u32, f2: i64, s2: u32)
    requires
        span_key(f1, s1) == span_key(f2, s2),
    ensures
        f1 == f2 && s1 == s2,
{
    assert(f1 == f2 && s1 == s2) by (nonlinear_arith)
        requires
            (f1 as int) * 0x1_0000_0000 + (s1 as int) == (f2 as int) * 0x1_0000_0000 + (s2 as int),
            0 <= s1 < 0x1_0000_0000,
            0 <= s2 < 0x1_0000_0000,
    ;
}

/// The slot of (file, start byte) in a map keyed by `span_key`.
pub open spec fn span_slot(m: Map<i128, usize>, fid: i64, start: u32) -> Option<usize> {
    if m.contains_key(span_key(fid, start)) {
        Some(m[span_key(fid, start)])
    } else {
        None
    }
}

/// The class bucket of file `fid` (empty when absent).
pub open spec fn class_slot(m: Map<i64, Vec<usize>>, fid: i64) -> Seq<usize> {
    if m.contains_key(fid) {
        m[fid]@
    } else {
        Seq::empty()
    }
}

fn span_key_of(fid: FileId, start: u32) -> (k: i128)
    ensures
        k == span_key(fid.0, start),
{
    (fid.0 as i128) * 0x1_0000_0000i128 + (start as i128)
}

/// Index of (file, start byte) to the position of the last symbol there.
fn index_spans(syms: &Vec<Symbol>) -> (m: HashMap<i128, usize>)
    ensures
        forall|f: i64, st: u32| #[trigger] span_slot(m@, f, st) == last_symbol_at(syms@, FileId(f), st, syms@.len()),
{
    let mut m: HashMap<i128, usize> = HashMap::new();
    let mut i: usize = 0;
    while i < syms.len()
        invariant
            i <= syms.len(),
            forall|f: i64, st: u32| #[trigger] span_slot(m@, f, st) == last_symbol_at(syms@, FileId(f), st, i as nat),
        decreases syms.len() - i,
    {
        let s = &syms[i];
        let key = span_key_of(s.file_id, s.span.start_byte);
        let ghost old_m = m@;
        m.insert(key, i);
        proof {
            assert forall|f: i64, st: u32| #[trigger] span_slot(m@, f, st) == last_symbol_at(syms@, FileId(f), st, (i + 1) as nat) by {
                if span_key(f, st) == key {
                    lemma_span_key_injective(f, st, s.file_id.0, s.span.start_byte);
                } else {
                    assert(span_slot(old_m, f, st) == last_symbol_at(syms@, FileId(f), st, i as nat));
                    if s.file_id == FileId(f) && s.span.start_byte == st {
                        assert(span_key(f, st) == key);
                    }
                }
            }
        }
        i += 1;
    }
    m
}

/// Index of file id to the positions of its classes, in listing order.
fn index_classes(syms: &Vec<Symbol>) -> (m: HashMap<i64, Vec<usize>>)
    ensures
        forall|f: i64| #[trigger] class_slot(m@, f) == classes_in(syms@, f, syms@.len()),
{
    let mut m: HashMap<i64, Vec<usize>> = HashMap::new();
    let mut i: usize = 0;
    while i < syms.len()
        invariant
            i <= syms.len(),
            forall|f: i64| #[trigger] class_slot(m@, f) == classes_in(syms@, f, i as nat),
        decreases syms.len() - i,
    {
        let s = &syms[i];
        if s.kind == SymbolKind::Class {
            let f = s.file_id.0;
            let ghost old_m = m@;
            assert(class_slot(old_m, f) == classes_in(syms@, f, i as nat));
            let mut b = match m.remove(&f) {
                Some(v) => v,
                None => Vec::new(),
            };
            b.push(i);
            m.insert(f, b);
            proof {
                assert forall|g: i64| #[trigger] class_slot(m@, g) == classes_in(syms@, g, (i + 1) as nat) by {
                    if g != f {
                        assert(class_slot(old_m, g) == classes_in(syms@, g, i as nat));
                        assert(class_slot(m@, g) == class_slot(old_m, g));
                    }
                }
            }
        } else {
            proof {
                assert forall|g: i64| #[trigger] class_slot(m@, g) == classes_in(syms@, g, (i + 1) as nat) by {
                    assert(class_slot(m@, g) == classes_in(syms@, g, i as nat));
                }
            }
        }
        i += 1;
    }
    m
}

proof fn lemma_classes_bounded(syms: Seq<Symbol>, fid: i64, k: nat)
    requires
        k <= syms.len(),
        k <= usize::MAX + 1,
    ensures
        forall|j: int| 0 <= j < classes_in(syms, fid, k).len() ==> #[trigger] classes_in(syms, fid, k)[j] < k,
    decreases k,
{
    if k > 0 {
        lemma_classes_bounded(syms, fid, (k - 1) as nat);
        let prev = classes_in(syms, fid, (k - 1) as nat);
        assert forall|j: int| 0 <= j < classes_in(syms, fid, k).len() implies #[trigger] classes_in(syms, fid, k)[j] < k by {
            if j < prev.len() {
                assert(classes_in(syms, fid, k)[j] == prev[j]);
            }
        }
    }
}

/// The names of the listed symbols, borrowed.
fn names_of(syms: &Vec<Symbol>) -> (names: Vec<&str>)
    ensures
        views(names@) == symbol_names(syms@),
{
    let mut names: Vec<&str> = Vec::new();
    let mut i: usize = 0;
    while i < syms.len()
        invariant
            i <= syms.len(),
            names@.len() == i,
            forall|j: int| 0 <= j < i ==> #[trigger] names@[j]@ == syms@[j].name@,
        decreases syms.len() - i,
    {
        names.push(syms[i].name.as_str());
        i += 1;
    }
    assert(views(names@) =~= symbol_names(syms@));
    names
}

/// The paths of the listed files, borrowed.
fn paths_of(files: &Vec<(FileId, String)>) -> (paths: Vec<&str>)
    ensures
        views(paths@) == file_paths(files@),
{
    let mut paths: Vec<&str> = Vec::new();
    let mut i: usize = 0;
    while i < files.len()
        invariant
            i <= files.len(),
            paths@.len() == i,
            forall|j: int| 0 <= j < i ==> #[trigger] paths@[j]@ == files@[j].1@,
        decreases files.len() - i,
    {
        paths.push(files[i].1.as_str());
        i += 1;
    }
    assert(views(paths@) =~= file_paths(files@));
    paths
}

/// The first class of `bucket` whose span contains `span`.
fn find_container(syms: &Vec<Symbol>, bucket: &Vec<usize>, span: Span) -> (r: Option<usize>)
    requires
        forall|j: int| 0 <= j < bucket@.len() ==> #[trigger] bucket@[j] < syms@.len(),
    ensures
        r == first_container(syms@, bucket@, span),
        r matches Some(c) ==> c < syms@.len(),
{
    let mut j: usize = 0;
    assert(bucket@.skip(0) =~= bucket@);
    while j < bucket.len()
        invariant
            j <= bucket.len(),
            forall|x: int| 0 <= x < bucket@.len() ==> #[trigger] bucket@[x] < syms@.len(),
            first_container(syms@, bucket@, span) == first_container(syms@, bucket@.skip(j as int), span),
        decreases bucket.len() - j,
    {
        let c = bucket[j];
        let cs = syms[c].span;
        assert(bucket@.skip(j as int)[0] == c);
        if cs.start_byte <= span.start_byte && span.end_byte <= cs.end_byte {
            return Some(c);
        }
        assert(bucket@.skip(j as int).drop_first() =~= bucket@.skip((j + 1) as int));
        j += 1;
    }
    assert(bucket@.skip(j as int) =~= Seq::<usize>::empty());
    None
}

/// Resolve parsed references into edges, then add class-to-method `defines`
/// edges. `symbols` and `files` are what the index lists after the parsed
/// files were written; each parsed file finds its id by its path.
pub fn resolve_edges(
    symbols: &Vec<Symbol>,
    files: &Vec<(FileId, String)>,
    parsed: &Vec<ParsedFile>,
) -> (edges: Vec<Edge>)
    ensures
        edges@ == resolved_edges(symbols@, files@, parsed@),
{
    let ghost syms = symbols@;
    let names = names_of(symbols);
    let name_index = KeyIndex::build(&names);
    let paths = paths_of(files);
    let path_index = KeyIndex::build(&paths);
    let by_span = index_spans(symbols);
    let classes = index_classes(symbols);
    proof {
        assert(syms.len() == symbols.len());
        assert(files@.len() == files.len());
    }

    let mut edges: Vec<Edge> = Vec::new();
    let mut fi: usize = 0;
    while fi < parsed.len()
        invariant
            fi <= parsed.len(),
            syms == symbols@,
            syms.len() == symbols.len(),
            files@.len() == files.len(),
            views(names@) == symbol_names(syms),
            name_index.indexes(views(names@)),
            views(paths@) == file_paths(files@),
            path_index.indexes(views(paths@)),
            forall|f: i64, st: u32| #[trigger] span_slot(by_span@, f, st) == last_symbol_at(syms, FileId(f), st, syms.len()),
            forall|f: i64| #[trigger] class_slot(classes@, f) == classes_in(syms, f, syms.len()),
            edges@ == call_edges(syms, files@, parsed@.take(fi as int)),
        decreases parsed.len() - fi,
    {
        let file = &parsed[fi];
        let ghost before = edges@;
        let found = path_index.lookup(&paths, file.path.as_str());
        proof {
            assert(views(paths@).len() == paths@.len());
            assert(file_paths(files@).len() == files@.len());
            assert(found@ == matching(file_paths(files@), file.path@, files@.len()));
            lemma_matching_members(file_paths(files@), file.path@, files@.len());
            assert(parsed@.take((fi + 1) as int).drop_last() =~= parsed@.take(fi as int));
        }
        if found.len() > 0 {
            let file_id = files[found[found.len() - 1]].0;
            assert(file_for_path(files@, file.path@) == Some(file_id));
            let mut ri: usize = 0;
            while ri < file.refs.len()
                invariant
                    ri <= file.refs.len(),
                    syms == symbols@,
                    syms.len() == symbols.len(),
                    views(names@) == symbol_names(syms),
                    name_index.indexes(views(names@)),
                    forall|f: i64, st: u32| #[trigger] span_slot(by_span@, f, st) == last_symbol_at(syms, FileId(f), st, syms.len()),
                    edges@ == before + refs_edges(syms, file_id, file.refs@.take(ri as int)),
                decreases file.refs.len() - ri,
            {
                let reference = &file.refs[ri];
                let ghost mid = edges@;
                proof {
                    assert(file.refs@.take((ri + 1) as int).drop_last() =~= file.refs@.take(ri as int));
                    assert(span_slot(by_span@, file_id.0, reference.from.start_byte) == last_symbol_at(syms, FileId(file_id.0), reference.from.start_byte, syms.len()));
                }
                let key = span_key_of(file_id, reference.from.start_byte);
                match by_span.get(&key) {
                    None => {
                        assert(ref_edges(syms, file_id, *reference) =~= Seq::<Edge>::empty());
                    },
                    Some(from_pos) => {
                        let from_pos = *from_pos;
                        proof {
                            lemma_last_symbol_at_bounded(syms, file_id, reference.from.start_byte, syms.len());
                        }
                        let from_id = symbols[from_pos].id;
                        let candidates = name_index.lookup(&names, reference.to_name.as_str());
                        proof {
                            assert(views(names@).len() == names@.len());
                            assert(symbol_names(syms).len() == syms.len());
                            assert(candidates@ == matching(symbol_names(syms), reference.to_name@, syms.len()));
                            lemma_matching_members(symbol_names(syms), reference.to_name@, syms.len());
                        }
                        let mut same: Vec<usize> = Vec::new();
                        let mut ci: usize = 0;
                        while ci < candidates.len()
                            invariant
                                ci <= candidates.len(),
                                syms == symbols@,
                                forall|x: int| 0 <= x < candidates@.len() ==> #[trigger] candidates@[x] < syms.len(),
                                same@ == in_file(syms, candidates@.take(ci as int), file_id),
                                forall|x: int| 0 <= x < same@.len() ==> #[trigger] same@[x] < syms.len(),
                            decreases candidates.len() - ci,
                        {
                            let c = candidates[ci];
                            if symbols[c].file_id == file_id {
                                same.push(c);
                            }
                            ci += 1;
                            assert(candidates@.take(ci as int).drop_last() =~= candidates@.take((ci - 1) as int));
                        }
                        assert(candidates@.take(candidates@.len() as int) =~= candidates@);
                        let chosen = if same.len() > 0 {
                            same
                        } else {
                            candidates
                        };
                        assert(chosen@ == targets(syms, reference.to_name@, file_id));
                        let mut ti: usize = 0;
                        while ti < chosen.len()
                            invariant
                                ti <= chosen.len(),
                                syms == symbols@,
                                forall|x: int| 0 <= x < chosen@.len() ==> #[trigger] chosen@[x] < syms.len(),
                                edges@ == mid + edges_to(syms, chosen@.take(ti as int), from_id, reference.kind),
                            decreases chosen.len() - ti,
                        {
                            let to = symbols[chosen[ti]].id;
                            if to != from_id {
                                edges.push(Edge { src: from_id, dst: to, kind: reference.kind });
                            }
                            ti += 1;
                            assert(chosen@.take(ti as int).drop_last() =~= chosen@.take((ti - 1) as int));
                        }
                        assert(chosen@.take(chosen@.len() as int) =~= chosen@);
                    },
                }
                assert(edges@ =~= before + refs_edges(syms, file_id, file.refs@.take((ri + 1) as int)));
                ri += 1;
            }
            assert(file.refs@.take(file.refs@.len() as int) =~= file.refs@);
            assert(edges@ =~= call_edges(syms, files@, parsed@.take((fi + 1) as int)));
        } else {
            assert(edges@ =~= call_edges(syms, files@, parsed@.take((fi + 1) as int)));
        }
        fi += 1;
    }
    assert(parsed@.take(parsed@.len() as int) =~= parsed@);
    let ghost calls = edges@;

    let mut si: usize = 0;
    while si < symbols.len()
        invariant
            si <= symbols.len(),
            syms == symbols@,
            syms.len() == symbols.len(),
            forall|f: i64| #[trigger] class_slot(classes@, f) == classes_in(syms, f, syms.len()),
            edges@ == calls + define_edges(syms, si as nat),
        decreases symbols.len() - si,
    {
        let s = &symbols[si];
        if s.kind == SymbolKind::Method {
            proof {
                assert(class_slot(classes@, s.file_id.0) == classes_in(syms, s.file_id.0, syms.len()));
                lemma_classes_bounded(syms, s.file_id.0, syms.len());
            }
            match classes.get(&s.file_id.0) {
                None => {
                    assert(classes_in(syms, s.file_id.0, syms.len()) =~= Seq::<usize>::empty());
                },
                Some(bucket) => {
                    match find_container(symbols, bucket, s.span) {
                        Some(c) => {
                            edges.push(Edge { src: symbols[c].id, dst: s.id, kind: EdgeKind::Defines });
                        },
                        None => {},
                    }
                },
            }
        }
        si += 1;
    }
    edges
}

proof fn lemma_last_symbol_at_bounded(syms: Seq<Symbol>, fid: FileId, start: u32, k: nat)
    requires
        k <= syms.len(),
        k <= usize::MAX + 1,
    ensures
        last_symbol_at(syms, fid, start, k) matches Some(i) ==> i < k && syms[i as int].file_id == fid
            && syms[i as int].span.start_byte == start,
    decreases k,
{
    if k > 0 {
        lemma_last_symbol_at_bounded(syms, fid, start, (k - 1) as nat);
    }
}

} // verus!

verus! {

proof fn lemma_matching_complete(keys: Seq<Seq<char>>, key: Seq<char>, k: nat, i: int)
    requires
        k <= keys.len(),
        k <= usize::MAX + 1,
        0 <= i < k,
        keys[i] == key,
    ensures
        matching(keys, key, k).contains(i as usize),
    decreases k,
{
    let prev = matching(keys, key, (k - 1) as nat);
    if i < k - 1 {
        lemma_matching_complete(keys, key, (k - 1) as nat, i);
        let j = choose|j: int| 0 <= j < prev.len() && prev[j] == i as usize;
        if keys[k - 1] == key {
            assert(matching(keys, key, k)[j] == i as usize);
        }
    } else {
        assert(matching(keys, key, k).last() == i as usize);
    }
}

proof fn lemma_in_file_members(syms: Seq<Symbol>, idxs: Seq<usize>, fid: FileId)
    ensures
        forall|j: int| 0 <= j < in_file(syms, idxs, fid).len() ==> idxs.contains(
            #[trigger] in_file(syms, idxs, fid)[j],
        ) && syms[in_file(syms, idxs, fid)[j] as int].file_id == fid,
    decreases idxs.len(),
{
    if idxs.len() > 0 {
        let prev = in_file(syms, idxs.drop_last(), fid);
        lemma_in_file_members(syms, idxs.drop_last(), fid);
        assert forall|j: int| 0 <= j < in_file(syms, idxs, fid).len() implies idxs.contains(
            #[trigger] in_file(syms, idxs, fid)[j],
        ) && syms[in_file(syms, idxs, fid)[j] as int].file_id == fid by {
            if j < prev.len() {
                assert(in_file(syms, idxs, fid)[j] == prev[j]);
                let x = choose|x: int| 0 <= x < idxs.drop_last().len() && idxs.drop_last()[x] == prev[j];
                assert(idxs[x] == prev[j]);
            } else {
                assert(idxs[idxs.len() - 1] == idxs.last());
            }
        }
    }
}

proof fn lemma_in_file_complete(syms: Seq<Symbol>, idxs: Seq<usize>, fid: FileId, x: usize)
    requires
        idxs.contains(x),
        syms[x as int].file_id == fid,
    ensures
        in_file(syms, idxs, fid).len() > 0,
    decreases idxs.len(),
{
    if idxs.last() != x {
        let j = choose|j: int| 0 <= j < idxs.len() && idxs[j] == x;
        assert(idxs.drop_last()[j] == x);
        lemma_in_file_complete(syms, idxs.drop_last(), fid, x);
    }
}

proof fn lemma_edges_to_members(syms: Seq<Symbol>, idxs: Seq<usize>, from: SymbolId, kind: EdgeKind, e: Edge)
    requires
        edges_to(syms, idxs, from, kind).contains(e),
    ensures
        e.src == from,
        e.kind == kind,
        e.dst != from,
        exists|j: int| 0 <= j < idxs.len() && syms[idxs[j] as int].id == e.dst,
    decreases idxs.len(),
{
    let prev = edges_to(syms, idxs.drop_last(), from, kind);
    if prev.contains(e) {
        lemma_edges_to_members(syms, idxs.drop_last(), from, kind, e);
        let j = choose|j: int| 0 <= j < idxs.drop_last().len() && syms[idxs.drop_last()[j] as int].id == e.dst;
        assert(idxs[j] == idxs.drop_last()[j]);
    } else {
        assert(syms[idxs[idxs.len() - 1] as int].id == e.dst);
    }
}

/// A reference edge runs from the symbol of the referring file that starts
/// where the reference's enclosing definition starts, to a different symbol
/// bearing the referenced name, with the reference's kind; and when some
/// symbol of that name lies in the referring file, the target lies there too.
pub proof fn lemma_reference_edge(syms: Seq<Symbol>, fid: FileId, r: RawRef, e: Edge)
    requires
        syms.len() <= usize::MAX,
        ref_edges(syms, fid, r).contains(e),
    ensures
        e.kind == r.kind,
        e.src != e.dst,
        exists|i: int|
            0 <= i < syms.len() && #[trigger] syms[i].id == e.src && syms[i].file_id == fid
                && syms[i].span.start_byte == r.from.start_byte,
        exists|t: int| 0 <= t < syms.len() && #[trigger] syms[t].id == e.dst && syms[t].name@ == r.to_name@,
        (exists|u: int| 0 <= u < syms.len() && #[trigger] syms[u].name@ == r.to_name@ && syms[u].file_id == fid)
            ==> exists|t: int|
            0 <= t < syms.len() && #[trigger] syms[t].id == e.dst && syms[t].name@ == r.to_name@
                && syms[t].file_id == fid,
{
    lemma_last_symbol_at_bounded(syms, fid, r.from.start_byte, syms.len());
    let i = last_symbol_at(syms, fid, r.from.start_byte, syms.len())->0;
    let names = symbol_names(syms);
    let all = matching(names, r.to_name@, syms.len());
    let same = in_file(syms, all, fid);
    let ts = targets(syms, r.to_name@, fid);
    lemma_edges_to_members(syms, ts, syms[i as int].id, r.kind, e);
    lemma_matching_members(names, r.to_name@, syms.len());
    lemma_in_file_members(syms, all, fid);
    assert(syms[i as int].id == e.src);
    let j = choose|j: int| 0 <= j < ts.len() && syms[ts[j] as int].id == e.dst;
    let t = ts[j];
    if same.len() > 0 {
        assert(all.contains(t));
        let x = choose|x: int| 0 <= x < all.len() && all[x] == t;
        assert(t < syms.len() && names[t as int] == r.to_name@);
        assert(syms[t as int].file_id == fid);
    } else {
        assert(t < syms.len() && names[t as int] == r.to_name@);
    }
    assert(syms[t as int].name@ == r.to_name@);
    if exists|u: int| 0 <= u < syms.len() && #[trigger] syms[u].name@ == r.to_name@ && syms[u].file_id == fid {
        let u = choose|u: int| 0 <= u < syms.len() && #[trigger] syms[u].name@ == r.to_name@ && syms[u].file_id == fid;
        assert(names[u] == r.to_name@);
        lemma_matching_complete(names, r.to_name@, syms.len(), u);
        lemma_in_file_complete(syms, all, fid, u as usize);
        assert(syms[t as int].file_id == fid);
    }
}

proof fn lemma_classes_in_members(syms: Seq<Symbol>, fid: i64, k: nat)
    requires
        k <= syms.len(),
        k <= usize::MAX + 1,
    ensures
        forall|j: int|
            0 <= j < classes_in(syms, fid, k).len() ==> #[trigger] classes_in(syms, fid, k)[j] < k
                && syms[classes_in(syms, fid, k)[j] as int].kind == SymbolKind::Class
                && syms[classes_in(syms, fid, k)[j] as int].file_id.0 == fid,
    decreases k,
{
    if k > 0 {
        lemma_classes_in_members(syms, fid, (k - 1) as nat);
        let prev = classes_in(syms, fid, (k - 1) as nat);
        assert forall|j: int| 0 <= j < classes_in(syms, fid, k).len() implies #[trigger] classes_in(syms, fid, k)[j] < k
            && syms[classes_in(syms, fid, k)[j] as int].kind == SymbolKind::Class
            && syms[classes_in(syms, fid, k)[j] as int].file_id.0 == fid by {
            if j < prev.len() {
                assert(classes_in(syms, fid, k)[j] == prev[j]);
            }
        }
    }
}

proof fn lemma_first_container_member(syms: Seq<Symbol>, idxs: Seq<usize>, span: Span)
    ensures
        first_container(syms, idxs, span) matches Some(c) ==> idxs.contains(c) && syms[c as int].span.contains(span),
    decreases idxs.len(),
{
    if idxs.len() > 0 && !syms[idxs[0] as int].span.contains(span) {
        lemma_first_container_member(syms, idxs.drop_first(), span);
        if let Some(c) = first_container(syms, idxs.drop_first(), span) {
            let j = choose|j: int| 0 <= j < idxs.drop_first().len() && idxs.drop_first()[j] == c;
            assert(idxs[j + 1] == c);
        }
    } else if idxs.len() > 0 {
        assert(idxs[0] == idxs[0]);
    }
}

/// The container found among `idxs` is the first listed one whose span
/// contains `span`, and none is found exactly when no listed one's does.
pub proof fn lemma_first_container_is_first(syms: Seq<Symbol>, idxs: Seq<usize>, span: Span)
    ensures
        match first_container(syms, idxs, span) {
            Some(c) => exists|p: int|
                0 <= p < idxs.len() && #[trigger] idxs[p] == c && syms[c as int].span.start_byte <= span.start_byte
                    && span.end_byte <= syms[c as int].span.end_byte && forall|q: int|
                    0 <= q < p ==> !(syms[#[trigger] idxs[q] as int].span.start_byte <= span.start_byte
                        && span.end_byte <= syms[idxs[q] as int].span.end_byte),
            None => forall|q: int|
                0 <= q < idxs.len() ==> !(syms[#[trigger] idxs[q] as int].span.start_byte <= span.start_byte
                    && span.end_byte <= syms[idxs[q] as int].span.end_byte),
        },
    decreases idxs.len(),
{
    if idxs.len() > 0 {
        let rest = idxs.drop_first();
        lemma_first_container_is_first(syms, rest, span);
        if syms[idxs[0] as int].span.contains(span) {
            assert(idxs[0] == idxs[0]);
        } else {
            match first_container(syms, rest, span) {
                Some(c) => {
                    let p = choose|p: int|
                        0 <= p < rest.len() && #[trigger] rest[p] == c && syms[c as int].span.start_byte
                            <= span.start_byte && span.end_byte <= syms[c as int].span.end_byte && forall|q: int|
                            0 <= q < p ==> !(syms[#[trigger] rest[q] as int].span.start_byte <= span.start_byte
                                && span.end_byte <= syms[rest[q] as int].span.end_byte);
                    assert(idxs[p + 1] == c);
                    assert forall|q: int| 0 <= q < p + 1 implies !(syms[#[trigger] idxs[q] as int].span.start_byte
                        <= span.start_byte && span.end_byte <= syms[idxs[q] as int].span.end_byte) by {
                        if q > 0 {
                            assert(idxs[q] == rest[q - 1]);
                        }
                    }
                },
                None => {
                    assert forall|q: int| 0 <= q < idxs.len() implies !(syms[#[trigger] idxs[q] as int].span.start_byte
                        <= span.start_byte && span.end_byte <= syms[idxs[q] as int].span.end_byte) by {
                        if q > 0 {
                            assert(idxs[q] == rest[q - 1]);
                        }
                    }
                },
            }
        }
    }
}

proof fn lemma_classes_in_complete(syms: Seq<Symbol>, fid: i64, k: nat)
    requires
        k <= syms.len(),
        k <= usize::MAX + 1,
    ensures
        forall|c: int|
            0 <= c < k && syms[c].kind == SymbolKind::Class && syms[c].file_id.0 == fid ==> exists|p: int|
                0 <= p < classes_in(syms, fid, k).len() && #[trigger] classes_in(syms, fid, k)[p] == c,
        forall|p: int, q: int|
            0 <= p < q < classes_in(syms, fid, k).len() ==> #[trigger] classes_in(syms, fid, k)[p]
                < #[trigger] classes_in(syms, fid, k)[q],
    decreases k,
{
    if k > 0 {
        let km = (k - 1) as nat;
        lemma_classes_in_complete(syms, fid, km);
        lemma_classes_bounded(syms, fid, km);
        let prev = classes_in(syms, fid, km);
        let cur = classes_in(syms, fid, k);
        assert forall|c: int|
            0 <= c < k && syms[c].kind == SymbolKind::Class && syms[c].file_id.0 == fid implies exists|p: int|
            0 <= p < cur.len() && #[trigger] cur[p] == c by {
            if c < km {
                let p = choose|p: int| 0 <= p < prev.len() && #[trigger] prev[p] == c;
                assert(cur[p] == prev[p]);
            } else {
                assert(cur == prev.push(km as usize));
                assert(cur[prev.len() as int] == c);
            }
        }
        assert forall|p: int, q: int| 0 <= p < q < cur.len() implies #[trigger] cur[p] < #[trigger] cur[q] by {
            if q < prev.len() {
                assert(cur[p] == prev[p] && cur[q] == prev[q]);
            } else {
                assert(cur[p] == prev[p]);
                assert(prev[p] < km);
            }
        }
    }
}

proof fn lemma_defines_present(syms: Seq<Symbol>, k: nat, m: int, c: usize)
    requires
        0 <= m < k <= syms.len(),
        syms[m].kind == SymbolKind::Method,
        defining_class(syms, syms[m]) == Some(c),
    ensures
        define_edges(syms, k).contains(Edge { src: syms[c as int].id, dst: syms[m].id, kind: EdgeKind::Defines }),
    decreases k,
{
    let e = Edge { src: syms[c as int].id, dst: syms[m].id, kind: EdgeKind::Defines };
    let prev = define_edges(syms, (k - 1) as nat);
    if m < k - 1 {
        lemma_defines_present(syms, (k - 1) as nat, m, c);
        let i = choose|i: int| 0 <= i < prev.len() && prev[i] == e;
        assert(define_edges(syms, k) == prev.push(e) || define_edges(syms, k) == prev || exists|x: Edge|
            define_edges(syms, k) == prev.push(x));
        if define_edges(syms, k) == prev {
        } else {
            let x = define_edges(syms, k).last();
            assert(define_edges(syms, k) == prev.push(x));
            assert(define_edges(syms, k)[i] == e);
        }
    } else {
        assert(define_edges(syms, k) == prev.push(e));
        assert(define_edges(syms, k)[prev.len() as int] == e);
    }
}

/// Whether class `d` is the first listed class of method `m`'s file whose
/// span contains the method's span.
pub open spec fn first_enclosing_class(syms: Seq<Symbol>, m: int, d: int) -> bool {
    &&& 0 <= d < syms.len()
    &&& syms[d].kind == SymbolKind::Class
    &&& syms[d].file_id == syms[m].file_id
    &&& syms[d].span.start_byte <= syms[m].span.start_byte
    &&& syms[m].span.end_byte <= syms[d].span.end_byte
    &&& forall|x: int|
        0 <= x < d && #[trigger] syms[x].kind == SymbolKind::Class && syms[x].file_id == syms[m].file_id ==> !(
        syms[x].span.start_byte <= syms[m].span.start_byte && syms[m].span.end_byte <= syms[x].span.end_byte)
}

#[verifier::rlimit(100)]
proof fn lemma_defining_class_is_first(syms: Seq<Symbol>, m: int, c: int) -> (d: usize)
    requires
        syms.len() <= usize::MAX,
        0 <= m < syms.len(),
        0 <= c < syms.len(),
        syms[c].kind == SymbolKind::Class,
        syms[c].file_id == syms[m].file_id,
        syms[c].span.start_byte <= syms[m].span.start_byte,
        syms[m].span.end_byte <= syms[c].span.end_byte,
    ensures
        defining_class(syms, syms[m]) == Some(d),
        first_enclosing_class(syms, m, d as int),
{
    let fid = syms[m].file_id.0;
    let bucket = classes_in(syms, fid, syms.len());
    let span = syms[m].span;
    lemma_classes_in_complete(syms, fid, syms.len());
    lemma_classes_in_members(syms, fid, syms.len());
    lemma_first_container_is_first(syms, bucket, span);
    assert(syms[c].file_id.0 == fid);
    let pc = choose|p: int| 0 <= p < bucket.len() && #[trigger] bucket[p] == c;
    if first_container(syms, bucket, span) is None {
        assert(bucket[pc] == c);
        assert(false);
    }
    let d = first_container(syms, bucket, span)->0;
    let p = choose|p: int|
        0 <= p < bucket.len() && #[trigger] bucket[p] == d && syms[d as int].span.start_byte <= span.start_byte
            && span.end_byte <= syms[d as int].span.end_byte && forall|q: int|
            0 <= q < p ==> !(syms[#[trigger] bucket[q] as int].span.start_byte <= span.start_byte && span.end_byte
                <= syms[bucket[q] as int].span.end_byte);
    assert(syms[d as int].file_id.0 == fid);
    assert forall|x: int|
        0 <= x < d && #[trigger] syms[x].kind == SymbolKind::Class && syms[x].file_id == syms[m].file_id implies !(
        syms[x].span.start_byte <= syms[m].span.start_byte && syms[m].span.end_byte <= syms[x].span.end_byte) by {
        assert(syms[x].file_id.0 == fid);
        let q = choose|q: int| 0 <= q < bucket.len() && #[trigger] bucket[q] == x;
        if q > p {
            assert(bucket[p] < bucket[q]);
        }
    }
    d
}

/// A class defines each method of its file whose span it contains: for every
/// method lying within some class of its file, resolution yields a `defines`
/// edge to it from the first such class listed.
pub proof fn lemma_contained_method_is_defined(
    syms: Seq<Symbol>,
    files: Seq<(FileId, String)>,
    parsed: Seq<ParsedFile>,
    m: int,
    c: int,
)
    requires
        syms.len() <= usize::MAX,
        0 <= m < syms.len(),
        0 <= c < syms.len(),
        syms[m].kind == SymbolKind::Method,
        syms[c].kind == SymbolKind::Class,
        syms[c].file_id == syms[m].file_id,
        syms[c].span.start_byte <= syms[m].span.start_byte,
        syms[m].span.end_byte <= syms[c].span.end_byte,
    ensures
        exists|d: int|
            #[trigger] first_enclosing_class(syms, m, d) && resolved_edges(syms, files, parsed).contains(
                Edge { src: syms[d].id, dst: syms[m].id, kind: EdgeKind::Defines },
            ),
{
    let d = lemma_defining_class_is_first(syms, m, c);
    lemma_defines_present(syms, syms.len(), m, d);
    let e = Edge { src: syms[d as int].id, dst: syms[m].id, kind: EdgeKind::Defines };
    let ce = call_edges(syms, files, parsed);
    let de = define_edges(syms, syms.len());
    let i = choose|i: int| 0 <= i < de.len() && de[i] == e;
    assert((ce + de)[ce.len() + i] == e);
    assert(resolved_edges(syms, files, parsed).contains(e));
    assert(first_enclosing_class(syms, m, d as int));
}

/// A `defines` edge runs from a class to a method of the same file whose
/// span the class's span contains.
pub proof fn lemma_define_edge(syms: Seq<Symbol>, k: nat, e: Edge)
    requires
        k <= syms.len(),
        syms.len() <= usize::MAX,
        define_edges(syms, k).contains(e),
    ensures
        e.kind == EdgeKind::Defines,
        exists|c: int, m: int|
            0 <= c < syms.len() && 0 <= m < syms.len() && #[trigger] syms[c].id == e.src
                && #[trigger] syms[m].id == e.dst && syms[c].kind == SymbolKind::Class
                && syms[m].kind == SymbolKind::Method && syms[c].file_id == syms[m].file_id
                && syms[c].span.contains(syms[m].span),
    decreases k,
{
    let prev = define_edges(syms, (k - 1) as nat);
    if prev.contains(e) {
        lemma_define_edge(syms, (k - 1) as nat, e);
    } else {
        let m = k - 1;
        let s = syms[m];
        let bucket = classes_in(syms, s.file_id.0, syms.len());
        lemma_first_container_member(syms, bucket, s.span);
        lemma_classes_in_members(syms, s.file_id.0, syms.len());
        let c = defining_class(syms, s)->0;
        let j = choose|j: int| 0 <= j < bucket.len() && bucket[j] == c;
        assert(syms[c as int].kind == SymbolKind::Class);
        assert(syms[c as int].file_id.0 == s.file_id.0);
        assert(syms[c as int].id == e.src && syms[m as int].id == e.dst);
    }
}


/// Whether a reference of the file at `path` can resolve to nothing: the
/// index lists no such file, no symbol of that file starts where the
/// reference's source starts, or no symbol bears the referenced name.
pub open spec fn unresolvable(syms: Seq<Symbol>, files: Seq<(FileId, String)>, path: Seq<char>, r: RawRef) -> bool {
    match file_for_path(files, path) {
        None => true,
        Some(fid) => last_symbol_at(syms, fid, r.from.start_byte, syms.len()) is None || matching(
            symbol_names(syms),
            r.to_name@,
            syms.len(),
        ).len() == 0,
    }
}

proof fn lemma_in_file_empty(syms: Seq<Symbol>, fid: FileId)
    ensures
        in_file(syms, Seq::<usize>::empty(), fid).len() == 0,
{
}

proof fn lemma_refs_edges_concat(syms: Seq<Symbol>, fid: FileId, a: Seq<RawRef>, b: Seq<RawRef>)
    ensures
        refs_edges(syms, fid, a + b) == refs_edges(syms, fid, a) + refs_edges(syms, fid, b),
    decreases b.len(),
{
    if b.len() == 0 {
        assert(a + b =~= a);
        assert(refs_edges(syms, fid, a) + Seq::<Edge>::empty() =~= refs_edges(syms, fid, a));
    } else {
        lemma_refs_edges_concat(syms, fid, a, b.drop_last());
        assert((a + b).drop_last() =~= a + b.drop_last());
        assert((a + b).last() == b.last());
        assert(refs_edges(syms, fid, a) + refs_edges(syms, fid, b.drop_last()) + ref_edges(syms, fid, b.last())
            =~= refs_edges(syms, fid, a) + (refs_edges(syms, fid, b.drop_last()) + ref_edges(syms, fid, b.last())));
    }
}

proof fn lemma_call_edges_pointwise(
    syms: Seq<Symbol>,
    files: Seq<(FileId, String)>,
    p1: Seq<ParsedFile>,
    p2: Seq<ParsedFile>,
)
    requires
        p1.len() == p2.len(),
        forall|i: int| 0 <= i < p1.len() ==> file_edges(syms, files, #[trigger] p1[i]) == file_edges(syms, files, p2[i]),
    ensures
        call_edges(syms, files, p1) == call_edges(syms, files, p2),
    decreases p1.len(),
{
    if p1.len() > 0 {
        lemma_call_edges_pointwise(syms, files, p1.drop_last(), p2.drop_last());
        assert(file_edges(syms, files, p1[p1.len() - 1]) == file_edges(syms, files, p2[p2.len() - 1]));
    }
}

/// A reference that can resolve to nothing (its file is not indexed, no
/// symbol starts at its source, or no symbol bears its name) adds no edge:
/// resolving with it left out of its file gives the same edges.
pub proof fn lemma_unresolvable_reference_adds_nothing(
    syms: Seq<Symbol>,
    files: Seq<(FileId, String)>,
    parsed: Seq<ParsedFile>,
    without: Seq<ParsedFile>,
    f: int,
    j: int,
)
    requires
        0 <= f < parsed.len(),
        0 <= j < parsed[f].refs@.len(),
        unresolvable(syms, files, parsed[f].path@, parsed[f].refs@[j]),
        without.len() == parsed.len(),
        forall|i: int| 0 <= i < parsed.len() && i != f ==> #[trigger] without[i] == parsed[i],
        without[f].path@ == parsed[f].path@,
        without[f].refs@ == parsed[f].refs@.remove(j),
    ensures
        resolved_edges(syms, files, without) == resolved_edges(syms, files, parsed),
{
    let pf = parsed[f];
    let r = pf.refs@[j];
    match file_for_path(files, pf.path@) {
        None => {},
        Some(fid) => {
            let all = matching(symbol_names(syms), r.to_name@, syms.len());
            if all.len() == 0 {
                lemma_in_file_empty(syms, fid);
                assert(all =~= Seq::<usize>::empty());
                assert(targets(syms, r.to_name@, fid) =~= Seq::<usize>::empty());
            }
            assert(ref_edges(syms, fid, r) =~= Seq::<Edge>::empty());
            let refs = pf.refs@;
            let a = refs.take(j);
            let b = refs.skip(j + 1);
            assert(refs =~= a + seq![r] + b);
            assert(refs.remove(j) =~= a + b);
            lemma_refs_edges_concat(syms, fid, a, b);
            lemma_refs_edges_concat(syms, fid, a + seq![r], b);
            lemma_refs_edges_concat(syms, fid, a, seq![r]);
            assert(seq![r].drop_last() =~= Seq::<RawRef>::empty());
            assert(seq![r].last() == r);
            assert(refs_edges(syms, fid, Seq::<RawRef>::empty()) =~= Seq::<Edge>::empty());
            assert(refs_edges(syms, fid, seq![r]) =~= Seq::<Edge>::empty());
            assert(refs_edges(syms, fid, a + seq![r]) =~= refs_edges(syms, fid, a));
        },
    }
    assert(file_edges(syms, files, without[f]) == file_edges(syms, files, parsed[f]));
    assert forall|i: int| 0 <= i < parsed.len() implies file_edges(syms, files, #[trigger] parsed[i])
        == file_edges(syms, files, without[i]) by {
        if i != f {
            assert(without[i] == parsed[i]);
        }
    }
    lemma_call_edges_pointwise(syms, files, parsed, without);
}

} // verus!
