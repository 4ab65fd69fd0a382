//! The text behind the query tools: compact one-line-per-symbol listings cut
//! to a token budget, and the escaping that makes a user query a literal
//! substring pattern.

use vstd::prelude::*;

use crate::entities::Symbol;
use crate::text::{decimal, decimal_string, push_str};

verus! {

broadcast use vstd::string::group_string_axioms;

/// Token budget a tool uses when the caller names none.
pub fn default_budget() -> (r: usize)
    ensures
        r == 1500,
{
    1500
}

/// Neighbor depth a tool uses when the caller names none.
pub fn default_depth() -> (r: u32)
    ensures
        r == 1,
{
    1
}

/// How many candidate rows a tool pulls before the budget trims them.
pub fn max_rows() -> (r: usize)
    ensures
        r == 500,
{
    500
}

/// The UTF-8 byte length of a text.
pub open spec fn byte_len(text: Seq<char>) -> nat {
    vstd::utf8::encode_utf8(text).len()
}

/// Rough token estimate of a text: its UTF-8 length in bytes divided by
/// four, rounded up.
pub open spec fn token_cost(text: Seq<char>) -> nat {
    (byte_len(text) + 3) / 4
}

/// `path:line` of a symbol.
pub open spec fn location_text(s: Symbol) -> Seq<char> {
    s.file_path@ + ":"@ + decimal(s.span.start_line as nat)
}

/// One listing row: `kind name  path:line` and, when present, two spaces and
/// the signature, then a line feed.
pub open spec fn row_text(s: Symbol) -> Seq<char> {
    s.kind.canonical() + " "@ + s.name@ + "  "@ + location_text(s) + match s.signature {
        Some(sig) => "  "@ + sig@,
        None => Seq::empty(),
    } + "\n"@
}

/// The rows of a list of symbols.
pub open spec fn rows(symbols: Seq<Symbol>) -> Seq<Seq<char>> {
    symbols.map_values(|s: Symbol| row_text(s))
}

/// Total token cost of the first `k` rows.
pub open spec fn cost_prefix(lines: Seq<Seq<char>>, k: nat) -> nat
    decreases k,
{
    if k == 0 || k > lines.len() {
        0
    } else {
        cost_prefix(lines, (k - 1) as nat) + token_cost(lines[k - 1])
    }
}

/// The first `k` rows fit the budget.
pub open spec fn fits(lines: Seq<Seq<char>>, budget: nat, k: nat) -> bool {
    cost_prefix(lines, k) <= budget
}

/// The longest prefix of at most `k` rows that fits the budget.
pub open spec fn longest_fit(lines: Seq<Seq<char>>, budget: nat, k: nat) -> nat
    decreases k,
{
    if k == 0 || fits(lines, budget, k) {
        k
    } else {
        longest_fit(lines, budget, (k - 1) as nat)
    }
}

/// Concatenation of a list of texts.
pub open spec fn joined(lines: Seq<Seq<char>>) -> Seq<char>
    decreases lines.len(),
{
    if lines.len() == 0 {
        Seq::empty()
    } else {
        joined(lines.drop_last()) + lines.last()
    }
}

/// The marker that ends a listing cut short by the budget.
pub open spec fn truncation_marker() -> Seq<char> {
    "… (truncated to fit token budget)\n"@
}

/// The listing of `symbols` within `budget` tokens: the longest prefix of
/// rows that fits (possibly none), followed by the truncation marker when
/// rows were left out; `(nothing found)` when there are no symbols.
pub open spec fn listing(symbols: Seq<Symbol>, budget: nat) -> Seq<char> {
    let lines = rows(symbols);
    if lines.len() == 0 {
        "(nothing found)\n"@
    } else {
        let k = longest_fit(lines, budget, lines.len());
        joined(lines.take(k as int)) + if k < lines.len() {
            truncation_marker()
        } else {
            Seq::empty()
        }
    }
}

/// The character a query escapes to in a `LIKE` pattern: backslash, `%` and
/// `_` get a backslash in front, everything else stands for itself.
pub open spec fn escape_char(c: char) -> Seq<char> {
    if c == '\\' || c == '%' || c == '_' {
        seq!['\\', c]
    } else {
        seq![c]
    }
}

/// A query with every `LIKE` wildcard and the escape character escaped.
pub open spec fn escaped(q: Seq<char>) -> Seq<char>
    decreases q.len(),
{
    if q.len() == 0 {
        Seq::empty()
    } else {
        escaped(q.drop_last()) + escape_char(q.last())
    }
}

/// Reading an escaped pattern back: a backslash stands for the character
/// after it.
pub open spec fn unescaped(p: Seq<char>) -> Seq<char>
    decreases p.len(),
{
    if p.len() == 0 {
        Seq::empty()
    } else if p[0] == '\\' && p.len() >= 2 {
        seq![p[1]] + unescaped(p.skip(2))
    } else {
        seq![p[0]] + unescaped(p.drop_first())
    }
}

/// Rough token estimate of `text`: a quarter of its UTF-8 length, rounded up.
pub fn estimate_tokens(text: &str) -> (r: usize)
    ensures
        r == token_cost(text@),
{
    let n = text.as_bytes().len();
    assert(n == byte_len(text@));
    let r = n / 4 + if n % 4 == 0 {
        0
    } else {
        1
    };
    assert(r == (n + 3) / 4) by (nonlinear_arith)
        requires
            r == n / 4 + if n % 4 == 0 { 0int } else { 1int },
    ;
    r
}

/// Escape `LIKE` wildcards so a user query of `get_x` does not treat `_` as
/// "any character".
pub fn escape_like(query: &str) -> (r: String)
    ensures
        r@ == escaped(query@),
{
    let cs = crate::text::chars_of(query);
    let mut out = String::new();
    let mut i: usize = 0;
    while i < cs.len()
        invariant
            cs@ == query@,
            i <= cs.len(),
            out@ == escaped(cs@.take(i as int)),
        decreases cs.len() - i,
    {
        let c = cs[i];
        if c == '\\' {
            push_str(&mut out, "\\\\");
        } else if c == '%' {
            push_str(&mut out, "\\%");
        } else if c == '_' {
            push_str(&mut out, "\\_");
        } else {
            let single = [c];
            let s = crate::text::string_of(&single);
            push_str(&mut out, s.as_str());
        }
        proof {
            reveal_strlit("\\\\");
            reveal_strlit("\\%");
            reveal_strlit("\\_");
            assert(cs@.take((i + 1) as int).drop_last() =~= cs@.take(i as int));
            assert(escape_char(c) =~= (if c == '\\' { "\\\\"@ } else if c == '%' { "\\%"@ } else if c == '_' { "\\_"@ } else { seq![c] }));
        }
        i += 1;
    }
    assert(cs@.take(cs@.len() as int) =~= cs@);
    out
}

/// A `LIKE` pattern matching names that contain `query` literally.
pub fn contains_pattern(query: &str) -> (r: String)
    ensures
        r@ == "%"@ + escaped(query@) + "%"@,
{
    let mut out = String::new();
    push_str(&mut out, "%");
    let e = escape_like(query);
    push_str(&mut out, e.as_str());
    push_str(&mut out, "%");
    out
}

/// `path:line` of a symbol.
pub fn location(symbol: &Symbol) -> (r: String)
    ensures
        r@ == location_text(*symbol),
{
    let mut out = String::new();
    push_str(&mut out, symbol.file_path.as_str());
    push_str(&mut out, ":");
    let line = decimal_string(symbol.span.start_line);
    push_str(&mut out, line.as_str());
    out
}

/// One listing row for a symbol.
pub fn row(symbol: &Symbol) -> (r: String)
    ensures
        r@ == row_text(*symbol),
{
    let mut out = String::new();
    push_str(&mut out, symbol.kind.as_str());
    push_str(&mut out, " ");
    push_str(&mut out, symbol.name.as_str());
    push_str(&mut out, "  ");
    let loc = location(symbol);
    push_str(&mut out, loc.as_str());
    match &symbol.signature {
        Some(sig) => {
            push_str(&mut out, "  ");
            push_str(&mut out, sig.as_str());
        },
        None => {},
    }
    push_str(&mut out, "\n");
    proof {
        let base = symbol.kind.canonical() + " "@ + symbol.name@ + "  "@ + location_text(*symbol);
        match &symbol.signature {
            Some(sig) => {
                assert(out@ =~= base + ("  "@ + sig@) + "\n"@);
            },
            None => {
                assert(out@ =~= base + Seq::<char>::empty() + "\n"@);
            },
        }
    }
    out
}

proof fn lemma_longest_fit(lines: Seq<Seq<char>>, budget: nat, k: nat, n: nat)
    requires
        k <= n <= lines.len(),
        fits(lines, budget, k),
        k < n ==> !fits(lines, budget, k + 1),
    ensures
        longest_fit(lines, budget, n) == k,
    decreases n,
{
    if n > k {
        lemma_cost_prefix_monotone(lines, (k + 1) as nat, n);
        lemma_longest_fit(lines, budget, k, (n - 1) as nat);
    }
}

proof fn lemma_cost_prefix_monotone(lines: Seq<Seq<char>>, a: nat, b: nat)
    requires
        a <= b <= lines.len(),
    ensures
        cost_prefix(lines, a) <= cost_prefix(lines, b),
    decreases b,
{
    if a < b {
        lemma_cost_prefix_monotone(lines, a, (b - 1) as nat);
    }
}

/// The listing of `symbols` cut to `token_budget` tokens: one row per symbol
/// in the order given, stopping (with a truncation marker) before the first
/// row that would exceed the budget, so the rows shown never cost more than
/// the budget.
pub fn render(symbols: &[Symbol], token_budget: usize) -> (r: String)
    ensures
        r@ == listing(symbols@, token_budget as nat),
{
    let ghost lines = rows(symbols@);
    let mut out = String::new();
    let mut used: usize = 0;
    let mut i: usize = 0;
    let mut cut = false;
    while i < symbols.len()
        invariant_except_break
            i <= symbols.len(),
            lines == rows(symbols@),
            lines.len() == symbols@.len(),
            used == cost_prefix(lines, i as nat),
            fits(lines, token_budget as nat, i as nat),
            out@ == joined(lines.take(i as int)),
            !cut,
        ensures
            i <= symbols.len(),
            lines.len() == symbols@.len(),
            fits(lines, token_budget as nat, i as nat),
            cut ==> i < symbols.len() && !fits(lines, token_budget as nat, (i + 1) as nat)
                && out@ == joined(lines.take(i as int)) + truncation_marker(),
            !cut ==> i == symbols.len() && out@ == joined(lines.take(i as int)),
        decreases symbols.len() - i,
    {
        let line = row(&symbols[i]);
        let cost = estimate_tokens(line.as_str());
        assert(lines[i as int] == line@);
        if cost > token_budget - used {
            push_str(&mut out, "… (truncated to fit token budget)\n");
            cut = true;
            break;
        }
        used = used + cost;
        push_str(&mut out, line.as_str());
        i += 1;
        assert(lines.take(i as int).drop_last() =~= lines.take((i - 1) as int));
    }
    if symbols.len() == 0 {
        push_str(&mut out, "(nothing found)\n");
        assert(out@ =~= "(nothing found)\n"@);
    } else {
        proof {
            lemma_longest_fit(lines, token_budget as nat, i as nat, lines.len());
        }
    }
    out
}

/// The `neighbors` answer for a name no symbol has.
pub fn missing_symbol(symbol: &str) -> (r: String)
    ensures
        r@ == "no symbol named `"@ + symbol@ + "`\n"@,
{
    let mut out = String::new();
    push_str(&mut out, "no symbol named `");
    push_str(&mut out, symbol);
    push_str(&mut out, "`\n");
    out
}

/// The `neighbors` answer: a header naming the root symbol and where it is,
/// then the listing of its neighbors within the budget.
pub fn neighbors_text(root: &Symbol, neighbors: &[Symbol], token_budget: usize) -> (r: String)
    ensures
        r@ == root.kind.canonical() + " "@ + root.name@ + " ("@ + location_text(*root) + ")\n"@
            + listing(neighbors@, token_budget as nat),
{
    let mut out = String::new();
    push_str(&mut out, root.kind.as_str());
    push_str(&mut out, " ");
    push_str(&mut out, root.name.as_str());
    push_str(&mut out, " (");
    let loc = location(root);
    push_str(&mut out, loc.as_str());
    push_str(&mut out, ")\n");
    let listing_text = render(neighbors, token_budget);
    push_str(&mut out, listing_text.as_str());
    out
}

} // verus!

verus! {

proof fn lemma_longest_fit_props(lines: Seq<Seq<char>>, budget: nat, k: nat)
    requires
        k <= lines.len(),
    ensures
        longest_fit(lines, budget, k) <= k,
        fits(lines, budget, longest_fit(lines, budget, k)),
        longest_fit(lines, budget, k) < k ==> !fits(lines, budget, longest_fit(lines, budget, k) + 1),
    decreases k,
{
    if k > 0 && !fits(lines, budget, k) {
        lemma_longest_fit_props(lines, budget, (k - 1) as nat);
        let m = longest_fit(lines, budget, (k - 1) as nat);
        if m + 1 < k {
            lemma_cost_prefix_monotone(lines, m + 1, k);
        }
    }
}

/// A listing never shows more rows than the token budget pays for, and it
/// stops only where the next row would overflow the budget.
pub proof fn lemma_listing_within_budget(symbols: Seq<Symbol>, budget: nat)
    ensures
        ({
            let lines = rows(symbols);
            let k = longest_fit(lines, budget, lines.len());
            &&& k <= lines.len()
            &&& cost_prefix(lines, k) <= budget
            &&& k < lines.len() ==> cost_prefix(lines, k + 1) > budget
        }),
{
    let lines = rows(symbols);
    lemma_longest_fit_props(lines, budget, lines.len());
}

proof fn lemma_escaped_concat(a: Seq<char>, b: Seq<char>)
    ensures
        escaped(a + b) == escaped(a) + escaped(b),
    decreases b.len(),
{
    if b.len() == 0 {
        assert(a + b =~= a);
    } else {
        lemma_escaped_concat(a, b.drop_last());
        assert((a + b).drop_last() =~= a + b.drop_last());
        assert(escaped(b) == escaped(b.drop_last()) + escape_char(b.last()));
    }
}

/// Reading an escaped query back gives the query: escaping loses nothing.
pub proof fn lemma_escape_round_trip(q: Seq<char>)
    ensures
        unescaped(escaped(q)) == q,
    decreases q.len(),
{
    if q.len() > 0 {
        let c = q[0];
        let rest = q.drop_first();
        assert(q =~= seq![c] + rest);
        lemma_escaped_concat(seq![c], rest);
        let one = seq![c];
        assert(one.drop_last() =~= Seq::<char>::empty());
        assert(one.last() == c);
        assert(escaped(one) == escaped(one.drop_last()) + escape_char(c));
        assert(escaped(Seq::<char>::empty()) =~= Seq::<char>::empty());
        assert(escaped(one) =~= escape_char(c));
        lemma_escape_round_trip(rest);
        let p = escape_char(c) + escaped(rest);
        if c == '\\' || c == '%' || c == '_' {
            assert(p.skip(2) =~= escaped(rest));
        } else {
            assert(p.drop_first() =~= escaped(rest));
        }
    }
}

} // verus!
