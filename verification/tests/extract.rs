use skeletree::{EdgeKind, Extractor, JavaScript, Python, Rust, SymbolKind, TypeScript};

const PY_SRC: &str = r#"
MAX_SIZE = 100
lower_case = 2

def top_level():
    pass

@decorator
def decorated():
    pass

class Foo(Base):
    def method(self):
        pass
"#;

#[test]
fn extracts_python_symbols() {
    let mut ex = Extractor::new(&Python).unwrap();
    let syms = ex.extract(PY_SRC.as_bytes()).unwrap().symbols;
    let got: Vec<(&str, SymbolKind)> = syms.iter().map(|s| (s.name.as_str(), s.kind)).collect();

    assert!(got.contains(&("top_level", SymbolKind::Function)));
    assert!(got.contains(&("decorated", SymbolKind::Function)));
    assert!(got.contains(&("Foo", SymbolKind::Class)));
    assert!(got.contains(&("method", SymbolKind::Method)));
    assert!(got.contains(&("MAX_SIZE", SymbolKind::Constant)));

    // lower_case is an assignment but not a constant by convention.
    assert!(!got.iter().any(|(n, _)| *n == "lower_case"));

    // Signature is the definition's first line, decorators excluded.
    let decorated = syms.iter().find(|s| s.name == "decorated").unwrap();
    assert_eq!(decorated.signature.as_deref(), Some("def decorated():"));
}

#[test]
fn extracts_python_edges() {
    const S: &str = "\
class A:
    pass

class B(A):
    def go(self):
        helper()

def helper():
    pass
";
    let mut ex = Extractor::new(&Python).unwrap();
    let refs = ex.extract(S.as_bytes()).unwrap().refs;

    // B extends A.
    assert!(refs
        .iter()
        .any(|r| r.kind == EdgeKind::Extends && r.to_name == "A"));
    // go() calls helper(); what matters is the call site sits inside `go`.
    assert!(refs
        .iter()
        .any(|r| r.kind == EdgeKind::Calls && r.to_name == "helper"));
}

const RS_SRC: &str = r#"
pub const MAX_SIZE: usize = 100;
static COUNTER: u32 = 0;

pub struct Point {
    x: i32,
    y: i32,
}

pub enum Shape {
    Circle,
    Square,
}

pub type Coord = (i32, i32);

pub trait Drawable: Shaped {
    fn draw(&self);
}

trait Shaped {}

pub fn origin() -> Point {
    Point { x: 0, y: 0 }
}

impl Point {
    fn norm(&self) -> i32 {
        helper(self.x)
    }
}

fn helper(v: i32) -> i32 {
    v
}
"#;

#[test]
fn extracts_rust_symbols() {
    let mut ex = Extractor::new(&Rust).unwrap();
    let syms = ex.extract(RS_SRC.as_bytes()).unwrap().symbols;
    let got: Vec<(&str, SymbolKind)> = syms.iter().map(|s| (s.name.as_str(), s.kind)).collect();

    assert!(got.contains(&("origin", SymbolKind::Function)));
    assert!(got.contains(&("helper", SymbolKind::Function)));
    assert!(got.contains(&("norm", SymbolKind::Method)));
    assert!(got.contains(&("draw", SymbolKind::Method)));
    assert!(got.contains(&("Point", SymbolKind::Class)));
    assert!(got.contains(&("Shape", SymbolKind::Class)));
    assert!(got.contains(&("Drawable", SymbolKind::Interface)));
    assert!(got.contains(&("Coord", SymbolKind::TypeAlias)));
    assert!(got.contains(&("MAX_SIZE", SymbolKind::Constant)));
    assert!(got.contains(&("COUNTER", SymbolKind::Constant)));

    // A method is a function_item under impl, not a free function.
    let norm = syms.iter().find(|s| s.name == "norm").unwrap();
    assert_eq!(norm.kind, SymbolKind::Method);
}

#[test]
fn extracts_rust_edges() {
    let mut ex = Extractor::new(&Rust).unwrap();
    let refs = ex.extract(RS_SRC.as_bytes()).unwrap().refs;

    // norm() calls helper().
    assert!(refs
        .iter()
        .any(|r| r.kind == EdgeKind::Calls && r.to_name == "helper"));
    // Drawable: Shaped -> supertrait extends edge.
    assert!(refs
        .iter()
        .any(|r| r.kind == EdgeKind::Extends && r.to_name == "Shaped"));
}

// A trimmed-down NestJS controller + service: decorators, DI, inheritance.
const TS_SRC: &str = r#"
import { Controller, Get } from '@nestjs/common';

export const MAX_ITEMS = 100;
const helper = 1;

export interface Cat {
    name: string;
}

export type CatId = string;

class Base {}

@Controller('cats')
export class CatsController extends Base {
    constructor(private readonly service: CatsService) {}

    @Get()
    findAll(): Cat[] {
        return this.service.findAll();
    }
}

@Injectable()
export class CatsService {
    findAll(): Cat[] {
        return [];
    }
}
"#;

#[test]
fn extracts_typescript_symbols() {
    let mut ex = Extractor::new(&TypeScript).unwrap();
    let syms = ex.extract(TS_SRC.as_bytes()).unwrap().symbols;
    let got: Vec<(&str, SymbolKind)> = syms.iter().map(|s| (s.name.as_str(), s.kind)).collect();

    assert!(got.contains(&("CatsController", SymbolKind::Class)));
    assert!(got.contains(&("CatsService", SymbolKind::Class)));
    assert!(got.contains(&("findAll", SymbolKind::Method)));
    assert!(got.contains(&("Cat", SymbolKind::Interface)));
    assert!(got.contains(&("CatId", SymbolKind::TypeAlias)));
    assert!(got.contains(&("MAX_ITEMS", SymbolKind::Constant)));

    // lower-case declarator is not a constant by convention.
    assert!(!got.iter().any(|(n, _)| *n == "helper"));
}

#[test]
fn extracts_typescript_edges() {
    let mut ex = Extractor::new(&TypeScript).unwrap();
    let refs = ex.extract(TS_SRC.as_bytes()).unwrap().refs;

    // CatsController extends Base.
    assert!(refs
        .iter()
        .any(|r| r.kind == EdgeKind::Extends && r.to_name == "Base"));
    // findAll() calls the service's findAll (member call captures the name).
    assert!(refs
        .iter()
        .any(|r| r.kind == EdgeKind::Calls && r.to_name == "findAll"));
}

// A React/Next.js `.tsx` page: arrow component + JSX child, typed props.
const TSX: &str = r#"
interface Props { title: string }

const Header = ({ title }: Props) => <h1>{title}</h1>;

export default function Page() {
    return <Header title="hi" />;
}
"#;

#[test]
fn extracts_tsx_component_and_graph() {
    let mut ex = Extractor::new(&TypeScript).unwrap();
    let parse = ex.extract(TSX.as_bytes()).unwrap();

    // The tsx grammar parses JSX: both components are symbols.
    let got: Vec<&str> = parse.symbols.iter().map(|s| s.name.as_str()).collect();
    assert!(got.contains(&"Header"), "symbols: {got:?}");
    assert!(got.contains(&"Page"), "symbols: {got:?}");

    // Page renders <Header/> -> a component-graph reference.
    assert!(parse
        .refs
        .iter()
        .any(|r| r.kind == EdgeKind::References && r.to_name == "Header"));
}

// A React function component rendering a child component, plus a hook.
const JS_SRC: &str = r#"
import React from 'react';

const MAX = 10;

function Header() {
  return <h1>Hi</h1>;
}

const useCounter = () => {
  return 0;
};

export default function App() {
  const n = useCounter();
  return <Header />;
}

class Legacy extends React.Component {
  render() {
    return <Header />;
  }
}
"#;

#[test]
fn extracts_jsx_symbols() {
    let mut ex = Extractor::new(&JavaScript).unwrap();
    let syms = ex.extract(JS_SRC.as_bytes()).unwrap().symbols;
    let got: Vec<(&str, SymbolKind)> = syms.iter().map(|s| (s.name.as_str(), s.kind)).collect();

    // Both declaration and const-arrow components come through as functions.
    assert!(got.contains(&("Header", SymbolKind::Function)));
    assert!(got.contains(&("App", SymbolKind::Function)));
    assert!(got.contains(&("useCounter", SymbolKind::Function)));
    assert!(got.contains(&("Legacy", SymbolKind::Class)));
    assert!(got.contains(&("MAX", SymbolKind::Constant)));
}

#[test]
fn extracts_jsx_edges() {
    let mut ex = Extractor::new(&JavaScript).unwrap();
    let refs = ex.extract(JS_SRC.as_bytes()).unwrap().refs;

    // App renders <Header/> -> a component-graph reference.
    assert!(refs
        .iter()
        .any(|r| r.kind == EdgeKind::References && r.to_name == "Header"));
    // App calls the useCounter hook.
    assert!(refs
        .iter()
        .any(|r| r.kind == EdgeKind::Calls && r.to_name == "useCounter"));
    // Legacy extends React.Component -> capture the member name.
    assert!(refs
        .iter()
        .any(|r| r.kind == EdgeKind::Extends && r.to_name == "Component"));
}

#[test]
fn python_spans_and_signatures() {
    let src = "def foo():\n    pass\n\nclass Bar:\n    def m(self):\n        pass\n";
    let mut ex = Extractor::new(&Python).unwrap();
    let syms = ex.extract(src.as_bytes()).unwrap().symbols;
    assert_eq!(syms.len(), 3);
    let foo = syms.iter().find(|s| s.name == "foo").unwrap();
    assert_eq!(foo.span.start_byte, 0);
    assert_eq!(foo.span.start_line, 1);
    assert_eq!(foo.span.end_line, 2);
    assert_eq!(foo.signature.as_deref(), Some("def foo():"));
    let m = syms.iter().find(|s| s.name == "m").unwrap();
    assert_eq!(m.kind, SymbolKind::Method);
    assert_eq!(m.span.start_line, 5);
    let bar = syms.iter().find(|s| s.name == "Bar").unwrap();
    assert!(bar.span.start_byte <= m.span.start_byte && m.span.end_byte <= bar.span.end_byte);
}

#[test]
fn reference_source_is_enclosing_definition() {
    let src = "def helper():\n    pass\n\ndef main():\n    helper()\n";
    let mut ex = Extractor::new(&Python).unwrap();
    let parse = ex.extract(src.as_bytes()).unwrap();
    let main = parse.symbols.iter().find(|s| s.name == "main").unwrap();
    let call = parse.refs.iter().find(|r| r.to_name == "helper").unwrap();
    assert_eq!(call.kind, EdgeKind::Calls);
    assert_eq!(call.from, main.span);
}

#[test]
fn module_level_calls_have_no_source() {
    let src = "helper()\n";
    let mut ex = Extractor::new(&Python).unwrap();
    let parse = ex.extract(src.as_bytes()).unwrap();
    assert!(parse.refs.is_empty());
    assert!(parse.symbols.is_empty());
}

#[test]
fn invalid_utf8_in_a_name_is_an_error() {
    let mut src = b"def f".to_vec();
    src.push(0xff);
    src.extend_from_slice(b"():\n    pass\n");
    let mut ex = Extractor::new(&Python).unwrap();
    // Either the grammar does not see a definition there, or reading its
    // name fails with a UTF-8 error; it never yields a garbled name.
    match ex.extract(&src) {
        Ok(parse) => assert!(parse.symbols.iter().all(|s| !s.name.contains('\u{fffd}'))),
        Err(e) => assert!(matches!(e, skeletree::LangError::Utf8(_))),
    }
}
