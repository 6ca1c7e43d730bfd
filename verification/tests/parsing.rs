use decl_parser::{
    parse, parse_with, render, tokenize, DeclKind, DeclarationNode, Descriptor, ParseError,
    ParseOptions, Position, TokenKind, Visibility,
};

const SAMPLE: &str = r#"// Simple Rust test file for AST parsing
use std::collections::HashMap;

#[derive(Debug)]
pub struct User {
    id: u32,
    name: String,
    email: String,
}

impl User {
    pub fn new(id: u32, name: String, email: String) -> Self {
        User { id, name, email }
    }
    
    pub fn get_name(&self) -> &str {
        &self.name
    }
    
    fn validate_email(&self) -> bool {
        self.email.contains('@')
    }
}

pub enum Status {
    Active,
    Inactive,
    Pending,
}

pub trait Validate {
    fn is_valid(&self) -> bool;
}

impl Validate for User {
    fn is_valid(&self) -> bool {
        !self.name.is_empty() && self.validate_email()
    }
}

pub fn create_user(name: &str, email: &str) -> Result<User, String> {
    if name.is_empty() {
        return Err("Name cannot be empty".to_string());
    }
    
    let user = User::new(1, name.to_string(), email.to_string());
    
    if user.is_valid() {
        Ok(user)
    } else {
        Err("Invalid user data".to_string())
    }
}

pub mod utils {
    pub fn format_name(name: &str) -> String {
        name.trim().to_lowercase()
    }
}

#[cfg(test)]
mod tests {
    use super::*;
    
    #[test]
    fn test_user_creation() {
        let user = create_user("John Doe", "john@example.com");
        assert!(user.is_ok());
    }
}"#;

fn member(name: &str, annotation: &str) -> Descriptor {
    Descriptor { name: name.to_string(), annotation: annotation.to_string() }
}

fn tags(tags: &[&str]) -> Vec<String> {
    tags.iter().map(|tag| tag.to_string()).collect()
}

fn function(
    name: &str,
    visibility: Visibility,
    members: Vec<Descriptor>,
    returns: Option<&str>,
) -> DeclarationNode {
    DeclarationNode {
        kind: DeclKind::Function,
        name: name.to_string(),
        visibility,
        tags: vec![],
        members,
        return_annotation: returns.map(|text| text.to_string()),
        contract: None,
        children: vec![],
    }
}

fn container(
    kind: DeclKind,
    name: &str,
    visibility: Visibility,
    children: Vec<DeclarationNode>,
) -> DeclarationNode {
    DeclarationNode {
        kind,
        name: name.to_string(),
        visibility,
        tags: vec![],
        members: vec![],
        return_annotation: None,
        contract: None,
        children,
    }
}

fn import(path: &str, visibility: Visibility) -> DeclarationNode {
    container(DeclKind::Import, path, visibility, vec![])
}

fn sample_tree(keep_imports: bool) -> Vec<DeclarationNode> {
    let mut user = container(DeclKind::StructuredType, "User", Visibility::Public, vec![]);
    user.tags = tags(&["derive(Debug)"]);
    user.members =
        vec![member("id", "u32"), member("name", "String"), member("email", "String")];
    let methods = container(
        DeclKind::Implementation,
        "User",
        Visibility::Private,
        vec![
            function(
                "new",
                Visibility::Public,
                vec![member("id", "u32"), member("name", "String"), member("email", "String")],
                Some("Self"),
            ),
            function("get_name", Visibility::Public, vec![member("self", "&self")], Some("&str")),
            function(
                "validate_email",
                Visibility::Private,
                vec![member("self", "&self")],
                Some("bool"),
            ),
        ],
    );
    let mut status = container(DeclKind::Enumeration, "Status", Visibility::Public, vec![]);
    status.members = vec![member("Active", ""), member("Inactive", ""), member("Pending", "")];
    let validate = container(
        DeclKind::Contract,
        "Validate",
        Visibility::Public,
        vec![function("is_valid", Visibility::Private, vec![member("self", "&self")], Some("bool"))],
    );
    let mut validation = container(
        DeclKind::Implementation,
        "User",
        Visibility::Private,
        vec![function("is_valid", Visibility::Private, vec![member("self", "&self")], Some("bool"))],
    );
    validation.contract = Some("Validate".to_string());
    let create_user = function(
        "create_user",
        Visibility::Public,
        vec![member("name", "&str"), member("email", "&str")],
        Some("Result<User, String>"),
    );
    let utils = container(
        DeclKind::Namespace,
        "utils",
        Visibility::Public,
        vec![function(
            "format_name",
            Visibility::Public,
            vec![member("name", "&str")],
            Some("String"),
        )],
    );
    let mut test_case = function("test_user_creation", Visibility::Private, vec![], None);
    test_case.kind = DeclKind::TestCase;
    test_case.tags = tags(&["test"]);
    let mut inner = vec![];
    if keep_imports {
        inner.push(import("super::*", Visibility::Private));
    }
    inner.push(test_case);
    let mut tests = container(DeclKind::Namespace, "tests", Visibility::Private, inner);
    tests.tags = tags(&["cfg(test)"]);
    let mut tree = vec![];
    if keep_imports {
        tree.push(import("std::collections::HashMap", Visibility::Private));
    }
    tree.extend(vec![user, methods, status, validate, validation, create_user, utils, tests]);
    tree
}

fn count(nodes: &[DeclarationNode]) -> usize {
    nodes.iter().map(|node| 1 + count(&node.children)).sum()
}

fn count_of_kind(nodes: &[DeclarationNode], kind: DeclKind) -> usize {
    nodes
        .iter()
        .map(|node| usize::from(node.kind == kind) + count_of_kind(&node.children, kind))
        .sum()
}

fn declaring_tokens(text: &str, keep_imports: bool) -> usize {
    tokenize(text)
        .iter()
        .filter(|token| match token.kind {
            TokenKind::Struct
            | TokenKind::Enum
            | TokenKind::Trait
            | TokenKind::Impl
            | TokenKind::Fn
            | TokenKind::Mod => true,
            TokenKind::Use => keep_imports,
            _ => false,
        })
        .count()
}

fn kinds(text: &str) -> Vec<TokenKind> {
    tokenize(text).iter().map(|token| token.kind).collect()
}

fn at(line: usize, column: usize) -> Position {
    Position { line, column }
}

fn unknown(line: usize, column: usize, token: &str) -> ParseError {
    ParseError::UnknownConstruct { position: at(line, column), token: token.to_string() }
}

fn unterminated(line: usize, column: usize) -> ParseError {
    ParseError::UnterminatedBlock { position: at(line, column) }
}

fn malformed(line: usize, column: usize) -> ParseError {
    ParseError::MalformedSignature { position: at(line, column) }
}

#[test]
fn sample_parses_to_its_declarations() {
    assert_eq!(parse(SAMPLE), Ok(sample_tree(false)));
}

#[test]
fn sample_holds_one_of_each_and_two_implementations() {
    let tree = parse(SAMPLE).unwrap();
    assert_eq!(tree.len(), 8);
    assert_eq!(count_of_kind(&tree, DeclKind::StructuredType), 1);
    assert_eq!(count_of_kind(&tree, DeclKind::Enumeration), 1);
    assert_eq!(count_of_kind(&tree, DeclKind::Contract), 1);
    assert_eq!(count_of_kind(&tree, DeclKind::Implementation), 2);
    assert_eq!(count_of_kind(&tree, DeclKind::Namespace), 2);
    assert_eq!(count_of_kind(&tree, DeclKind::TestCase), 1);
    assert_eq!(count_of_kind(&tree, DeclKind::Function), 7);
    assert_eq!(count_of_kind(&tree, DeclKind::Import), 0);
    let free: Vec<&DeclarationNode> =
        tree.iter().filter(|node| node.kind == DeclKind::Function).collect();
    assert_eq!(free.len(), 1);
    assert_eq!(free[0].name, "create_user");
    assert_eq!(free[0].visibility, Visibility::Public);
    let user = &tree[0];
    assert_eq!(user.name, "User");
    assert_eq!(user.visibility, Visibility::Public);
    assert_eq!(user.members.len(), 3);
    assert!(user.has_tag("derive(Debug)"));
    assert!(!user.has_tag("test"));
    let status = &tree[2];
    assert_eq!(status.name, "Status");
    assert_eq!(status.visibility, Visibility::Public);
    assert_eq!(status.members.len(), 3);
    let validate = &tree[3];
    assert_eq!(validate.name, "Validate");
    assert_eq!(validate.visibility, Visibility::Public);
    assert_eq!(validate.children.len(), 1);
    assert_eq!(tree[1].contract, None);
    assert_eq!(tree[4].contract, Some("Validate".to_string()));
    assert_eq!(tree[4].name, "User");
    let utils = &tree[6];
    assert_eq!(utils.name, "utils");
    assert_eq!(utils.visibility, Visibility::Public);
    assert_eq!(utils.children.len(), 1);
    assert_eq!(utils.children[0].name, "format_name");
    let tests = &tree[7];
    assert_eq!(tests.name, "tests");
    assert_eq!(tests.visibility, Visibility::Private);
    assert_eq!(tests.children.len(), 1);
    assert_eq!(tests.children[0].kind, DeclKind::TestCase);
    assert_eq!(tests.children[0].name, "test_user_creation");
    assert!(tests.children[0].has_tag("test"));
}

#[test]
fn sample_with_imports_kept() {
    let options = ParseOptions { keep_imports: true };
    assert_eq!(parse_with(SAMPLE, options), Ok(sample_tree(true)));
}

#[test]
fn default_options_leave_imports_out() {
    assert_eq!(ParseOptions::default(), ParseOptions { keep_imports: false });
    assert_eq!(parse_with(SAMPLE, ParseOptions::default()), parse(SAMPLE));
}

#[test]
fn every_declaring_token_makes_one_declaration() {
    let tree = parse(SAMPLE).unwrap();
    assert_eq!(count(&tree), 15);
    assert_eq!(declaring_tokens(SAMPLE, false), 15);
    let kept = parse_with(SAMPLE, ParseOptions { keep_imports: true }).unwrap();
    assert_eq!(count(&kept), 17);
    assert_eq!(declaring_tokens(SAMPLE, true), 17);
}

#[test]
fn parsing_twice_gives_the_same_tree() {
    assert_eq!(parse(SAMPLE), parse(SAMPLE));
}

#[test]
fn layout_and_comments_do_not_change_the_tree() {
    let wide = "pub  struct   P {\n  x : u32 , // the abscissa\n  y : u32\n}\n\n\n";
    let tight = "pub struct P{x:u32,y:u32}";
    assert_eq!(parse(wide), parse(tight));
    assert_eq!(parse(tight).unwrap()[0].members, vec![member("x", "u32"), member("y", "u32")]);
}

#[test]
fn empty_text_has_no_declarations() {
    assert_eq!(parse(""), Ok(vec![]));
    assert_eq!(parse_with("", ParseOptions { keep_imports: true }), Ok(vec![]));
}

#[test]
fn text_of_space_and_comments_has_no_declarations() {
    assert_eq!(parse("  \n\t// nothing here\n// struct Hidden {}\n"), Ok(vec![]));
}

#[test]
fn comments_leave_no_trace_in_nodes() {
    let tree = parse("// fn ghost() {}\nfn real() { // mod inner {\n}\n").unwrap();
    assert_eq!(tree, vec![function("real", Visibility::Private, vec![], None)]);
}

#[test]
fn unterminated_struct_is_an_error() {
    assert_eq!(parse("pub struct User {\n    id: u32,\n    name: String,\n"), Err(unterminated(1, 17)));
    assert_eq!(parse("struct User {"), Err(unterminated(1, 13)));
    assert_eq!(parse("struct User {\n    id: u32"), Err(unterminated(1, 13)));
    assert_eq!(parse("struct User {\n    id:"), Err(unterminated(1, 13)));
    assert_eq!(parse("struct User {\n    id"), Err(unterminated(1, 13)));
}

#[test]
fn unterminated_struct_after_good_items_gives_no_tree() {
    let text = "fn first() {}\nenum E { A }\nstruct Late {\n    x: u32,";
    assert_eq!(parse(text), Err(unterminated(3, 13)));
}

#[test]
fn unterminated_blocks_of_every_kind() {
    assert_eq!(parse("enum E { A,"), Err(unterminated(1, 8)));
    assert_eq!(parse("fn f() { if x { y }"), Err(unterminated(1, 8)));
    assert_eq!(parse("mod m {\n  fn f() {}\n"), Err(unterminated(1, 7)));
    assert_eq!(parse("mod m {\n  fn f() {\n"), Err(unterminated(2, 10)));
    assert_eq!(parse("mod m {\n  fn f(a: u32"), Err(unterminated(1, 7)));
    assert_eq!(parse("impl A for B {"), Err(unterminated(1, 14)));
    assert_eq!(parse("trait T { fn f();"), Err(unterminated(1, 9)));
    assert_eq!(parse("mod m { #[test"), Err(unterminated(1, 7)));
    assert_eq!(parse("mod m { use a::b"), Err(unterminated(1, 7)));
}

#[test]
fn unknown_keyword_is_reported_with_its_token() {
    assert_eq!(parse("let x = 5;"), Err(unknown(1, 1, "let")));
    assert_eq!(parse("fn ok() {}\n  const LIMIT: u32 = 3;"), Err(unknown(2, 3, "const")));
    assert_eq!(parse("}"), Err(unknown(1, 1, "}")));
    assert_eq!(parse("struct 9lives {}"), Err(unknown(1, 8, "9lives")));
    assert_eq!(parse("struct Unit;"), Err(unknown(1, 12, ";")));
    assert_eq!(parse("struct S { pub x: u32 }"), Err(unknown(1, 12, "pub")));
    assert_eq!(parse("enum E { A(u32) }"), Err(unknown(1, 11, "(")));
    assert_eq!(parse("pub(crate) fn f() {}"), Err(unknown(1, 4, "(")));
    assert_eq!(parse("mod m;"), Err(unknown(1, 6, ";")));
    assert_eq!(parse("impl<T> A<T> {}"), Err(unknown(1, 5, "<")));
    assert_eq!(parse("use ;"), Err(unknown(1, 5, ";")));
    assert_eq!(parse("#[] fn f() {}"), Err(unknown(1, 3, "]")));
    assert_eq!(parse("#![no_std]"), Err(unknown(1, 2, "!")));
}

#[test]
fn text_that_ends_too_early_outside_a_block() {
    assert_eq!(parse("pub"), Err(unknown(1, 1, "")));
    assert_eq!(parse("struct"), Err(unknown(1, 1, "")));
    assert_eq!(parse("\n\n  struct Name"), Err(unknown(3, 10, "")));
    assert_eq!(parse("#[test]"), Err(unknown(1, 7, "")));
    assert_eq!(parse("use a::b"), Err(unknown(1, 8, "")));
    assert_eq!(parse("fn f("), Err(malformed(1, 5)));
    assert_eq!(parse("fn f() ->"), Err(malformed(1, 8)));
}

#[test]
fn items_are_held_to_their_scope() {
    assert_eq!(parse("impl A { struct B {} }"), Err(unknown(1, 10, "struct")));
    assert_eq!(parse("impl A { use b; }"), Err(unknown(1, 10, "use")));
    assert_eq!(parse("trait T { mod m {} }"), Err(unknown(1, 11, "mod")));
    assert_eq!(parse("trait T { fn f() {} }"), Err(malformed(1, 18)));
    assert_eq!(parse("impl A { fn f(); }"), Err(malformed(1, 16)));
    assert_eq!(parse("fn f();"), Err(malformed(1, 7)));
}

#[test]
fn reserved_words_may_not_hide_in_what_is_passed_over() {
    assert_eq!(parse("fn outer() { fn inner() {} }"), Err(unknown(1, 14, "fn")));
    assert_eq!(parse("fn f() { use a::b; }"), Err(unknown(1, 10, "use")));
    assert_eq!(parse("#[cfg(mod)] fn f() {}"), Err(unknown(1, 7, "mod")));
    assert_eq!(parse("use a::struct;"), Err(unknown(1, 8, "struct")));
    assert_eq!(parse("struct S { f: fn(u32) }"), Err(unknown(1, 15, "fn")));
    assert_eq!(parse("fn f(x: impl Copy) {}"), Err(malformed(1, 9)));
    assert_eq!(parse("fn f() -> impl Copy {}"), Err(malformed(1, 11)));
}

#[test]
fn malformed_signatures() {
    assert_eq!(parse("fn broken(x y) {}"), Err(malformed(1, 13)));
    assert_eq!(parse("fn (x: u32) {}"), Err(malformed(1, 4)));
    assert_eq!(parse("fn f {}"), Err(malformed(1, 6)));
    assert_eq!(parse("fn f<T>(x: T) {}"), Err(malformed(1, 5)));
    assert_eq!(parse("fn f(x: ) {}"), Err(malformed(1, 9)));
    assert_eq!(parse("fn f(x: Vec<u32) {}"), Err(malformed(1, 18)));
    assert_eq!(parse("fn f(mut x: u32) {}"), Err(malformed(1, 6)));
    assert_eq!(parse("fn f(x: u32 y: u32) {}"), Err(malformed(1, 13)));
    assert_eq!(parse("fn f(x: u32 y) {}"), Err(malformed(1, 13)));
    assert_eq!(parse("fn f(x: u32: u8) {}"), Err(malformed(1, 12)));
    assert_eq!(parse("fn f() -> T where T: Copy {}"), Err(malformed(1, 13)));
    assert_eq!(parse("fn f(x: Vec<a b>) {}"), Err(malformed(1, 15)));
    assert_eq!(parse("fn f() -> {}"), Err(malformed(1, 11)));
    assert_eq!(parse("fn f() where T: Copy {}"), Err(malformed(1, 8)));
    assert_eq!(parse("mod m {\n    fn f(,) {}\n}"), Err(malformed(2, 10)));
}

#[test]
fn an_unclosed_string_fits_nowhere() {
    assert_eq!(parse("fn f() { \"abc }"), Err(unknown(1, 10, "\"abc }")));
    assert_eq!(parse("\"abc"), Err(unknown(1, 1, "\"abc")));
}

#[test]
fn a_quote_that_opens_nothing_fits_nowhere() {
    assert_eq!(parse("fn f() { ' }"), Err(unknown(1, 10, "'")));
    assert_eq!(parse("fn f(x: &' a u8) {}"), Err(malformed(1, 10)));
}

#[test]
fn joined_tokens_read_as_the_same_tokens() {
    let tree = parse("#[a(- >, / /, : :, : ::b, x - y, ! >)] fn f() {}").unwrap();
    assert_eq!(tree[0].tags, tags(&["a(- >, / /, : :, : ::b, x-y, ! >)"]));
    let again = parse("#[a(- >, / /, : :, : ::b, x-y, ! >)] fn f() {}").unwrap();
    assert_eq!(again, tree);
}

#[test]
fn positions_count_lines_and_columns_from_one() {
    let error = parse("\n\n\tlet").unwrap_err();
    assert_eq!(error.position(), at(3, 2));
    let error = parse("fn a() {}\r\nfn b() {}\r\n   what").unwrap_err();
    assert_eq!(error, unknown(3, 4, "what"));
    let error = parse("// é is one character\nfn é() {}").unwrap_err();
    assert_eq!(error.position(), at(2, 4));
}

#[test]
fn braces_in_literals_and_comments_do_not_count() {
    let text = "fn f() { let a = \"}\"; let b = '}'; let c = '\\''; let d = \"\\\"}\"; // }\n }";
    assert_eq!(parse(text), Ok(vec![function("f", Visibility::Private, vec![], None)]));
    let text = "fn g() { let open = '{'; let u = '\\u{7b}'; }";
    assert_eq!(parse(text), Ok(vec![function("g", Visibility::Private, vec![], None)]));
}

#[test]
fn lifetimes_are_no_character_literals() {
    let tree = parse("fn pick(a: &'a str, b: &'a str) -> &'a str { a }").unwrap();
    assert_eq!(
        tree,
        vec![function(
            "pick",
            Visibility::Private,
            vec![member("a", "&'a str"), member("b", "&'a str")],
            Some("&'a str"),
        )]
    );
}

#[test]
fn receivers_in_all_their_forms() {
    let tree = parse("impl A { fn a(self) {} fn b(&self) {} fn c(&mut self, n: u8) {} fn d(mut self) {} }")
        .unwrap();
    let forms: Vec<&Vec<Descriptor>> = tree[0].children.iter().map(|f| &f.members).collect();
    assert_eq!(forms[0], &vec![member("self", "self")]);
    assert_eq!(forms[1], &vec![member("self", "&self")]);
    assert_eq!(forms[2], &vec![member("self", "&mut self"), member("n", "u8")]);
    assert_eq!(forms[3], &vec![member("self", "mut self")]);
}

#[test]
fn annotations_are_joined_tokens() {
    let text = "fn f(map: HashMap <String,Vec<( u8,u8 )>>, n: [u8 ;4],) -> Box<dyn  Fn(u8)->u8 > {}";
    let tree = parse(text).unwrap();
    assert_eq!(
        tree[0].members,
        vec![member("map", "HashMap<String, Vec<(u8, u8)>>"), member("n", "[u8; 4]")]
    );
    assert_eq!(tree[0].return_annotation, Some("Box<dyn Fn(u8) -> u8>".to_string()));
    let tree = parse("struct S { a: Option< u8 >, b: &'static str }").unwrap();
    assert_eq!(tree[0].members, vec![member("a", "Option<u8>"), member("b", "&'static str")]);
}

#[test]
fn attributes_become_tags_in_order() {
    let tree = parse("#[inline] #[ cfg(any(a, b)) ]\n#[doc = \"x]\"]\npub fn f() {}").unwrap();
    assert_eq!(tree[0].tags, tags(&["inline", "cfg(any(a, b))", "doc=\"x]\""]));
    assert_eq!(tree[0].kind, DeclKind::Function);
    assert_eq!(tree[0].visibility, Visibility::Public);
    assert!(tree[0].has_tag("inline"));
    assert!(!tree[0].has_tag("cfg"));
}

#[test]
fn only_the_tag_test_makes_a_test_case() {
    let tree = parse("#[test] fn a() {} #[tests] fn b() {} #[cfg(test)] fn c() {} #[x] #[test] fn d() {}")
        .unwrap();
    let kinds: Vec<DeclKind> = tree.iter().map(|node| node.kind).collect();
    assert_eq!(
        kinds,
        vec![DeclKind::TestCase, DeclKind::Function, DeclKind::Function, DeclKind::TestCase]
    );
    let tree = parse("#[test] struct S {} #[test] mod m {}").unwrap();
    assert_eq!(tree[0].kind, DeclKind::StructuredType);
    assert_eq!(tree[1].kind, DeclKind::Namespace);
}

#[test]
fn namespaces_nest() {
    let tree = parse("mod a { mod b { mod c { fn deep() {} } enum E {} } struct S {} }").unwrap();
    assert_eq!(count(&tree), 6);
    let a = &tree[0];
    assert_eq!(a.children.len(), 2);
    assert_eq!(a.children[0].name, "b");
    assert_eq!(a.children[1].name, "S");
    let b = &a.children[0];
    assert_eq!(b.children.len(), 2);
    assert_eq!(b.children[0].children[0].name, "deep");
    assert_eq!(b.children[1].kind, DeclKind::Enumeration);
    assert_eq!(b.children[1].members, vec![]);
}

#[test]
fn imports_are_checked_even_where_they_are_dropped() {
    assert_eq!(parse("use a::{b, c};"), Ok(vec![]));
    let kept = parse_with("#[allow(unused)] pub use a::{b, c};", ParseOptions { keep_imports: true })
        .unwrap();
    let mut expected = import("a::{b, c}", Visibility::Public);
    expected.tags = tags(&["allow(unused)"]);
    assert_eq!(kept, vec![expected]);
    assert_eq!(parse("use a::b"), parse_with("use a::b", ParseOptions { keep_imports: true }));
}

#[test]
fn tokens_of_a_line() {
    assert_eq!(
        kinds("pub fn f(&mut self, x: A<u8>) -> [u8; 2] { #x }"),
        vec![
            TokenKind::Pub,
            TokenKind::Fn,
            TokenKind::Ident,
            TokenKind::OpenParen,
            TokenKind::Amp,
            TokenKind::Mut,
            TokenKind::SelfValue,
            TokenKind::Comma,
            TokenKind::Ident,
            TokenKind::Colon,
            TokenKind::Ident,
            TokenKind::Less,
            TokenKind::Ident,
            TokenKind::Greater,
            TokenKind::CloseParen,
            TokenKind::Arrow,
            TokenKind::OpenBracket,
            TokenKind::Ident,
            TokenKind::Semi,
            TokenKind::Literal,
            TokenKind::CloseBracket,
            TokenKind::OpenBrace,
            TokenKind::Hash,
            TokenKind::Ident,
            TokenKind::CloseBrace,
        ]
    );
}

#[test]
fn keywords_are_whole_words() {
    assert_eq!(
        kinds("struct structs enum trait impl mod use for self Self fn_ _fn dyn mut pub"),
        vec![
            TokenKind::Struct,
            TokenKind::Ident,
            TokenKind::Enum,
            TokenKind::Trait,
            TokenKind::Impl,
            TokenKind::Mod,
            TokenKind::Use,
            TokenKind::For,
            TokenKind::SelfValue,
            TokenKind::Ident,
            TokenKind::Ident,
            TokenKind::Ident,
            TokenKind::Dyn,
            TokenKind::Mut,
            TokenKind::Pub,
        ]
    );
}

#[test]
fn tokens_carry_their_place() {
    let tokens = tokenize("ab  -> \"c d\" // e\n'x' é");
    let places: Vec<(TokenKind, usize, usize)> =
        tokens.iter().map(|token| (token.kind, token.start, token.end)).collect();
    assert_eq!(
        places,
        vec![
            (TokenKind::Ident, 0, 2),
            (TokenKind::Arrow, 4, 6),
            (TokenKind::Literal, 7, 12),
            (TokenKind::Literal, 18, 21),
            (TokenKind::Punct, 22, 23),
        ]
    );
}

#[test]
fn literals_and_their_edges() {
    assert_eq!(kinds("\"a\\\"b\" 'a' '\\n' '\\'' 'a 12ab ' a"), vec![
        TokenKind::Literal,
        TokenKind::Literal,
        TokenKind::Literal,
        TokenKind::Literal,
        TokenKind::Lifetime,
        TokenKind::Literal,
        TokenKind::Unclosed,
        TokenKind::Ident,
    ]);
    assert_eq!(kinds("\"open"), vec![TokenKind::Unclosed]);
    assert_eq!(kinds("\"ends in a backslash\\"), vec![TokenKind::Unclosed]);
    assert_eq!(kinds("'\\"), vec![TokenKind::Unclosed, TokenKind::Punct]);
    assert_eq!(
        kinds("- > / / : :"),
        vec![
            TokenKind::Punct,
            TokenKind::Greater,
            TokenKind::Punct,
            TokenKind::Punct,
            TokenKind::Colon,
            TokenKind::Colon,
        ]
    );
    assert_eq!(
        kinds("a::b:::c"),
        vec![
            TokenKind::Ident,
            TokenKind::PathSep,
            TokenKind::Ident,
            TokenKind::PathSep,
            TokenKind::Colon,
            TokenKind::Ident,
        ]
    );
    assert_eq!(kinds("/ // rest"), vec![TokenKind::Punct]);
    assert_eq!(kinds(""), vec![]);
}

#[test]
fn rendering_the_sample_and_parsing_again_gives_the_tree() {
    let tree = parse(SAMPLE).unwrap();
    let text = render(&tree);
    assert_eq!(parse(&text), Ok(tree));
    let kept = parse_with(SAMPLE, ParseOptions { keep_imports: true }).unwrap();
    let text = render(&kept);
    assert_eq!(parse_with(&text, ParseOptions { keep_imports: true }), Ok(kept));
}

#[test]
fn rendering_twice_gives_the_same_text() {
    let tree = parse(SAMPLE).unwrap();
    let text = render(&tree);
    assert_eq!(render(&parse(&text).unwrap()), text);
}

#[test]
fn rendered_text_of_small_trees() {
    let text = "#[derive(Debug)]\npub struct P {\n    x: u32,\n    y: Vec<u8>\n}\n";
    assert_eq!(render(&parse(text).unwrap()), "#[derive(Debug)] pub struct P {x: u32, y: Vec<u8>,}");
    let text = "impl Show for P { fn show(&self, n: usize) -> String { n.to_string() } }";
    assert_eq!(
        render(&parse(text).unwrap()),
        "impl Show for P {fn show(&self, n: usize,) -> String {}}"
    );
    let text = "pub trait T { #[must_use] fn f(); } enum E { A, B } mod m { }";
    assert_eq!(
        render(&parse(text).unwrap()),
        "pub trait T {#[must_use] fn f();} enum E {A, B,} mod m {}"
    );
    let kept = parse_with("use a :: { b , c } ; fn f ( ) { }", ParseOptions { keep_imports: true });
    assert_eq!(render(&kept.unwrap()), "use a::{b, c}; fn f() {}");
    assert_eq!(render(&vec![]), "");
}

#[test]
fn rendering_odd_tokens_keeps_them_apart() {
    let text = "#[a(- >, / /, : :, : ::b, x - y, ! >)] fn f(x: &'a 'b u8) {}";
    let tree = parse(text);
    assert!(tree.is_ok());
    let tree = tree.unwrap();
    assert_eq!(parse(&render(&tree)), Ok(tree));
}
