use symbol_index::recognize::{recognize, Declaration, SymbolKind};

fn found(line: &str) -> Option<Declaration> {
    let mut last = String::new();
    recognize(line, &mut last)
}

fn keyword(kind: SymbolKind, name: &str) -> Option<Declaration> {
    Some(Declaration { kind, name: name.to_string(), container: None })
}

#[test]
fn struct_at_line_start() {
    assert_eq!(found("struct Foo;"), keyword(SymbolKind::Struct, "Foo"));
}

#[test]
fn public_struct_with_brace() {
    assert_eq!(found("pub struct Foo {"), keyword(SymbolKind::Struct, "Foo"));
}

#[test]
fn enum_is_recognised() {
    assert_eq!(found("enum Color {"), keyword(SymbolKind::Enum, "Color"));
}

#[test]
fn function_name_stops_at_parenthesis() {
    assert_eq!(found("fn helper_one(x: u8) -> u8 {"), keyword(SymbolKind::Function, "helper_one"));
}

#[test]
fn public_function() {
    assert_eq!(found("pub fn new() -> Self {"), keyword(SymbolKind::Function, "new"));
}

#[test]
fn constant_is_recognised() {
    assert_eq!(found("pub const MAX: usize = 3;"), keyword(SymbolKind::Constant, "MAX"));
}

#[test]
fn type_alias_is_recognised() {
    assert_eq!(found("pub type Alias = u8;"), keyword(SymbolKind::TypeAlias, "Alias"));
}

#[test]
fn module_is_recognised() {
    assert_eq!(found("mod inner;"), keyword(SymbolKind::Module, "inner"));
}

#[test]
fn static_is_recognised() {
    assert_eq!(found("pub static COUNT: u8 = 1;"), keyword(SymbolKind::StaticVariable, "COUNT"));
}

#[test]
fn macro_definition_is_recognised() {
    assert_eq!(found("macro_rules! log {"), keyword(SymbolKind::Macro, "log"));
}

#[test]
fn earlier_keyword_wins() {
    assert_eq!(found("pub const fn make() -> u8 {"), keyword(SymbolKind::Function, "make"));
    assert_eq!(found("pub struct Holder { call: fn () }"), keyword(SymbolKind::Struct, "Holder"));
}

#[test]
fn keyword_inside_a_line_needs_the_visibility_modifier() {
    assert_eq!(found("let x = struct Foo;"), None);
    assert_eq!(found("pub let x = struct Foo;"), keyword(SymbolKind::Struct, "Foo"));
}

#[test]
fn keyword_in_a_literal_is_taken_for_a_declaration() {
    assert_eq!(found("pub const TEXT: &str = \"struct Bar\";"), keyword(SymbolKind::Struct, "Bar"));
}

#[test]
fn name_follows_the_first_occurrence_of_the_keyword() {
    assert_eq!(found("pub fn first(next: fn second())"), keyword(SymbolKind::Function, "first"));
}

#[test]
fn empty_name_is_accepted() {
    assert_eq!(found("struct {"), keyword(SymbolKind::Struct, ""));
    assert_eq!(found("fn "), None);
    assert_eq!(found("fn (x)"), keyword(SymbolKind::Function, ""));
}

#[test]
fn trailing_keyword_without_its_space_is_not_matched() {
    assert_eq!(found("   fn"), None);
}

#[test]
fn hyphen_and_underscore_belong_to_a_name() {
    assert_eq!(found("mod my-mod_2;"), keyword(SymbolKind::Module, "my-mod_2"));
}

#[test]
fn letters_outside_ascii_belong_to_a_name() {
    assert_eq!(found("struct Größe {"), keyword(SymbolKind::Struct, "Größe"));
    assert_eq!(found("fn 数える() {"), keyword(SymbolKind::Function, "数える"));
}

#[test]
fn surrounding_whitespace_is_trimmed() {
    assert_eq!(found("\t   fn indented() {}  \r\n"), keyword(SymbolKind::Function, "indented"));
    assert_eq!(found("\u{3000}struct Wide;"), keyword(SymbolKind::Struct, "Wide"));
}

#[test]
fn blank_lines_give_nothing() {
    assert_eq!(found(""), None);
    assert_eq!(found("   \t "), None);
    assert_eq!(found("// a comment"), None);
}

#[test]
fn restricted_visibility_is_not_the_modifier() {
    assert_eq!(found("pub(crate) fn hidden() {}"), None);
    assert_eq!(found("pub(crate) count: u8,"), None);
}

#[test]
fn field_without_container() {
    assert_eq!(
        found("pub bar: i32,"),
        Some(Declaration { kind: SymbolKind::Field, name: "bar".to_string(), container: None })
    );
}

#[test]
fn field_takes_the_last_container() {
    let mut last = String::from("Foo");
    assert_eq!(
        recognize("    pub bar: i32,", &mut last),
        Some(Declaration {
            kind: SymbolKind::Field,
            name: "bar".to_string(),
            container: Some("Foo".to_string()),
        })
    );
    assert_eq!(last, "Foo");
}

#[test]
fn field_needs_a_colon_right_after_the_name() {
    assert_eq!(found("pub bar : i32,"), None);
    assert_eq!(found("pub bar"), None);
    assert_eq!(found("pub bar(i32)"), None);
}

#[test]
fn field_with_empty_name() {
    assert_eq!(
        found("pub ::std::fmt"),
        Some(Declaration { kind: SymbolKind::Field, name: String::new(), container: None })
    );
}

#[test]
fn field_after_text_before_the_modifier() {
    assert_eq!(
        found("#[serde(default)] pub level: u8,"),
        Some(Declaration { kind: SymbolKind::Field, name: "level".to_string(), container: None })
    );
}

#[test]
fn struct_and_enum_update_the_container() {
    let mut last = String::new();
    recognize("pub struct First {", &mut last);
    assert_eq!(last, "First");
    recognize("fn between() {}", &mut last);
    assert_eq!(last, "First");
    recognize("enum Second {", &mut last);
    assert_eq!(last, "Second");
    recognize("pub x: u8,", &mut last);
    assert_eq!(last, "Second");
}

#[test]
fn struct_without_name_clears_the_container() {
    let mut last = String::from("Foo");
    recognize("struct {", &mut last);
    assert_eq!(last, "");
    assert_eq!(
        recognize("pub bar: i32,", &mut last),
        Some(Declaration { kind: SymbolKind::Field, name: "bar".to_string(), container: None })
    );
}
