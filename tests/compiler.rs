use std::collections::HashMap;

use thrift_ts::ast::{Comment, Requiredness, ThriftType, TopDefinition};
use thrift_ts::compile::{
    compile_parsed, compile_source, include_file, input_path, output_file, relative_path,
    resolve_path, Compiler, DepsVisitor, PathSet,
};
use thrift_ts::generate::{generate, ts_type_of, GenerateOptions};
use thrift_ts::parse::{thrift_type, Parser};
use thrift_ts::visit::visit_document;

const SAMPLE: &str = r#"
namespace x a.b.c
    
include "a.thrift"
    
struct GetDataReq {
    // 这是单行注释
    // 这也是单行注释
    1: string parameters
    /* 这是多行注释 */
    2: i32 status (api.query="query_status")
    3: double money
    3: bool is_ok
    2: optional map<a.A, string> kvs
    3: required list<a.A> a_list
    6: ItemType item_type
}
    
struct GetDataRes {
    1: i32 status (api.body="body_status")
    2: string msg
}
    
enum ItemType {
    // 未知
    Unknown = 0
    // 普通
    Normal = 1
    // 特别
    Special = 2
}
    
service ThriftService {
    // 获取数据
    GetDataRes GetData(1: GetDataReq req) (api.get = "/api/get-data", other = "something")
}
"#;

fn gen(idl: &str) -> String {
    let document = Parser::new(idl).parse().expect("parses");
    generate(&document, GenerateOptions::default())
}

#[test]
fn it_works() {
    let document = Parser::new(SAMPLE).parse();
    assert!(document.is_ok());
    let document = document.unwrap();
    assert_eq!(document.body.len(), 6);
    let ts_code = generate(&document, GenerateOptions::default());
    assert!(ts_code.contains("/** namespace x a.b.c */"));
    assert!(ts_code.contains("import * as a from \"./a.ts\";"));
    assert!(ts_code.contains("export interface GetDataReq {"));
    assert!(ts_code.contains("  kvs?: Record<a.A, string>;"));
    assert!(ts_code.contains("  a_list: Array<a.A>;"));
    assert!(ts_code.contains("   * 这是单行注释"));
    assert!(ts_code.contains("   * @annotation api.query=query_status"));
    assert!(ts_code.contains("  Special: 2,"));
    assert!(ts_code.contains("  GetData(req: GetDataReq): GetDataRes;"));
    assert!(ts_code.contains("   * @annotation api.get=/api/get-data"));
    assert!(ts_code.ends_with('\n'));
}

#[test]
fn parse_is_repeatable() {
    let first = Parser::new(SAMPLE).parse().unwrap();
    let second = Parser::new(SAMPLE).parse().unwrap();
    assert_eq!(first, second);
}

#[test]
fn leading_and_inline_comments_attach_in_order() {
    let idl = "struct S {\n  // one\n  /* two\n     three */\n  1: i32 a // four\n  2: i32 b\n}\n";
    let document = Parser::new(idl).parse().unwrap();
    match &document.body[0] {
        TopDefinition::Struct(s) => {
            let a = &s.fields[0];
            assert_eq!(a.comments.len(), 3);
            assert_eq!(a.comments[0], Comment::Line("one".to_string()));
            assert_eq!(
                a.comments[1],
                Comment::Block(vec!["two".to_string(), "three".to_string()])
            );
            assert_eq!(a.comments[2], Comment::Line("four".to_string()));
            assert_eq!(s.fields[1].comments.len(), 0);
        }
        _ => panic!("expected a struct"),
    }
}

#[test]
fn inline_comment_stays_on_its_line() {
    let idl = "enum E {\n  A\n  // for B\n  B // inline\n}\n";
    let document = Parser::new(idl).parse().unwrap();
    match &document.body[0] {
        TopDefinition::Enum(e) => {
            assert_eq!(e.members[0].comments.len(), 0);
            assert_eq!(
                e.members[1].comments,
                vec![
                    Comment::Line("for B".to_string()),
                    Comment::Line("inline".to_string())
                ]
            );
        }
        _ => panic!("expected an enum"),
    }
}

#[test]
fn type_grammar() {
    assert_eq!(
        thrift_type("list<a.A>").unwrap(),
        ThriftType::List(Box::new(ThriftType::Named("a.A".to_string())))
    );
    assert_eq!(
        thrift_type("map<string,string>").unwrap(),
        ThriftType::MapOf(Box::new(ThriftType::String), Box::new(ThriftType::String))
    );
    assert_eq!(
        thrift_type("list<map<string, list<i64>>>").unwrap(),
        ThriftType::List(Box::new(ThriftType::MapOf(
            Box::new(ThriftType::String),
            Box::new(ThriftType::List(Box::new(ThriftType::I64)))
        )))
    );
    assert_eq!(thrift_type("bool").unwrap(), ThriftType::Bool);
    assert_eq!(thrift_type("  void").unwrap(), ThriftType::Void);
    assert_eq!(thrift_type("list").unwrap(), ThriftType::Named("list".to_string()));
    assert!(thrift_type("list<i32").is_err());
    assert!(thrift_type("").is_err());
    assert!(thrift_type("i32 x").is_err());
    assert_eq!(thrift_type(" i32 \n").unwrap(), ThriftType::I32);
    assert_eq!(thrift_type("i32x").unwrap_err().message, "expected the end of the type");
}

#[test]
fn missing_field_name_is_an_error() {
    let r = Parser::new("struct X { 1: string }").parse();
    let e = r.unwrap_err();
    assert_eq!(e.message, "expected a field name");
}

#[test]
fn other_parse_errors() {
    assert_eq!(
        Parser::new("struct X { /* open").parse().unwrap_err().message,
        "unterminated block comment"
    );
    assert_eq!(
        Parser::new("include \"a.thrift").parse().unwrap_err().message,
        "unterminated string literal"
    );
    assert!(Parser::new("typedef i32 T").parse().is_err());
    assert!(Parser::new("enum E { A = }").parse().is_err());
    let e = Parser::new("struct X { 1 string s }").parse().unwrap_err();
    assert_eq!(e.message, "expected `:` after field id");
    assert_eq!(e.describe(), format!("expected `:` after field id at character {}", e.position));
}

#[test]
fn empty_input_is_an_empty_document() {
    let document = Parser::new("").parse().unwrap();
    assert!(document.body.is_empty());
    assert_eq!(generate(&document, GenerateOptions::default()), "");
    let document = Parser::new("  // only a comment\n").parse().unwrap();
    assert!(document.body.is_empty());
}

#[test]
fn generation_is_repeatable() {
    let document = Parser::new(SAMPLE).parse().unwrap();
    let first = generate(&document, GenerateOptions::default());
    let second = generate(&document, GenerateOptions::default());
    assert_eq!(first, second);
}

#[test]
fn only_optional_fields_get_a_question_mark() {
    let out = gen("struct R { 1: optional i32 a\n 2: required i32 b\n 3: i32 c }");
    assert!(out.contains("  a?: number;"));
    assert!(out.contains("  b: number;"));
    assert!(out.contains("  c: number;"));
    assert!(!out.contains("b?"));
    assert!(!out.contains("c?"));
}

#[test]
fn enum_members_count_from_zero() {
    let out = gen("enum E { A B C }");
    assert!(out.contains("export const E = {\n  A: 0,\n  B: 1,\n  C: 2,\n} as const;\n"));
    assert!(out.contains("export type E = typeof E[keyof typeof E];"));
}

#[test]
fn enum_index_of_many_members() {
    let names: Vec<String> = (0..12).map(|i| format!("M{}", i)).collect();
    let out = gen(&format!("enum Big {{ {} }}", names.join(" ")));
    assert!(out.contains("  M11: 11,"));
    assert!(out.contains("  M10: 10,"));
}

#[test]
fn enum_initializers_are_kept_verbatim() {
    let out = gen("enum E { A = 01 B }");
    assert!(out.contains("  A: 01,"));
    assert!(out.contains("  B: 1,"));
}

#[test]
fn struct_scenario() {
    let out = gen("struct P { 1: optional i32 n }");
    assert!(out.contains("export interface P"));
    assert!(out.contains("n?: number;"));
    assert_eq!(
        out,
        "export interface P {\n  /**\n   * @fieldId 1\n   */\n  n?: number;\n}\n"
    );
}

#[test]
fn enum_scenario() {
    let out = gen("enum E { A B C }");
    assert!(out.contains("A: 0"));
    assert!(out.contains("B: 1"));
    assert!(out.contains("C: 2"));
}

#[test]
fn service_scenario() {
    let out = gen("service S { void F(1: string s) }");
    assert!(out.contains("F(s: string): void"));
    let out = gen("service S { i32 G(1: i32 a 2: optional string b) }");
    assert!(out.contains("  G(a: number, b?: string): number;"));
    assert!(out.contains("   * @param a fieldId=1"));
}

#[test]
fn include_scenario() {
    let out = gen("include \"x.thrift\"");
    assert!(out.contains("from \"./x.ts\""));
    assert_eq!(out, "import * as x from \"./x.ts\";\n");
    let out = gen("include \"../common/base-types.thrift\"");
    assert_eq!(out, "import * as base_types from \"../common/base-types.ts\";\n");
    let r = compile_source("include \"x.thrift\"", "main.thrift", GenerateOptions::default());
    let o = r.ok().unwrap();
    assert_eq!(o.deps, vec!["x.thrift".to_string()]);
    assert_eq!(include_file("/src/main.thrift", "x.thrift"), "/src/x.thrift");
}

#[test]
fn nested_generic_scenario() {
    let out = gen("struct T { 1: map<string, list<i64>> m }");
    assert!(out.contains("m: Record<string, Array<number>>;"));
}

#[test]
fn annotation_scenario() {
    let out = gen("struct Q { 1: string s (api.query=\"q\") }");
    assert!(out.contains("@annotation api.query=q"));
}

#[test]
fn type_mapping() {
    assert_eq!(ts_type_of(&ThriftType::I16), "number");
    assert_eq!(ts_type_of(&ThriftType::Double), "number");
    assert_eq!(ts_type_of(&ThriftType::Bool), "boolean");
    assert_eq!(ts_type_of(&ThriftType::Named("a.B".to_string())), "a.B");
}

#[test]
fn namespace_and_comment_blocks() {
    let out = gen("namespace go a.b\n// About S\nstruct S {}");
    assert_eq!(
        out,
        "/** namespace go a.b */\n\n/**\n * About S\n */\nexport interface S {\n}\n"
    );
}

#[test]
fn deps_visitor_collects_each_include_once() {
    let mut document = Parser::new("include \"a.thrift\"\ninclude \"b.thrift\"\ninclude \"a.thrift\"")
        .parse()
        .unwrap();
    let mut v = DepsVisitor::new();
    visit_document(&mut v, &mut document);
    assert_eq!(v.deps.items, vec!["a.thrift".to_string(), "b.thrift".to_string()]);
}

#[test]
fn path_set_admits_once() {
    let mut seen = PathSet::new();
    assert!(seen.insert(&"/a".to_string()));
    assert!(!seen.insert(&"/a".to_string()));
    assert!(seen.insert(&"/b".to_string()));
    assert_eq!(seen.items.len(), 2);
}

/// Runs the include walk of the driver over files held in memory; returns
/// how often each file was compiled, or the first error.
fn walk(files: &HashMap<String, String>, roots: &[&str]) -> Result<HashMap<String, usize>, String> {
    let mut seen = PathSet::new();
    let mut writes: HashMap<String, usize> = HashMap::new();
    let mut pending: Vec<String> = roots.iter().map(|r| input_path(r, "/src")).collect();
    while let Some(file) = pending.pop() {
        if !seen.insert(&file) {
            continue;
        }
        let relative = relative_path(&file, "/src").unwrap();
        let out = compile_source(&files[&file], &relative, GenerateOptions::default())?;
        *writes.entry(output_file("/out", &relative)).or_insert(0) += 1;
        for dep in out.deps {
            pending.push(include_file(&file, &dep));
        }
    }
    Ok(writes)
}

#[test]
fn shared_include_is_compiled_once() {
    let mut files = HashMap::new();
    files.insert("/src/a.thrift".to_string(), "include \"c.thrift\"".to_string());
    files.insert("/src/b.thrift".to_string(), "include \"c.thrift\"".to_string());
    files.insert("/src/c.thrift".to_string(), "struct C {}".to_string());
    let writes = walk(&files, &["a.thrift", "b.thrift"]).unwrap();
    assert_eq!(writes.len(), 3);
    assert_eq!(writes["/out/c.ts"], 1);
}

#[test]
fn include_cycle_terminates() {
    let mut files = HashMap::new();
    files.insert("/src/a.thrift".to_string(), "include \"b.thrift\"".to_string());
    files.insert("/src/b.thrift".to_string(), "include \"a.thrift\"".to_string());
    let writes = walk(&files, &["a.thrift"]).unwrap();
    assert_eq!(writes["/out/a.ts"], 1);
    assert_eq!(writes["/out/b.ts"], 1);
}

#[test]
fn failure_names_the_file() {
    let mut files = HashMap::new();
    files.insert("/src/a.thrift".to_string(), "include \"sub/bad.thrift\"".to_string());
    files.insert("/src/sub/bad.thrift".to_string(), "struct X { 1: string }".to_string());
    let err = walk(&files, &["a.thrift"]).unwrap_err();
    assert!(err.starts_with("Compiler failed: sub/bad.thrift. "));
    assert!(err.contains("expected a field name"));
}

#[test]
fn paths() {
    assert_eq!(resolve_path("./idl", "/home/u"), "/home/u/idl");
    assert_eq!(resolve_path("idl", "/home/u/"), "/home/u/idl");
    assert_eq!(resolve_path("/abs/idl", "/home/u"), "/abs/idl");
    assert_eq!(input_path("x.thrift", "/src"), "/src/x.thrift");
    assert_eq!(input_path("/other/x.thrift", "/src"), "/other/x.thrift");
    assert_eq!(relative_path("/src/a/b.thrift", "/src"), Some("a/b.thrift".to_string()));
    assert_eq!(relative_path("/elsewhere/b.thrift", "/src"), None);
    assert_eq!(output_file("/out", "a/b.thrift"), "/out/a/b.ts");
    assert_eq!(output_file("/out/", "noext"), "/out/noext.ts");
    assert_eq!(include_file("/src/a/b.thrift", "../c.thrift"), "/src/a/../c.thrift");
    assert_eq!(include_file("b.thrift", "c.thrift"), "c.thrift");
}

#[test]
fn compiler_keeps_its_settings() {
    let c = Compiler::new(
        vec!["a.thrift".to_string()],
        "./idl".to_string(),
        "./out".to_string(),
        GenerateOptions::default(),
    );
    assert_eq!(c.input, vec!["a.thrift".to_string()]);
    assert_eq!(c.src_dir, "./idl");
    assert_eq!(c.out_dir, "./out");
}

#[test]
fn requiredness_is_recorded() {
    let document = Parser::new("struct R { 1: optional i32 a\n 2: required i32 b 3: i32 c }")
        .parse()
        .unwrap();
    match &document.body[0] {
        TopDefinition::Struct(s) => {
            assert_eq!(s.fields[0].requiredness, Requiredness::Optional);
            assert_eq!(s.fields[1].requiredness, Requiredness::Required);
            assert_eq!(s.fields[2].requiredness, Requiredness::Unspecified);
            assert_eq!(s.fields[2].id, "3");
        }
        _ => panic!("expected a struct"),
    }
}

#[test]
fn requiredness_words_are_not_types() {
    assert!(Parser::new("struct X { 1: optional x }").parse().is_err());
    let document = Parser::new("struct X { 1: optionalType y }").parse().unwrap();
    match &document.body[0] {
        TopDefinition::Struct(s) => {
            assert_eq!(s.fields[0].requiredness, Requiredness::Unspecified);
            assert_eq!(s.fields[0].field_type, ThriftType::Named("optionalType".to_string()));
        }
        _ => panic!("expected a struct"),
    }
}

#[test]
fn separators_are_not_part_of_the_grammar() {
    assert!(Parser::new("struct X { 1: i32 a, 2: i32 b }").parse().is_err());
}

#[test]
fn compile_parsed_carries_the_parse_error() {
    let err = Parser::new("struct X { 1: string }").parse().unwrap_err();
    let expected = format!("Compiler failed: x.thrift. {}", err.describe());
    let r = compile_parsed(Err(err), "x.thrift", GenerateOptions::default());
    assert_eq!(r.err().unwrap(), expected);
    let document = Parser::new("include \"y.thrift\"").parse().unwrap();
    let o = compile_parsed(Ok(document), "x.thrift", GenerateOptions::default()).ok().unwrap();
    assert_eq!(o.code, "import * as y from \"./y.ts\";\n");
    assert_eq!(o.deps, vec!["y.thrift".to_string()]);
}

#[test]
fn malformed_annotations_are_errors() {
    assert!(Parser::new("struct X { 1: i32 a (k=\"v\" j=\"w\") }").parse().is_err());
    assert!(Parser::new("struct X { 1: i32 a (k=\"v\", ) }").parse().is_err());
    assert!(Parser::new("struct X { 1: i32 a ( }").parse().is_err());
    let out = gen("struct X { 1: i32 a (k=\"v\", j = \"w\") }");
    assert!(out.contains("@annotation k=v"));
    assert!(out.contains("@annotation j=w"));
}

#[test]
fn primitive_keywords_win_over_names() {
    assert_eq!(thrift_type("stringy").unwrap_err().message, "expected the end of the type");
    assert_eq!(thrift_type("strin").unwrap(), ThriftType::Named("strin".to_string()));
    assert!(thrift_type("list<>").is_err());
}

#[test]
fn comment_closers_are_escaped() {
    let out = gen("// a */ b\nstruct S { 1: i32 x (k=\"*/\") }");
    assert!(out.contains(" * a *\\/ b\n"));
    assert!(out.contains("@annotation k=*\\/"));
    assert_eq!(out.matches("*/").count(), 2);
}

#[test]
fn compile_source_repeats() {
    let a = compile_source(SAMPLE, "main.thrift", GenerateOptions::default()).ok().unwrap();
    let b = compile_source(SAMPLE, "main.thrift", GenerateOptions::default()).ok().unwrap();
    assert_eq!(a.code, b.code);
    assert_eq!(a.deps, b.deps);
}
