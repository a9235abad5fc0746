use vstd::prelude::*;

use crate::ast::{
    Annotation, Comment, EnumDefinition, EnumMember, FieldDefinition, FunctionDefinition,
    IncludeDefinition, NamespaceDefinition, Requiredness, ServiceDefinition, StructDefinition,
    ThriftDocument, ThriftType, TopDefinition,
};
use crate::text::{decimal, push_char, push_decimal};

verus! {

/// Settings handed unchanged to every generation; none are recognised yet.
#[derive(Debug, Clone, Copy, Default, PartialEq, Eq)]
pub struct GenerateOptions {}

// ---------------------------------------------------------------------------
// What the generator emits, as text
// ---------------------------------------------------------------------------

/// The TypeScript spelling of a Thrift type.
pub open spec fn ts_type(t: ThriftType) -> Seq<char>
    decreases t,
{
    match t {
        ThriftType::Void => "void"@,
        ThriftType::String => "string"@,
        ThriftType::I16 => "number"@,
        ThriftType::I32 => "number"@,
        ThriftType::I64 => "number"@,
        ThriftType::Double => "number"@,
        ThriftType::Bool => "boolean"@,
        ThriftType::List(e) => "Array<"@ + ts_type(*e) + ">"@,
        ThriftType::MapOf(k, v) => "Record<"@ + ts_type(*k) + ", "@ + ts_type(*v) + ">"@,
        ThriftType::Named(n) => n@,
    }
}

/// The lines of text a comment contributes to a doc block.
pub open spec fn comment_lines(c: Comment) -> Seq<Seq<char>> {
    match c {
        Comment::Line(s) => seq![s@],
        Comment::Block(ls) => ls@.map_values(|l: String| l@),
    }
}

/// The lines of all comments, in order.
pub open spec fn comments_lines(cs: Seq<Comment>) -> Seq<Seq<char>>
    decreases cs.len(),
{
    if cs.len() == 0 {
        seq![]
    } else {
        comments_lines(cs.drop_last()) + comment_lines(cs.last())
    }
}

/// The `@annotation name=value` tag lines of an annotation list.
pub open spec fn annotation_lines(annos: Seq<Annotation>) -> Seq<Seq<char>>
    decreases annos.len(),
{
    if annos.len() == 0 {
        seq![]
    } else {
        annotation_lines(annos.drop_last()).push(
            "@annotation "@ + annos.last().name@ + "="@ + annos.last().value@,
        )
    }
}

/// One line inside a doc block; an empty line gets no trailing blank.
/// Text made safe inside a `/* */` comment: each `*/` becomes `*\/`.
pub open spec fn comment_safe(t: Seq<char>) -> Seq<char>
    decreases t.len(),
{
    if t.len() == 0 {
        seq![]
    } else if t.len() >= 2 && t[0] == '*' && t[1] == '/' {
        seq!['*', '\\', '/'] + comment_safe(t.skip(2))
    } else {
        seq![t[0]] + comment_safe(t.skip(1))
    }
}

pub open spec fn doc_line(indent: Seq<char>, l: Seq<char>) -> Seq<char> {
    if l.len() == 0 {
        indent + " *\n"@
    } else {
        indent + " * "@ + comment_safe(l) + "\n"@
    }
}

pub open spec fn doc_body(indent: Seq<char>, lines: Seq<Seq<char>>) -> Seq<char>
    decreases lines.len(),
{
    if lines.len() == 0 {
        seq![]
    } else {
        doc_body(indent, lines.drop_last()) + doc_line(indent, lines.last())
    }
}

/// A `/** ... */` block holding `lines`, or nothing when there are none.
pub open spec fn doc_block(indent: Seq<char>, lines: Seq<Seq<char>>) -> Seq<char> {
    if lines.len() == 0 {
        seq![]
    } else {
        indent + "/**\n"@ + doc_body(indent, lines) + indent + " */\n"@
    }
}

/// The `?` that marks an optional member.
pub open spec fn optional_mark(r: Requiredness) -> Seq<char> {
    if r == Requiredness::Optional {
        "?"@
    } else {
        seq![]
    }
}

/// The doc lines of a struct field: its comments, its id, its annotations.
pub open spec fn field_doc_lines(f: FieldDefinition) -> Seq<Seq<char>> {
    comments_lines(f.comments@) + seq!["@fieldId "@ + f.id@] + annotation_lines(f.annotations@)
}

/// The member `name?: type;` declaration of a field, without its doc block.
pub open spec fn field_member(f: FieldDefinition) -> Seq<char> {
    "  "@ + f.name@ + optional_mark(f.requiredness) + ": "@ + ts_type(f.field_type) + ";\n"@
}

pub open spec fn field_text(f: FieldDefinition) -> Seq<char> {
    doc_block("  "@, field_doc_lines(f)) + field_member(f)
}

pub open spec fn fields_text(fs: Seq<FieldDefinition>) -> Seq<char>
    decreases fs.len(),
{
    if fs.len() == 0 {
        seq![]
    } else {
        fields_text(fs.drop_last()) + field_text(fs.last())
    }
}

pub open spec fn struct_text(s: StructDefinition) -> Seq<char> {
    doc_block(seq![], comments_lines(s.comments@)) + "export interface "@ + s.name@ + " {\n"@
        + fields_text(s.fields@) + "}\n"@
}

/// The value of the `index`-th member: its initializer, else its position.
pub open spec fn member_value(m: EnumMember, index: nat) -> Seq<char> {
    match m.initializer {
        Some(v) => v@,
        None => decimal(index),
    }
}

pub open spec fn member_text(m: EnumMember, index: nat) -> Seq<char> {
    doc_block("  "@, comments_lines(m.comments@)) + "  "@ + m.name@ + ": "@ + member_value(
        m,
        index,
    ) + ",\n"@
}

pub open spec fn members_text(ms: Seq<EnumMember>) -> Seq<char>
    decreases ms.len(),
{
    if ms.len() == 0 {
        seq![]
    } else {
        members_text(ms.drop_last()) + member_text(ms.last(), (ms.len() - 1) as nat)
    }
}

pub open spec fn enum_text(e: EnumDefinition) -> Seq<char> {
    doc_block(seq![], comments_lines(e.comments@)) + "export const "@ + e.name@ + " = {\n"@
        + members_text(e.members@) + "} as const;\n"@ + "export type "@ + e.name@
        + " = typeof "@ + e.name@ + "[keyof typeof "@ + e.name@ + "];\n"@
}

/// One parameter `name?: type` of a method signature.
pub open spec fn param_text(p: FieldDefinition) -> Seq<char> {
    p.name@ + optional_mark(p.requiredness) + ": "@ + ts_type(p.field_type)
}

/// The parameters, separated by `, `.
pub open spec fn params_text(ps: Seq<FieldDefinition>) -> Seq<char>
    decreases ps.len(),
{
    if ps.len() == 0 {
        seq![]
    } else if ps.len() == 1 {
        param_text(ps[0])
    } else {
        params_text(ps.drop_last()) + ", "@ + param_text(ps.last())
    }
}

/// The `@param name fieldId=N` tag lines that keep the parameters' ids.
pub open spec fn param_lines(ps: Seq<FieldDefinition>) -> Seq<Seq<char>>
    decreases ps.len(),
{
    if ps.len() == 0 {
        seq![]
    } else {
        param_lines(ps.drop_last()).push(
            "@param "@ + ps.last().name@ + " fieldId="@ + ps.last().id@,
        )
    }
}

pub open spec fn function_doc_lines(f: FunctionDefinition) -> Seq<Seq<char>> {
    comments_lines(f.comments@) + param_lines(f.fields@) + annotation_lines(f.annotations@)
}

pub open spec fn function_text(f: FunctionDefinition) -> Seq<char> {
    doc_block("  "@, function_doc_lines(f)) + "  "@ + f.name@ + "("@ + params_text(f.fields@)
        + "): "@ + ts_type(f.return_type) + ";\n"@
}

pub open spec fn functions_text(fs: Seq<FunctionDefinition>) -> Seq<char>
    decreases fs.len(),
{
    if fs.len() == 0 {
        seq![]
    } else {
        functions_text(fs.drop_last()) + function_text(fs.last())
    }
}

pub open spec fn service_text(s: ServiceDefinition) -> Seq<char> {
    doc_block(seq![], comments_lines(s.comments@)) + "export interface "@ + s.name@ + " {\n"@
        + functions_text(s.functions@) + "}\n"@
}

pub open spec fn namespace_text(n: NamespaceDefinition) -> Seq<char> {
    "/** namespace "@ + comment_safe(n.scope@) + " "@ + comment_safe(n.name@) + " */\n"@
}


/// Where the extension of the last path segment starts, if it has one.
pub open spec fn extension_dot(p: Seq<char>) -> Option<int>
    decreases p.len(),
{
    if p.len() == 0 || p.last() == '/' {
        None
    } else if p.last() == '.' {
        Some(p.len() - 1)
    } else {
        extension_dot(p.drop_last())
    }
}

/// Where the last path segment starts.
pub open spec fn segment_start(p: Seq<char>) -> int
    decreases p.len(),
{
    if p.len() == 0 {
        0
    } else if p.last() == '/' {
        p.len() as int
    } else {
        segment_start(p.drop_last())
    }
}

/// `p` without the extension of its last segment.
pub open spec fn without_extension(p: Seq<char>) -> Seq<char> {
    match extension_dot(p) {
        Some(d) => p.take(d),
        None => p,
    }
}

/// The module an include is imported from: the same path, relative, ending in `.ts`.
pub open spec fn ts_module_path(p: Seq<char>) -> Seq<char> {
    let prefix = if p.len() > 0 && p[0] == '.' {
        Seq::<char>::empty()
    } else {
        "./"@
    };
    prefix + without_extension(p) + ".ts"@
}

pub open spec fn is_alias_char(c: char) -> bool {
    ('a' <= c && c <= 'z') || ('A' <= c && c <= 'Z') || ('0' <= c && c <= '9') || c == '_'
        || c == '$'
}

/// The name an include is imported under: the file's base name, with each
/// character that cannot stand in an identifier replaced by `_`.
pub open spec fn import_alias(p: Seq<char>) -> Seq<char> {
    without_extension(p).skip(segment_start(p)).map_values(
        |c: char|
            if is_alias_char(c) {
                c
            } else {
                '_'
            },
    )
}

pub open spec fn include_text(i: IncludeDefinition) -> Seq<char> {
    "import * as "@ + import_alias(i.path@) + " from \""@ + ts_module_path(i.path@) + "\";\n"@
}

pub open spec fn top_text(d: TopDefinition) -> Seq<char> {
    match d {
        TopDefinition::Namespace(n) => namespace_text(n),
        TopDefinition::Include(i) => include_text(i),
        TopDefinition::Struct(s) => struct_text(s),
        TopDefinition::Enum(e) => enum_text(e),
        TopDefinition::Service(s) => service_text(s),
    }
}

/// The definitions in order, a blank line between two of them.
pub open spec fn definitions_text(ds: Seq<TopDefinition>) -> Seq<char>
    decreases ds.len(),
{
    if ds.len() == 0 {
        seq![]
    } else if ds.len() == 1 {
        top_text(ds[0])
    } else {
        definitions_text(ds.drop_last()) + "\n"@ + top_text(ds.last())
    }
}

/// The TypeScript text generated for a document.
pub open spec fn document_text(d: ThriftDocument) -> Seq<char> {
    definitions_text(d.body@)
}

pub open spec fn lines_view(v: Seq<String>) -> Seq<Seq<char>> {
    v.map_values(|l: String| l@)
}


// ---------------------------------------------------------------------------
// The generator
// ---------------------------------------------------------------------------

fn write_type(out: &mut String, t: &ThriftType)
    ensures
        final(out)@ == old(out)@ + ts_type(*t),
    decreases t,
{
    match t {
        ThriftType::Void => out.append("void"),
        ThriftType::String => out.append("string"),
        ThriftType::I16 => out.append("number"),
        ThriftType::I32 => out.append("number"),
        ThriftType::I64 => out.append("number"),
        ThriftType::Double => out.append("number"),
        ThriftType::Bool => out.append("boolean"),
        ThriftType::List(e) => {
            out.append("Array<");
            write_type(out, &**e);
            out.append(">");
        },
        ThriftType::MapOf(k, v) => {
            out.append("Record<");
            write_type(out, &**k);
            out.append(", ");
            write_type(out, &**v);
            out.append(">");
        },
        ThriftType::Named(n) => out.append(n.as_str()),
    }
    assert(final(out)@ =~= old(out)@ + ts_type(*t));
}

/// The TypeScript spelling of a Thrift type.
pub fn ts_type_of(t: &ThriftType) -> (r: String)
    ensures
        r@ == ts_type(*t),
{
    let mut r = String::new();
    write_type(&mut r, t);
    assert(r@ =~= ts_type(*t));
    r
}

fn push_comment_lines(lines: &mut Vec<String>, cs: &Vec<Comment>)
    ensures
        lines_view(final(lines)@) == lines_view(old(lines)@) + comments_lines(cs@),
{
    let mut i: usize = 0;
    while i < cs.len()
        invariant
            i <= cs@.len(),
            lines_view(lines@) == lines_view(old(lines)@) + comments_lines(cs@.take(i as int)),
        decreases cs@.len() - i,
    {
        proof {
            assert(cs@.take(i + 1).drop_last() =~= cs@.take(i as int));
        }
        let ghost before = lines@;
        match &cs[i] {
            Comment::Line(l) => {
                lines.push(l.clone());
                assert(lines_view(lines@) =~= lines_view(before) + seq![l@]);
            },
            Comment::Block(ls) => {
                let mut j: usize = 0;
                while j < ls.len()
                    invariant
                        j <= ls@.len(),
                        lines_view(lines@) =~= lines_view(before) + ls@.take(j as int).map_values(
                            |l: String| l@,
                        ),
                    decreases ls@.len() - j,
                {
                    let ghost prev = lines@;
                    lines.push(ls[j].clone());
                    assert(lines_view(lines@) =~= lines_view(prev).push(ls@[j as int]@));
                    assert(ls@.take(j + 1).map_values(|l: String| l@) =~= ls@.take(
                        j as int,
                    ).map_values(|l: String| l@).push(ls@[j as int]@));
                    j += 1;
                    assert(lines_view(lines@) =~= lines_view(before) + ls@.take(j as int).map_values(
                        |l: String| l@,
                    ));
                }
                assert(ls@.take(ls@.len() as int) =~= ls@);
            },
        }
        i += 1;
    }
    assert(cs@.take(cs@.len() as int) =~= cs@);
}

fn push_annotation_lines(lines: &mut Vec<String>, annos: &Vec<Annotation>)
    ensures
        lines_view(final(lines)@) == lines_view(old(lines)@) + annotation_lines(annos@),
{
    let mut i: usize = 0;
    while i < annos.len()
        invariant
            i <= annos@.len(),
            lines_view(lines@) == lines_view(old(lines)@) + annotation_lines(
                annos@.take(i as int),
            ),
        decreases annos@.len() - i,
    {
        proof {
            assert(annos@.take(i + 1).drop_last() =~= annos@.take(i as int));
        }
        let ghost before = lines@;
        let mut l = String::new();
        l.append("@annotation ");
        l.append(annos[i].name.as_str());
        l.append("=");
        l.append(annos[i].value.as_str());
        let ghost prev = lines@;
        lines.push(l);
        assert(lines_view(lines@) =~= lines_view(prev).push(l@));
        assert(annos@.take(i + 1).last() == annos@[i as int]);
        i += 1;
        assert(lines_view(lines@) =~= lines_view(old(lines)@) + annotation_lines(
            annos@.take(i as int),
        ));
    }
    assert(annos@.take(annos@.len() as int) =~= annos@);
}

fn push_param_lines(lines: &mut Vec<String>, ps: &Vec<FieldDefinition>)
    ensures
        lines_view(final(lines)@) == lines_view(old(lines)@) + param_lines(ps@),
{
    let mut i: usize = 0;
    while i < ps.len()
        invariant
            i <= ps@.len(),
            lines_view(lines@) == lines_view(old(lines)@) + param_lines(ps@.take(i as int)),
        decreases ps@.len() - i,
    {
        proof {
            assert(ps@.take(i + 1).drop_last() =~= ps@.take(i as int));
        }
        let mut l = String::new();
        l.append("@param ");
        l.append(ps[i].name.as_str());
        l.append(" fieldId=");
        l.append(ps[i].id.as_str());
        let ghost prev = lines@;
        lines.push(l);
        assert(lines_view(lines@) =~= lines_view(prev).push(l@));
        assert(ps@.take(i + 1).last() == ps@[i as int]);
        i += 1;
        assert(lines_view(lines@) =~= lines_view(old(lines)@) + param_lines(ps@.take(i as int)));
    }
    assert(ps@.take(ps@.len() as int) =~= ps@);
}

/// Appends `t` with each `*/` written as `*\/`.
fn push_comment_safe(out: &mut String, t: &str)
    ensures
        final(out)@ == old(out)@ + comment_safe(t@),
{
    let v = crate::text::chars_of(t);
    let n = v.len();
    let mut i: usize = 0;
    assert(v@.skip(0) =~= v@);
    while i < n
        invariant
            n == v@.len(),
            v@ == t@,
            i <= n,
            old(out)@ + comment_safe(t@) == out@ + comment_safe(v@.skip(i as int)),
        decreases n - i,
    {
        let ghost rest = v@.skip(i as int);
        if i + 1 < n && v[i] == '*' && v[i + 1] == '/' {
            push_char(out, '*');
            push_char(out, '\\');
            push_char(out, '/');
            assert(rest.skip(2) =~= v@.skip(i + 2));
            assert(comment_safe(rest) == seq!['*', '\\', '/'] + comment_safe(rest.skip(2)));
            i += 2;
        } else {
            push_char(out, v[i]);
            assert(rest.skip(1) =~= v@.skip(i + 1));
            assert(comment_safe(rest) == seq![rest[0]] + comment_safe(rest.skip(1)));
            i += 1;
        }
        assert(old(out)@ + comment_safe(t@) =~= out@ + comment_safe(v@.skip(i as int)));
    }
    assert(v@.skip(n as int) =~= Seq::<char>::empty());
    assert(old(out)@ + comment_safe(t@) =~= out@);
}

fn write_doc_block(out: &mut String, indent: &str, lines: &Vec<String>)
    ensures
        final(out)@ == old(out)@ + doc_block(indent@, lines_view(lines@)),
{
    if lines.len() == 0 {
        assert(lines_view(lines@) =~= Seq::<Seq<char>>::empty());
        assert(final(out)@ =~= old(out)@ + doc_block(indent@, lines_view(lines@)));
        return;
    }
    out.append(indent);
    out.append("/**\n");
    let ghost head = out@;
    let mut i: usize = 0;
    while i < lines.len()
        invariant
            i <= lines@.len(),
            out@ == head + doc_body(indent@, lines_view(lines@.take(i as int))),
        decreases lines@.len() - i,
    {
        proof {
            assert(lines_view(lines@.take(i + 1)).drop_last() =~= lines_view(
                lines@.take(i as int),
            ));
        }
        out.append(indent);
        if lines[i].as_str().unicode_len() == 0 {
            out.append(" *\n");
        } else {
            out.append(" * ");
            push_comment_safe(out, lines[i].as_str());
            out.append("\n");
        }
        i += 1;
        assert(out@ =~= head + doc_body(indent@, lines_view(lines@.take(i as int))));
    }
    assert(lines@.take(lines@.len() as int) =~= lines@);
    out.append(indent);
    out.append(" */\n");
    assert(final(out)@ =~= old(out)@ + doc_block(indent@, lines_view(lines@)));
}

fn write_optional_mark(out: &mut String, r: Requiredness)
    ensures
        final(out)@ == old(out)@ + optional_mark(r),
{
    match r {
        Requiredness::Optional => out.append("?"),
        _ => {
            assert(old(out)@ + optional_mark(r) =~= old(out)@);
        },
    }
}

fn write_field(out: &mut String, f: &FieldDefinition)
    ensures
        final(out)@ == old(out)@ + field_text(*f),
{
    let mut lines: Vec<String> = Vec::new();
    push_comment_lines(&mut lines, &f.comments);
    let mut tag = String::new();
    tag.append("@fieldId ");
    tag.append(f.id.as_str());
    let ghost mid = lines@;
    lines.push(tag);
    assert(lines_view(lines@) =~= lines_view(mid) + seq!["@fieldId "@ + f.id@]);
    push_annotation_lines(&mut lines, &f.annotations);
    assert(lines_view(lines@) =~= field_doc_lines(*f));
    write_doc_block(out, "  ", &lines);
    out.append("  ");
    out.append(f.name.as_str());
    write_optional_mark(out, f.requiredness);
    out.append(": ");
    write_type(out, &f.field_type);
    out.append(";\n");
    assert(final(out)@ =~= old(out)@ + field_text(*f));
}

fn write_struct(out: &mut String, s: &StructDefinition)
    ensures
        final(out)@ == old(out)@ + struct_text(*s),
{
    let mut lines: Vec<String> = Vec::new();
    push_comment_lines(&mut lines, &s.comments);
    assert(lines_view(lines@) =~= comments_lines(s.comments@));
    proof {
        reveal_strlit("");
        assert(""@ =~= Seq::<char>::empty());
    }
    write_doc_block(out, "", &lines);
    out.append("export interface ");
    out.append(s.name.as_str());
    out.append(" {\n");
    let ghost head = out@;
    let mut i: usize = 0;
    while i < s.fields.len()
        invariant
            i <= s.fields@.len(),
            out@ == head + fields_text(s.fields@.take(i as int)),
        decreases s.fields@.len() - i,
    {
        proof {
            assert(s.fields@.take(i + 1).drop_last() =~= s.fields@.take(i as int));
        }
        write_field(out, &s.fields[i]);
        i += 1;
        assert(out@ =~= head + fields_text(s.fields@.take(i as int)));
    }
    assert(s.fields@.take(s.fields@.len() as int) =~= s.fields@);
    out.append("}\n");
    assert(final(out)@ =~= old(out)@ + struct_text(*s));
}

fn write_member(out: &mut String, m: &EnumMember, index: usize)
    ensures
        final(out)@ == old(out)@ + member_text(*m, index as nat),
{
    let mut lines: Vec<String> = Vec::new();
    push_comment_lines(&mut lines, &m.comments);
    assert(lines_view(lines@) =~= comments_lines(m.comments@));
    write_doc_block(out, "  ", &lines);
    out.append("  ");
    out.append(m.name.as_str());
    out.append(": ");
    match &m.initializer {
        Some(v) => out.append(v.as_str()),
        None => push_decimal(out, index),
    }
    out.append(",\n");
    assert(final(out)@ =~= old(out)@ + member_text(*m, index as nat));
}

fn write_enum(out: &mut String, e: &EnumDefinition)
    ensures
        final(out)@ == old(out)@ + enum_text(*e),
{
    let mut lines: Vec<String> = Vec::new();
    push_comment_lines(&mut lines, &e.comments);
    assert(lines_view(lines@) =~= comments_lines(e.comments@));
    proof {
        reveal_strlit("");
        assert(""@ =~= Seq::<char>::empty());
    }
    write_doc_block(out, "", &lines);
    out.append("export const ");
    out.append(e.name.as_str());
    out.append(" = {\n");
    let ghost head = out@;
    let mut i: usize = 0;
    while i < e.members.len()
        invariant
            i <= e.members@.len(),
            out@ == head + members_text(e.members@.take(i as int)),
        decreases e.members@.len() - i,
    {
        proof {
            assert(e.members@.take(i + 1).drop_last() =~= e.members@.take(i as int));
        }
        write_member(out, &e.members[i], i);
        i += 1;
        assert(out@ =~= head + members_text(e.members@.take(i as int)));
    }
    assert(e.members@.take(e.members@.len() as int) =~= e.members@);
    out.append("} as const;\n");
    out.append("export type ");
    out.append(e.name.as_str());
    out.append(" = typeof ");
    out.append(e.name.as_str());
    out.append("[keyof typeof ");
    out.append(e.name.as_str());
    out.append("];\n");
    assert(final(out)@ =~= old(out)@ + enum_text(*e));
}

fn write_param(out: &mut String, p: &FieldDefinition)
    ensures
        final(out)@ == old(out)@ + param_text(*p),
{
    out.append(p.name.as_str());
    write_optional_mark(out, p.requiredness);
    out.append(": ");
    write_type(out, &p.field_type);
    assert(final(out)@ =~= old(out)@ + param_text(*p));
}

fn write_function(out: &mut String, f: &FunctionDefinition)
    ensures
        final(out)@ == old(out)@ + function_text(*f),
{
    let mut lines: Vec<String> = Vec::new();
    push_comment_lines(&mut lines, &f.comments);
    push_param_lines(&mut lines, &f.fields);
    push_annotation_lines(&mut lines, &f.annotations);
    assert(lines_view(lines@) =~= function_doc_lines(*f));
    write_doc_block(out, "  ", &lines);
    out.append("  ");
    out.append(f.name.as_str());
    out.append("(");
    let ghost head = out@;
    let mut i: usize = 0;
    while i < f.fields.len()
        invariant
            i <= f.fields@.len(),
            out@ == head + params_text(f.fields@.take(i as int)),
        decreases f.fields@.len() - i,
    {
        proof {
            assert(f.fields@.take(i + 1).drop_last() =~= f.fields@.take(i as int));
        }
        if i > 0 {
            out.append(", ");
        }
        write_param(out, &f.fields[i]);
        i += 1;
        assert(out@ =~= head + params_text(f.fields@.take(i as int)));
    }
    assert(f.fields@.take(f.fields@.len() as int) =~= f.fields@);
    out.append("): ");
    write_type(out, &f.return_type);
    out.append(";\n");
    assert(final(out)@ =~= old(out)@ + function_text(*f));
}

fn write_service(out: &mut String, s: &ServiceDefinition)
    ensures
        final(out)@ == old(out)@ + service_text(*s),
{
    let mut lines: Vec<String> = Vec::new();
    push_comment_lines(&mut lines, &s.comments);
    assert(lines_view(lines@) =~= comments_lines(s.comments@));
    proof {
        reveal_strlit("");
        assert(""@ =~= Seq::<char>::empty());
    }
    write_doc_block(out, "", &lines);
    out.append("export interface ");
    out.append(s.name.as_str());
    out.append(" {\n");
    let ghost head = out@;
    let mut i: usize = 0;
    while i < s.functions.len()
        invariant
            i <= s.functions@.len(),
            out@ == head + functions_text(s.functions@.take(i as int)),
        decreases s.functions@.len() - i,
    {
        proof {
            assert(s.functions@.take(i + 1).drop_last() =~= s.functions@.take(i as int));
        }
        write_function(out, &s.functions[i]);
        i += 1;
        assert(out@ =~= head + functions_text(s.functions@.take(i as int)));
    }
    assert(s.functions@.take(s.functions@.len() as int) =~= s.functions@);
    out.append("}\n");
    assert(final(out)@ =~= old(out)@ + service_text(*s));
}

fn write_namespace(out: &mut String, n: &NamespaceDefinition)
    ensures
        final(out)@ == old(out)@ + namespace_text(*n),
{
    out.append("/** namespace ");
    push_comment_safe(out, n.scope.as_str());
    out.append(" ");
    push_comment_safe(out, n.name.as_str());
    out.append(" */\n");
    assert(final(out)@ =~= old(out)@ + namespace_text(*n));
}

pub(crate) fn find_extension_dot(p: &Vec<char>) -> (r: Option<usize>)
    ensures
        r matches Some(d) ==> extension_dot(p@) == Some(d as int),
        r is None ==> extension_dot(p@) is None,
{
    let mut j = p.len();
    assert(p@.take(j as int) =~= p@);
    while j > 0
        invariant
            j <= p@.len(),
            extension_dot(p@) == extension_dot(p@.take(j as int)),
        decreases j,
    {
        assert(p@.take(j as int).drop_last() =~= p@.take(j - 1));
        let c = p[j - 1];
        if c == '/' {
            return None;
        }
        if c == '.' {
            return Some(j - 1);
        }
        j -= 1;
    }
    None
}

pub(crate) fn find_segment_start(p: &Vec<char>) -> (r: usize)
    ensures
        r as int == segment_start(p@),
        r <= p@.len(),
{
    let mut j = p.len();
    assert(p@.take(j as int) =~= p@);
    while j > 0
        invariant
            j <= p@.len(),
            segment_start(p@) == segment_start(p@.take(j as int)),
        decreases j,
    {
        assert(p@.take(j as int).drop_last() =~= p@.take(j - 1));
        if p[j - 1] == '/' {
            return j;
        }
        j -= 1;
    }
    0
}

pub(crate) proof fn lemma_segment_start_bound(p: Seq<char>)
    ensures
        0 <= segment_start(p) <= p.len(),
        extension_dot(p) matches Some(d) ==> segment_start(p) <= d < p.len(),
    decreases p.len(),
{
    if p.len() > 0 && p.last() != '/' {
        lemma_segment_start_bound(p.drop_last());
    }
}

#[verifier::rlimit(40)]
fn write_include(out: &mut String, i: &IncludeDefinition)
    ensures
        final(out)@ == old(out)@ + include_text(*i),
{
    let p = crate::text::chars_of(i.path.as_str());
    let end = match find_extension_dot(&p) {
        Some(d) => d,
        None => p.len(),
    };
    let start = find_segment_start(&p);
    proof {
        lemma_segment_start_bound(p@);
    }
    assert(without_extension(p@) =~= p@.take(end as int));
    out.append("import * as ");
    let ghost head = out@;
    let mut k = start;
    while k < end
        invariant
            start <= k <= end <= p@.len(),
            out@ == head + p@.subrange(start as int, k as int).map_values(
                |c: char|
                    if is_alias_char(c) {
                        c
                    } else {
                        '_'
                    },
            ),
        decreases end - k,
    {
        let c = p[k];
        if ('a' <= c && c <= 'z') || ('A' <= c && c <= 'Z') || ('0' <= c && c <= '9') || c == '_'
            || c == '$' {
            push_char(out, c);
        } else {
            push_char(out, '_');
        }
        k += 1;
        assert(out@ =~= head + p@.subrange(start as int, k as int).map_values(
            |c: char|
                if is_alias_char(c) {
                    c
                } else {
                    '_'
                },
        ));
    }
    assert(p@.subrange(start as int, end as int) =~= without_extension(p@).skip(
        segment_start(p@),
    ));
    assert(out@ == head + import_alias(i.path@));
    out.append(" from \"");
    let ghost mid = out@;
    if !(p.len() > 0 && p[0] == '.') {
        out.append("./");
    } else {
        proof {
            reveal_strlit("");
            assert(""@ =~= Seq::<char>::empty());
        }
    }
    let mut k: usize = 0;
    let ghost mid2 = out@;
    let ghost prefix = if p@.len() > 0 && p@[0] == '.' {
        Seq::<char>::empty()
    } else {
        "./"@
    };
    assert(mid2 =~= mid + prefix);
    while k < end
        invariant
            k <= end <= p@.len(),
            out@ == mid2 + p@.take(k as int),
        decreases end - k,
    {
        push_char(out, p[k]);
        k += 1;
        assert(out@ =~= mid2 + p@.take(k as int));
    }
    assert(p@.take(end as int) =~= without_extension(p@));
    assert(out@ =~= mid + (prefix + without_extension(p@)));
    out.append(".ts");
    out.append("\";\n");
    assert(final(out)@ =~= old(out)@ + include_text(*i));
}

fn write_top(out: &mut String, d: &TopDefinition)
    ensures
        final(out)@ == old(out)@ + top_text(*d),
{
    match d {
        TopDefinition::Namespace(n) => write_namespace(out, n),
        TopDefinition::Include(i) => write_include(out, i),
        TopDefinition::Struct(s) => write_struct(out, s),
        TopDefinition::Enum(e) => write_enum(out, e),
        TopDefinition::Service(s) => write_service(out, s),
    }
}

/// Generates the TypeScript text of a document: each definition in source
/// order, a blank line between two of them.
pub fn generate(document: &ThriftDocument, options: GenerateOptions) -> (r: String)
    ensures
        r@ == document_text(*document),
{
    let mut out = String::new();
    let ghost head = out@;
    let mut i: usize = 0;
    while i < document.body.len()
        invariant
            i <= document.body@.len(),
            head == Seq::<char>::empty(),
            out@ == head + definitions_text(document.body@.take(i as int)),
        decreases document.body@.len() - i,
    {
        proof {
            assert(document.body@.take(i + 1).drop_last() =~= document.body@.take(i as int));
        }
        if i > 0 {
            out.append("\n");
        } else {
            assert(document.body@.take(1) =~= seq![document.body@[0]]);
        }
        write_top(&mut out, &document.body[i]);
        i += 1;
        assert(out@ =~= head + definitions_text(document.body@.take(i as int)));
    }
    assert(document.body@.take(document.body@.len() as int) =~= document.body@);
    assert(out@ =~= document_text(*document));
    out
}

// ---------------------------------------------------------------------------
// Properties of the emitted text
// ---------------------------------------------------------------------------

/// Generating twice from one document gives the same text: the output is a
/// function of the document alone.
pub proof fn lemma_generation_repeatable(document: ThriftDocument, first: String, second: String)
    requires
        first@ == document_text(document),
        second@ == document_text(document),
    ensures
        first@ == second@,
{
}

/// A field's member declaration carries `?` right after its name exactly when
/// the field is optional.
pub proof fn lemma_optional_marker(f: FieldDefinition)
    ensures
        field_member(f)[2 + f.name@.len() as int] == '?' <==> f.requiredness == Requiredness::Optional,
        field_member(f).subrange(2, 2 + f.name@.len() as int) == f.name@,
{
    reveal_strlit("  ");
    reveal_strlit("?");
    reveal_strlit(": ");
    let m = field_member(f);
    assert(m == "  "@ + f.name@ + optional_mark(f.requiredness) + ": "@ + ts_type(f.field_type)
        + ";\n"@);
    assert(m.subrange(2, 2 + f.name@.len() as int) =~= f.name@);
    if f.requiredness == Requiredness::Optional {
        assert(m[2 + f.name@.len() as int] == '?');
    } else {
        assert(m[2 + f.name@.len() as int] == ':');
    }
}

/// In an enum, the member at position `i` that has no initializer is given
/// the value `i`; the members' entries come in declaration order.
pub proof fn lemma_enum_auto_index(e: EnumDefinition, i: int)
    requires
        0 <= i < e.members@.len(),
        e.members@[i].initializer is None,
    ensures
        members_text(e.members@.take(i + 1)) == members_text(e.members@.take(i)) + member_text(
            e.members@[i],
            i as nat,
        ),
        member_text(e.members@[i], i as nat) == doc_block(
            "  "@,
            comments_lines(e.members@[i].comments@),
        ) + "  "@ + e.members@[i].name@ + ": "@ + decimal(i as nat) + ",\n"@,
        i < 10 ==> decimal(i as nat) == seq![crate::text::digit_char(i as nat)],
{
    assert(e.members@.take(i + 1).drop_last() =~= e.members@.take(i));
}

} // verus!
