use vstd::prelude::*;

use crate::ast::{
    Annotation, Comment, EnumDefinition, EnumMember, FieldDefinition, FunctionDefinition,
    IncludeDefinition, NamespaceDefinition, Requiredness, ServiceDefinition, StructDefinition,
    ThriftDocument, ThriftType, TopDefinition,
};
use crate::compile::{include_paths, include_set};
use crate::generate::{
    annotation_lines, comment_lines, comments_lines, definitions_text, document_text,
    fields_text, function_text, functions_text, member_text, member_value, members_text,
    param_lines, params_text, top_text, ts_type,
};
use crate::text::{chars_of, string_of, views};

verus! {

// ---------------------------------------------------------------------------
// Lexical classes
// ---------------------------------------------------------------------------

pub open spec fn is_ws(c: char) -> bool {
    c == ' ' || c == '\t' || c == '\r' || c == '\n'
}

pub open spec fn is_horizontal_ws(c: char) -> bool {
    c == ' ' || c == '\t'
}

/// A character that may stand in an identifier: anything but white space,
/// the brackets, `-`, `=` and `,`. The comma is excluded because it separates
/// the key and value types of `map<K, V>` and the entries of an annotation
/// list; a key type written as a name (`map<a.A, string>`) could not be
/// read otherwise.
pub open spec fn is_ident_char(c: char) -> bool {
    !is_ws(c) && c != '-' && c != '=' && c != '(' && c != ')' && c != '{' && c != '}' && c
        != '[' && c != ']' && c != '<' && c != '>' && c != ','
}

pub open spec fn is_digit(c: char) -> bool {
    '0' <= c && c <= '9'
}

/// `s[from..to]` holds only characters of class `p`.
pub open spec fn all_in(s: Seq<char>, from: int, to: int, p: spec_fn(char) -> bool) -> bool {
    forall|k: int| from <= k < to ==> #[trigger] p(s[k])
}

/// `to` ends the longest run of class `p` that starts at `from`.
pub open spec fn run_end(s: Seq<char>, from: int, to: int, p: spec_fn(char) -> bool) -> bool {
    &&& 0 <= from <= to <= s.len()
    &&& all_in(s, from, to, p)
    &&& (to == s.len() || !p(s[to]))
}

/// `s` holds the word `w` at `at`.
pub open spec fn word_at(s: Seq<char>, at: int, w: Seq<char>) -> bool {
    0 <= at && at + w.len() <= s.len() && s.subrange(at, at + w.len()) == w
}

/// `s[from..to]` with the white space at both ends removed.
pub open spec fn trimmed(s: Seq<char>, from: int, to: int, a: int, b: int) -> bool {
    &&& from <= a <= b <= to
    &&& all_in(s, from, a, |c: char| is_ws(c))
    &&& all_in(s, b, to, |c: char| is_ws(c))
    &&& (a < b ==> !is_ws(s[a]) && !is_ws(s[b - 1]))
}

/// Where the white space that starts at `pos` ends.
pub open spec fn ws_end(s: Seq<char>, pos: int) -> int
    decreases s.len() - pos,
{
    if 0 <= pos < s.len() && is_ws(s[pos]) {
        ws_end(s, pos + 1)
    } else {
        pos
    }
}

/// Where the identifier characters that start at `pos` end.
pub open spec fn ident_end(s: Seq<char>, pos: int) -> int
    decreases s.len() - pos,
{
    if 0 <= pos < s.len() && is_ident_char(s[pos]) {
        ident_end(s, pos + 1)
    } else {
        pos
    }
}

/// Where the closing character `c` ends, after white space from `pos`.
pub open spec fn closing_end(s: Seq<char>, pos: int, c: char) -> Option<int> {
    let r = ws_end(s, pos);
    if 0 <= r < s.len() && s[r] == c {
        Some(r + 1)
    } else {
        None
    }
}

/// A type keyword stands at `p`: these are read before any name.
pub open spec fn type_keyword_at(s: Seq<char>, p: int) -> bool {
    word_at(s, p, "void"@) || word_at(s, p, "string"@) || word_at(s, p, "i16"@) || word_at(
        s,
        p,
        "i32"@,
    ) || word_at(s, p, "i64"@) || word_at(s, p, "double"@) || word_at(s, p, "bool"@) || word_at(
        s,
        p,
        "list<"@,
    ) || word_at(s, p, "map<"@)
}

/// Where the text of type `t` ends when it is spelled at `pos` (after white
/// space), or `None` when `s` does not spell `t` there.
pub open spec fn type_end(s: Seq<char>, pos: int, t: ThriftType) -> Option<int>
    decreases t,
{
    let p = ws_end(s, pos);
    match t {
        ThriftType::Void => if word_at(s, p, "void"@) { Some(p + "void"@.len()) } else { None },
        ThriftType::String => if word_at(s, p, "string"@) {
            Some(p + "string"@.len())
        } else {
            None
        },
        ThriftType::I16 => if word_at(s, p, "i16"@) { Some(p + "i16"@.len()) } else { None },
        ThriftType::I32 => if word_at(s, p, "i32"@) { Some(p + "i32"@.len()) } else { None },
        ThriftType::I64 => if word_at(s, p, "i64"@) { Some(p + "i64"@.len()) } else { None },
        ThriftType::Double => if word_at(s, p, "double"@) {
            Some(p + "double"@.len())
        } else {
            None
        },
        ThriftType::Bool => if word_at(s, p, "bool"@) { Some(p + "bool"@.len()) } else { None },
        ThriftType::List(e) => if word_at(s, p, "list<"@) {
            match type_end(s, p + "list<"@.len(), *e) {
                Some(q) => closing_end(s, q, '>'),
                None => None,
            }
        } else {
            None
        },
        ThriftType::MapOf(k, v) => if word_at(s, p, "map<"@) {
            match type_end(s, p + "map<"@.len(), *k) {
                Some(q) => match closing_end(s, q, ',') {
                    Some(q1) => match type_end(s, q1, *v) {
                        Some(q2) => closing_end(s, q2, '>'),
                        None => None,
                    },
                    None => None,
                },
                None => None,
            }
        } else {
            None
        },
        ThriftType::Named(n) => {
            let e = ident_end(s, p);
            if e > p && s.subrange(p, e) == n@ && !type_keyword_at(s, p) {
                Some(e)
            } else {
                None
            }
        },
    }
}

/// `t` without white space at its start.
pub open spec fn trim_start(t: Seq<char>) -> Seq<char>
    decreases t.len(),
{
    if t.len() > 0 && is_ws(t[0]) {
        trim_start(t.skip(1))
    } else {
        t
    }
}

/// `t` without white space at its end.
pub open spec fn trim_end(t: Seq<char>) -> Seq<char>
    decreases t.len(),
{
    if t.len() > 0 && is_ws(t.last()) {
        trim_end(t.drop_last())
    } else {
        t
    }
}

/// `t` without white space at either end.
pub open spec fn trim(t: Seq<char>) -> Seq<char> {
    trim_end(trim_start(t))
}

/// Where the line that `pos` is on ends: the next newline, or the end of `s`.
pub open spec fn line_end(s: Seq<char>, pos: int) -> int
    decreases s.len() - pos,
{
    if pos < 0 || pos >= s.len() || s[pos] == '\n' {
        pos
    } else {
        line_end(s, pos + 1)
    }
}

/// Where the first `*/` at or after `pos` starts, if there is one.
pub open spec fn block_close(s: Seq<char>, pos: int) -> Option<int>
    decreases s.len() - pos,
{
    if pos < 0 || pos + 1 >= s.len() {
        None
    } else if s[pos] == '*' && s[pos + 1] == '/' {
        Some(pos)
    } else {
        block_close(s, pos + 1)
    }
}

/// The trimmed lines of `s[line_start..end]`, scanning from `i`; the
/// current line began at `line_start`.
pub open spec fn lines_from(s: Seq<char>, line_start: int, i: int, end: int) -> Seq<Seq<char>>
    decreases end - i,
{
    if i >= end {
        seq![trim(s.subrange(line_start, end))]
    } else if s[i] == '\n' {
        seq![trim(s.subrange(line_start, i))] + lines_from(s, i + 1, i + 1, end)
    } else {
        lines_from(s, line_start, i + 1, end)
    }
}

/// `s[from..to]` is the comment `c`: a `//` comment running to the end of its
/// line, or a `/* */` comment, with the trimmed text of each line.
pub open spec fn comment_at(s: Seq<char>, from: int, to: int, c: Comment) -> bool {
    match c {
        Comment::Line(t) => word_at(s, from, "//"@) && to == line_end(s, from + 2) && t@ == trim(
            s.subrange(from + 2, to),
        ),
        Comment::Block(ls) => word_at(s, from, "/*"@) && block_close(s, from + 2) == Some(to - 2)
            && views(ls@) == lines_from(s, from + 2, from + 2, to - 2),
    }
}

/// From `from`, `s` holds the comments `cs` (each after white space), and the
/// white space after the last of them ends at `to`.
pub open spec fn comments_run(s: Seq<char>, from: int, to: int, cs: Seq<Comment>) -> bool
    decreases cs.len(),
{
    if cs.len() == 0 {
        to == ws_end(s, from)
    } else {
        exists|mid: int, e: int|
            comments_run(s, from, mid, cs.drop_last()) && #[trigger] comment_at(s, mid, e, cs.last())
                && to == ws_end(s, e)
    }
}

/// From `from`, `s` holds the comments `cs` and no further comment: the run
/// of comments is read as far as it goes.
pub open spec fn comments_at(s: Seq<char>, from: int, to: int, cs: Seq<Comment>) -> bool {
    comments_run(s, from, to, cs) && !word_at(s, to, "//"@) && !word_at(s, to, "/*"@)
}

/// Where the spaces and tabs that start at `pos` end.
pub open spec fn horizontal_end(s: Seq<char>, pos: int) -> int
    decreases s.len() - pos,
{
    if 0 <= pos < s.len() && is_horizontal_ws(s[pos]) {
        horizontal_end(s, pos + 1)
    } else {
        pos
    }
}

/// Where the digits that start at `pos` end.
pub open spec fn digit_end(s: Seq<char>, pos: int) -> int
    decreases s.len() - pos,
{
    if 0 <= pos < s.len() && is_digit(s[pos]) {
        digit_end(s, pos + 1)
    } else {
        pos
    }
}

/// Where the identifier `name` ends when it stands at `pos`, after white space.
pub open spec fn named_end(s: Seq<char>, pos: int, name: Seq<char>) -> Option<int> {
    let p = ws_end(s, pos);
    let e = ident_end(s, p);
    if e > p && s.subrange(p, e) == name {
        Some(e)
    } else {
        None
    }
}

/// Where the string literal with contents `v` ends when it stands at `pos`,
/// after white space.
pub open spec fn string_end(s: Seq<char>, pos: int, v: Seq<char>) -> Option<int> {
    let p = ws_end(s, pos);
    if 0 <= p < s.len() && s[p] == '"' && !v.contains('"') && word_at(s, p + 1, v) && p + 1
        + v.len() < s.len() && s[p + 1 + v.len()] == '"' {
        Some(p + v.len() + 2)
    } else {
        None
    }
}

/// Where the annotation `name = "value"` ends when it stands at `pos`.
pub open spec fn annotation_end(s: Seq<char>, pos: int, a: Annotation) -> Option<int> {
    match named_end(s, pos, a.name@) {
        Some(e) => match closing_end(s, e, '=') {
            Some(q) => string_end(s, q, a.value@),
            None => None,
        },
        None => None,
    }
}

/// Where the annotations `annos`, separated by `,`, end.
pub open spec fn annotation_list_end(s: Seq<char>, pos: int, annos: Seq<Annotation>) -> Option<
    int,
>
    decreases annos.len(),
{
    if annos.len() == 0 {
        None
    } else if annos.len() == 1 {
        annotation_end(s, pos, annos[0])
    } else {
        match annotation_list_end(s, pos, annos.drop_last()) {
            Some(q) => match closing_end(s, q, ',') {
                Some(q1) => annotation_end(s, q1, annos.last()),
                None => None,
            },
            None => None,
        }
    }
}

/// Where an optional annotation list ends: no text when there are none
/// (and then no `(` follows), else `(` the annotations `)`.
pub open spec fn annotations_end(s: Seq<char>, pos: int, annos: Seq<Annotation>) -> Option<int> {
    if annos.len() == 0 {
        if closing_end(s, pos, '(') is Some {
            None
        } else {
            Some(pos)
        }
    } else {
        match closing_end(s, pos, '(') {
            Some(q) => match annotation_list_end(s, q, annos) {
                Some(q2) => closing_end(s, q2, ')'),
                None => None,
            },
            None => None,
        }
    }
}

/// The modifier word `w` at `pos`, which white space must follow.
pub open spec fn modifier_end(s: Seq<char>, pos: int, w: Seq<char>) -> Option<int> {
    if word_at(s, pos, w) && pos + w.len() < s.len() && is_ws(s[pos + w.len()]) {
        Some(pos + w.len())
    } else {
        None
    }
}

pub open spec fn requiredness_end(s: Seq<char>, pos: int, r: Requiredness) -> Option<int> {
    match r {
        Requiredness::Optional => modifier_end(s, pos, "optional"@),
        Requiredness::Required => modifier_end(s, pos, "required"@),
        Requiredness::Unspecified => if modifier_end(s, pos, "optional"@) is Some || modifier_end(
            s,
            pos,
            "required"@,
        ) is Some {
            None
        } else {
            Some(pos)
        },
    }
}

/// Where the field `f` (without its comments) ends when it stands at `pos`:
/// `id: [optional|required] type name [(annotations)]`.
pub open spec fn field_core_end(s: Seq<char>, pos: int, f: FieldDefinition) -> Option<int> {
    let p = ws_end(s, pos);
    let d = digit_end(s, p);
    if d > p && s.subrange(p, d) == f.id@ {
        match closing_end(s, d, ':') {
            Some(q) => match requiredness_end(s, ws_end(s, q), f.requiredness) {
                Some(p3) => match type_end(s, p3, f.field_type) {
                    Some(p4) => match named_end(s, p4, f.name@) {
                        Some(p5) => annotations_end(s, p5, f.annotations@),
                        None => None,
                    },
                    None => None,
                },
                None => None,
            },
            None => None,
        }
    } else {
        None
    }
}

/// Where the end of a field or member line ends: spaces and tabs, then the
/// `//` comment `inline` when there is one, which must then be there.
pub open spec fn tail_end(s: Seq<char>, pos: int, inline: Seq<Comment>) -> Option<int> {
    let h = horizontal_end(s, pos);
    if inline.len() == 0 {
        if word_at(s, h, "//"@) {
            None
        } else {
            Some(h)
        }
    } else if inline.len() == 1 && inline[0] is Line && comment_at(
        s,
        h,
        line_end(s, h + 2),
        inline[0],
    ) {
        Some(line_end(s, h + 2))
    } else {
        None
    }
}

/// `s[from..to]` is the field `f`: its first `n` comments lead, the rest
/// (none or one) follow on its line.
pub open spec fn field_at(s: Seq<char>, from: int, to: int, f: FieldDefinition) -> bool {
    exists|n: int, p: int|
        0 <= n <= f.comments@.len() && #[trigger] comments_at(s, from, p, f.comments@.take(n))
            && (field_core_end(s, p, f) matches Some(q) && tail_end(s, q, f.comments@.skip(n))
            == Some(to))
}

/// `s[from..to]` is the fields `fs`, in order.
pub open spec fn fields_at(s: Seq<char>, from: int, to: int, fs: Seq<FieldDefinition>) -> bool
    decreases fs.len(),
{
    if fs.len() == 0 {
        to == from
    } else {
        exists|mid: int|
            fields_at(s, from, mid, fs.drop_last()) && #[trigger] field_at(s, mid, to, fs.last())
    }
}

/// `s[from..to]` is comments and white space, then the character `close`.
pub open spec fn closed_at(s: Seq<char>, from: int, to: int, close: char) -> bool {
    exists|cs: Seq<Comment>, q: int|
        #[trigger] comments_at(s, from, q, cs) && 0 <= q < s.len() && s[q] == close && to == q + 1
}

/// `s[from..to]` is the fields `fs`, then the closing `close`.
pub open spec fn fields_closed_at(
    s: Seq<char>,
    from: int,
    to: int,
    fs: Seq<FieldDefinition>,
    close: char,
) -> bool {
    exists|mid: int| #[trigger] fields_at(s, from, mid, fs) && closed_at(s, mid, to, close)
}

/// Where the enum member `m` (without its comments) ends when it stands at
/// `pos`: `name [= integer]`.
pub open spec fn member_core_end(s: Seq<char>, pos: int, m: EnumMember) -> Option<int> {
    match named_end(s, pos, m.name@) {
        Some(e) => {
            let q = ws_end(s, e);
            let eq = 0 <= q < s.len() && s[q] == '=';
            match m.initializer {
                Some(v) => if eq {
                    let d0 = ws_end(s, q + 1);
                    let d = digit_end(s, d0);
                    if d > d0 && s.subrange(d0, d) == v@ {
                        Some(d)
                    } else {
                        None
                    }
                } else {
                    None
                },
                None => if eq {
                    None
                } else {
                    Some(e)
                },
            }
        },
        None => None,
    }
}

/// `s[from..to]` is the member `m`: its first `n` comments lead, the rest
/// (none or one) follow on its line.
pub open spec fn member_at(s: Seq<char>, from: int, to: int, m: EnumMember) -> bool {
    exists|n: int, p: int|
        0 <= n <= m.comments@.len() && #[trigger] comments_at(s, from, p, m.comments@.take(n))
            && (member_core_end(s, p, m) matches Some(q) && tail_end(s, q, m.comments@.skip(n))
            == Some(to))
}

pub open spec fn members_at(s: Seq<char>, from: int, to: int, ms: Seq<EnumMember>) -> bool
    decreases ms.len(),
{
    if ms.len() == 0 {
        to == from
    } else {
        exists|mid: int|
            members_at(s, from, mid, ms.drop_last()) && #[trigger] member_at(s, mid, to, ms.last())
    }
}

/// Where a function's head `type name (` ends.
pub open spec fn function_head_end(s: Seq<char>, pos: int, f: FunctionDefinition) -> Option<int> {
    match type_end(s, pos, f.return_type) {
        Some(q) => match named_end(s, q, f.name@) {
            Some(q1) => closing_end(s, q1, '('),
            None => None,
        },
        None => None,
    }
}

/// From `a`, just after `(`, `s` holds the parameters of `f`, `)` and its
/// annotations, ending at `to`.
pub open spec fn function_tail_at(s: Seq<char>, a: int, to: int, f: FunctionDefinition) -> bool {
    exists|b: int|
        #[trigger] fields_closed_at(s, a, b, f.fields@, ')') && match annotations_end(
            s,
            b,
            f.annotations@,
        ) {
            Some(c) => to == c,
            None => false,
        }
}

/// `s[from..to]` is the function `f`, with its leading comments:
/// `type name(fields) [(annotations)]`.
pub open spec fn function_at(s: Seq<char>, from: int, to: int, f: FunctionDefinition) -> bool {
    exists|p: int, a: int|
        #[trigger] comments_at(s, from, p, f.comments@) && function_head_end(s, p, f) == Some(a)
            && #[trigger] function_tail_at(s, a, to, f)
}

pub open spec fn functions_at(s: Seq<char>, from: int, to: int, fs: Seq<FunctionDefinition>) -> bool
    decreases fs.len(),
{
    if fs.len() == 0 {
        to == from
    } else {
        exists|mid: int|
            functions_at(s, from, mid, fs.drop_last()) && #[trigger] function_at(
                s,
                mid,
                to,
                fs.last(),
            )
    }
}

/// Where the keyword `w` ends at `pos`, when no identifier character follows.
pub open spec fn keyword_end(s: Seq<char>, pos: int, w: Seq<char>) -> Option<int> {
    if word_at(s, pos, w) && (pos + w.len() == s.len() || !is_ident_char(s[pos + w.len()])) {
        Some(pos + w.len())
    } else {
        None
    }
}

/// `s[from..to]` is a struct after its keyword: `name { fields }`.
pub open spec fn struct_body_at(s: Seq<char>, from: int, to: int, d: StructDefinition) -> bool {
    named_end(s, from, d.name@) matches Some(e) && closing_end(s, e, '{') matches Some(q)
        && fields_closed_at(s, q, to, d.fields@, '}')
}

/// `s[from..to]` is an enum after its keyword: `name { members }`.
pub open spec fn enum_body_at(s: Seq<char>, from: int, to: int, d: EnumDefinition) -> bool {
    match named_end(s, from, d.name@) {
        Some(e) => match closing_end(s, e, '{') {
            Some(q) => members_closed_at(s, q, to, d.members@, '}'),
            None => false,
        },
        None => false,
    }
}

/// `s[from..to]` is a service after its keyword: `name { functions }`.
/// A closed function list: functions, then comments and `close`.
pub open spec fn functions_closed_at(
    s: Seq<char>,
    from: int,
    to: int,
    fs: Seq<FunctionDefinition>,
    close: char,
) -> bool {
    exists|mid: int| #[trigger] functions_at(s, from, mid, fs) && closed_at(s, mid, to, close)
}

pub open spec fn service_body_at(s: Seq<char>, from: int, to: int, d: ServiceDefinition) -> bool {
    match named_end(s, from, d.name@) {
        Some(e) => match closing_end(s, e, '{') {
            Some(q) => functions_closed_at(s, q, to, d.functions@, '}'),
            None => false,
        },
        None => false,
    }
}

/// `s[from..to]` is the definition `d` after the comments `cs`; a struct,
/// an enum or a service keeps those comments, the others drop them.
pub open spec fn definition_body_at(
    s: Seq<char>,
    from: int,
    to: int,
    d: TopDefinition,
    cs: Seq<Comment>,
) -> bool {
    match d {
        TopDefinition::Namespace(n) => keyword_end(s, from, "namespace"@) matches Some(k)
            && named_end(s, k, n.scope@) matches Some(k1) && named_end(s, k1, n.name@) == Some(to),
        TopDefinition::Include(i) => keyword_end(s, from, "include"@) matches Some(k) && string_end(
            s,
            k,
            i.path@,
        ) == Some(to),
        TopDefinition::Struct(st) => st.comments@ == cs && (keyword_end(s, from, "struct"@) matches Some(k)
            && struct_body_at(s, k, to, st)),
        TopDefinition::Enum(en) => en.comments@ == cs && (keyword_end(s, from, "enum"@) matches Some(k)
            && enum_body_at(s, k, to, en)),
        TopDefinition::Service(sv) => sv.comments@ == cs && (keyword_end(s, from, "service"@) matches Some(k)
            && service_body_at(s, k, to, sv)),
    }
}

/// `s[from..to]` is the definition `d` with the comments before it.
pub open spec fn definition_at(s: Seq<char>, from: int, to: int, d: TopDefinition) -> bool {
    exists|cs: Seq<Comment>, p: int|
        #[trigger] comments_at(s, from, p, cs) && definition_body_at(s, p, to, d, cs)
}

pub open spec fn definitions_at(s: Seq<char>, from: int, to: int, ds: Seq<TopDefinition>) -> bool
    decreases ds.len(),
{
    if ds.len() == 0 {
        to == from
    } else {
        exists|mid: int|
            definitions_at(s, from, mid, ds.drop_last()) && #[trigger] definition_at(
                s,
                mid,
                to,
                ds.last(),
            )
    }
}

/// `s` is the document `d`: its definitions in order, then only comments
/// and white space.
pub open spec fn document_at(s: Seq<char>, d: ThriftDocument) -> bool {
    exists|mid: int, cs: Seq<Comment>|
        #[trigger] definitions_at(s, 0, mid, d.body@) && #[trigger] comments_at(
            s,
            mid,
            s.len() as int,
            cs,
        )
}

/// The error of a failed parse: what was expected, and where.
#[derive(Debug, Clone, PartialEq, Eq)]
pub struct ParseError {
    pub message: String,
    pub position: usize,
}

impl ParseError {
    /// The error as one line of text.
    pub fn describe(&self) -> (r: String)
        ensures
            r@ == self.message@ + " at character "@ + crate::text::decimal(self.position as nat),
    {
        let mut r = self.message.clone();
        r.append(" at character ");
        crate::text::push_decimal(&mut r, self.position);
        r
    }
}

fn error<T>(message: &str, position: usize) -> (r: Result<T, ParseError>)
    ensures
        r matches Err(e) && e.message@ == message@ && e.position == position,
{
    Err(ParseError { message: String::from_str(message), position })
}

fn is_ws_char(c: char) -> (r: bool)
    ensures
        r == is_ws(c),
{
    c == ' ' || c == '\t' || c == '\r' || c == '\n'
}

fn is_ident_ch(c: char) -> (r: bool)
    ensures
        r == is_ident_char(c),
{
    !is_ws_char(c) && c != '-' && c != '=' && c != '(' && c != ')' && c != '{' && c != '}' && c
        != '[' && c != ']' && c != '<' && c != '>' && c != ','
}

/// The end of the white space that starts at `pos`.
pub fn skip_ws(s: &Vec<char>, pos: usize) -> (r: usize)
    requires
        pos <= s@.len(),
    ensures
        run_end(s@, pos as int, r as int, |c: char| is_ws(c)),
        r == ws_end(s@, pos as int),
{
    let mut i = pos;
    while i < s.len() && is_ws_char(s[i])
        invariant
            pos <= i <= s@.len(),
            ws_end(s@, i as int) == ws_end(s@, pos as int),
            all_in(s@, pos as int, i as int, |c: char| is_ws(c)),
        decreases s@.len() - i,
    {
        i += 1;
    }
    i
}

/// The end of the spaces and tabs that start at `pos`.
fn skip_horizontal(s: &Vec<char>, pos: usize) -> (r: usize)
    requires
        pos <= s@.len(),
    ensures
        run_end(s@, pos as int, r as int, |c: char| is_horizontal_ws(c)),
        r == horizontal_end(s@, pos as int),
{
    let mut i = pos;
    while i < s.len() && (s[i] == ' ' || s[i] == '\t')
        invariant
            pos <= i <= s@.len(),
            horizontal_end(s@, i as int) == horizontal_end(s@, pos as int),
            all_in(s@, pos as int, i as int, |c: char| is_horizontal_ws(c)),
        decreases s@.len() - i,
    {
        i += 1;
    }
    i
}

/// The end of the identifier characters that start at `pos`.
pub fn identifier_end(s: &Vec<char>, pos: usize) -> (r: usize)
    requires
        pos <= s@.len(),
    ensures
        run_end(s@, pos as int, r as int, |c: char| is_ident_char(c)),
        forall|k: int| pos <= k < r ==> is_ident_char(#[trigger] s@[k]),
        r == ident_end(s@, pos as int),
{
    let mut i = pos;
    while i < s.len() && is_ident_ch(s[i])
        invariant
            pos <= i <= s@.len(),
            ident_end(s@, i as int) == ident_end(s@, pos as int),
            all_in(s@, pos as int, i as int, |c: char| is_ident_char(c)),
            forall|k: int| pos <= k < i ==> is_ident_char(#[trigger] s@[k]),
        decreases s@.len() - i,
    {
        i += 1;
    }
    i
}

/// The end of the digits that start at `pos`.
fn digits_end(s: &Vec<char>, pos: usize) -> (r: usize)
    requires
        pos <= s@.len(),
    ensures
        run_end(s@, pos as int, r as int, |c: char| is_digit(c)),
        forall|k: int| pos <= k < r ==> is_digit(#[trigger] s@[k]),
        r == digit_end(s@, pos as int),
{
    let mut i = pos;
    while i < s.len() && '0' <= s[i] && s[i] <= '9'
        invariant
            pos <= i <= s@.len(),
            digit_end(s@, i as int) == digit_end(s@, pos as int),
            all_in(s@, pos as int, i as int, |c: char| is_digit(c)),
            forall|k: int| pos <= k < i ==> is_digit(#[trigger] s@[k]),
        decreases s@.len() - i,
    {
        i += 1;
    }
    i
}

/// Whether `s` holds the word `w` at `pos`.
pub fn at_word(s: &Vec<char>, pos: usize, w: &str) -> (r: bool)
    requires
        pos <= s@.len(),
    ensures
        r == word_at(s@, pos as int, w@),
{
    let n = w.unicode_len();
    let len = s.len();
    if n > len - pos {
        return false;
    }
    let mut k: usize = 0;
    while k < n
        invariant
            n == w@.len(),
            len == s@.len(),
            pos <= s@.len(),
            pos + n <= s@.len(),
            k <= n,
            s@.subrange(pos as int, pos + k) == w@.take(k as int),
        decreases n - k,
    {
        if s[pos + k] != w.get_char(k) {
            assert(s@.subrange(pos as int, pos + n)[k as int] != w@[k as int]);
            return false;
        }
        k += 1;
        assert(s@.subrange(pos as int, pos + k) =~= w@.take(k as int));
    }
    assert(w@.take(n as int) =~= w@);
    true
}

/// The bounds of `s[from..to]` without white space at either end.
fn trim_bounds(s: &Vec<char>, from: usize, to: usize) -> (r: (usize, usize))
    requires
        from <= to <= s@.len(),
    ensures
        trimmed(s@, from as int, to as int, r.0 as int, r.1 as int),
        s@.subrange(r.0 as int, r.1 as int) == trim(s@.subrange(from as int, to as int)),
{
    let mut a = from;
    while a < to && is_ws_char(s[a])
        invariant
            from <= a <= to <= s@.len(),
            all_in(s@, from as int, a as int, |c: char| is_ws(c)),
            trim_start(s@.subrange(from as int, to as int)) == trim_start(
                s@.subrange(a as int, to as int),
            ),
        decreases to - a,
    {
        assert(s@.subrange(a as int, to as int).skip(1) =~= s@.subrange(a + 1, to as int));
        a += 1;
    }
    let mut b = to;
    while b > a && is_ws_char(s[b - 1])
        invariant
            a <= b <= to <= s@.len(),
            all_in(s@, b as int, to as int, |c: char| is_ws(c)),
            trim_end(s@.subrange(a as int, to as int)) == trim_end(s@.subrange(a as int, b as int)),
        decreases b,
    {
        assert(s@.subrange(a as int, b as int).drop_last() =~= s@.subrange(a as int, b - 1));
        b -= 1;
    }
    (a, b)
}

/// Where the modifier word `w` ends at `pos`, when white space follows it.
fn modifier(s: &Vec<char>, pos: usize, w: &str) -> (r: Option<usize>)
    requires
        pos <= s@.len(),
    ensures
        r matches Some(e) ==> modifier_end(s@, pos as int, w@) == Some(e as int) && e < s@.len(),
        r is None ==> modifier_end(s@, pos as int, w@) is None,
{
    match keyword(s, pos, w) {
        Some(e) => {
            if e < s.len() && is_ws_char(s[e]) {
                Some(e)
            } else {
                None
            }
        },
        None => None,
    }
}

/// Where the word `w` ends when `s` holds it at `pos`.
fn keyword(s: &Vec<char>, pos: usize, w: &str) -> (r: Option<usize>)
    requires
        pos <= s@.len(),
    ensures
        r matches Some(e) ==> word_at(s@, pos as int, w@) && e == pos + w@.len() && e <= s@.len(),
        r is None ==> !word_at(s@, pos as int, w@),
{
    let n = w.unicode_len();
    let len = s.len();
    if at_word(s, pos, w) {
        assert(pos + n <= len);
        Some(pos + n)
    } else {
        None
    }
}

/// Expects the character `c` after white space from `pos`; returns where it ends.
fn expect_char(s: &Vec<char>, pos: usize, c: char, message: &str) -> (r: Result<
    usize,
    ParseError,
>)
    requires
        pos <= s@.len(),
    ensures
        r matches Ok(e) ==> closing_end(s@, pos as int, c) == Some(e as int) && e <= s@.len(),
        r matches Ok(e) ==> pos < e,
        r is Err ==> closing_end(s@, pos as int, c) is None,
{
    let p = skip_ws(s, pos);
    if p < s.len() && s[p] == c {
        Ok(p + 1)
    } else {
        error(message, p)
    }
}

proof fn lemma_word_chars(s: Seq<char>, p: int, w: Seq<char>)
    requires
        word_at(s, p, w),
    ensures
        forall|i: int| 0 <= i < w.len() ==> s[p + i] == #[trigger] w[i],
{
    assert forall|i: int| 0 <= i < w.len() implies s[p + i] == #[trigger] w[i] by {
        assert(s.subrange(p, p + w.len())[i] == s[p + i]);
    }
}

/// The characters of whichever type keywords stand at `p`.
proof fn lemma_type_keyword_chars(s: Seq<char>, p: int)
    ensures
        word_at(s, p, "void"@) ==> s[p] == 'v',
        word_at(s, p, "string"@) ==> s[p] == 's',
        word_at(s, p, "i16"@) ==> s[p] == 'i' && s[p + 1] == '1',
        word_at(s, p, "i32"@) ==> s[p] == 'i' && s[p + 1] == '3',
        word_at(s, p, "i64"@) ==> s[p] == 'i' && s[p + 1] == '6',
        word_at(s, p, "double"@) ==> s[p] == 'd',
        word_at(s, p, "bool"@) ==> s[p] == 'b',
        word_at(s, p, "list<"@) ==> s[p] == 'l',
        word_at(s, p, "map<"@) ==> s[p] == 'm',
{
    reveal_strlit("void");
    reveal_strlit("string");
    reveal_strlit("i16");
    reveal_strlit("i32");
    reveal_strlit("i64");
    reveal_strlit("double");
    reveal_strlit("bool");
    reveal_strlit("list<");
    reveal_strlit("map<");
    if word_at(s, p, "void"@) {
        lemma_word_chars(s, p, "void"@);
        assert("void"@[0] == 'v');
    }
    if word_at(s, p, "string"@) {
        lemma_word_chars(s, p, "string"@);
        assert("string"@[0] == 's');
    }
    if word_at(s, p, "i16"@) {
        lemma_word_chars(s, p, "i16"@);
        assert("i16"@[0] == 'i' && "i16"@[1] == '1');
    }
    if word_at(s, p, "i32"@) {
        lemma_word_chars(s, p, "i32"@);
        assert("i32"@[0] == 'i' && "i32"@[1] == '3');
    }
    if word_at(s, p, "i64"@) {
        lemma_word_chars(s, p, "i64"@);
        assert("i64"@[0] == 'i' && "i64"@[1] == '6');
    }
    if word_at(s, p, "double"@) {
        lemma_word_chars(s, p, "double"@);
        assert("double"@[0] == 'd');
    }
    if word_at(s, p, "bool"@) {
        lemma_word_chars(s, p, "bool"@);
        assert("bool"@[0] == 'b');
    }
    if word_at(s, p, "list<"@) {
        lemma_word_chars(s, p, "list<"@);
        assert("list<"@[0] == 'l');
    }
    if word_at(s, p, "map<"@) {
        lemma_word_chars(s, p, "map<"@);
        assert("map<"@[0] == 'm');
    }
}

/// A type spelled at `pos` ends at one place only.
pub proof fn lemma_type_end_unique(s: Seq<char>, pos: int, t1: ThriftType, t2: ThriftType)
    requires
        type_end(s, pos, t1) is Some,
        type_end(s, pos, t2) is Some,
    ensures
        type_end(s, pos, t1) == type_end(s, pos, t2),
    decreases t1,
{
    let p = ws_end(s, pos);
    lemma_type_keyword_chars(s, p);
    match t1 {
        ThriftType::List(a) => match t2 {
            ThriftType::List(b) => {
                lemma_type_end_unique(s, p + "list<"@.len(), *a, *b);
            },
            _ => {},
        },
        ThriftType::MapOf(k1, v1) => match t2 {
            ThriftType::MapOf(k2, v2) => {
                lemma_type_end_unique(s, p + "map<"@.len(), *k1, *k2);
                let q = type_end(s, p + "map<"@.len(), *k1)->0;
                let q1 = closing_end(s, q, ',')->0;
                lemma_type_end_unique(s, q1, *v1, *v2);
            },
            _ => {},
        },
        _ => {},
    }
}

/// Parses a type at `pos`, after white space: a primitive keyword, `list<T>`,
/// `map<K, V>`, or a (dotted) name. It fails exactly when no type is spelled
/// there.
pub fn parse_type(s: &Vec<char>, pos: usize) -> (r: Result<(ThriftType, usize), ParseError>)
    requires
        pos <= s@.len(),
    ensures
        r matches Ok((t, e)) ==> type_end(s@, pos as int, t) == Some(e as int) && pos < e
            <= s@.len(),
        r is Err ==> forall|t: ThriftType| type_end(s@, pos as int, t) is None,
    decreases s@.len() - pos,
{
    let p = skip_ws(s, pos);
    proof {
        reveal_strlit("void");
        reveal_strlit("string");
        reveal_strlit("i16");
        reveal_strlit("i32");
        reveal_strlit("i64");
        reveal_strlit("double");
        reveal_strlit("bool");
        reveal_strlit("list<");
        reveal_strlit("map<");
        lemma_type_keyword_chars(s@, p as int);
    }
    if let Some(e) = keyword(s, p, "void") {
        return Ok((ThriftType::Void, e));
    }
    if let Some(e) = keyword(s, p, "string") {
        return Ok((ThriftType::String, e));
    }
    if let Some(e) = keyword(s, p, "i16") {
        return Ok((ThriftType::I16, e));
    }
    if let Some(e) = keyword(s, p, "i32") {
        return Ok((ThriftType::I32, e));
    }
    if let Some(e) = keyword(s, p, "i64") {
        return Ok((ThriftType::I64, e));
    }
    if let Some(e) = keyword(s, p, "double") {
        return Ok((ThriftType::Double, e));
    }
    if let Some(e) = keyword(s, p, "bool") {
        return Ok((ThriftType::Bool, e));
    }
    if let Some(e) = keyword(s, p, "list<") {
        match parse_type(s, e) {
            Err(err) => {
                assert forall|t: ThriftType| type_end(s@, pos as int, t) is None by {
                    if let ThriftType::List(x) = t {
                        assert(type_end(s@, e as int, *x) is None);
                    }
                }
                return Err(err);
            },
            Ok((inner, q)) => {
                match expect_char(s, q, '>', "expected `>` after list element type") {
                    Err(err) => {
                        assert forall|t: ThriftType| type_end(s@, pos as int, t) is None by {
                            if let ThriftType::List(x) = t {
                                if type_end(s@, e as int, *x) is Some {
                                    lemma_type_end_unique(s@, e as int, *x, inner);
                                }
                            }
                        }
                        return Err(err);
                    },
                    Ok(end) => {
                        let ghost b = Box::new(inner);
                        assert(type_end(s@, pos as int, ThriftType::List(b)) == Some(end as int));
                        return Ok((ThriftType::List(Box::new(inner)), end));
                    },
                }
            },
        }
    }
    if let Some(e) = keyword(s, p, "map<") {
        let (key, q) = match parse_type(s, e) {
            Err(err) => {
                assert forall|t: ThriftType| type_end(s@, pos as int, t) is None by {
                    if let ThriftType::MapOf(k, v) = t {
                        assert(type_end(s@, e as int, *k) is None);
                    }
                }
                return Err(err);
            },
            Ok(kq) => kq,
        };
        let q1 = match expect_char(s, q, ',', "expected `,` between map key and value types") {
            Err(err) => {
                assert forall|t: ThriftType| type_end(s@, pos as int, t) is None by {
                    if let ThriftType::MapOf(k, v) = t {
                        if type_end(s@, e as int, *k) is Some {
                            lemma_type_end_unique(s@, e as int, *k, key);
                        }
                    }
                }
                return Err(err);
            },
            Ok(q1) => q1,
        };
        let (value, q2) = match parse_type(s, q1) {
            Err(err) => {
                assert forall|t: ThriftType| type_end(s@, pos as int, t) is None by {
                    if let ThriftType::MapOf(k, v) = t {
                        if type_end(s@, e as int, *k) is Some {
                            lemma_type_end_unique(s@, e as int, *k, key);
                            assert(type_end(s@, q1 as int, *v) is None);
                        }
                    }
                }
                return Err(err);
            },
            Ok(vq) => vq,
        };
        match expect_char(s, q2, '>', "expected `>` after map value type") {
            Err(err) => {
                assert forall|t: ThriftType| type_end(s@, pos as int, t) is None by {
                    if let ThriftType::MapOf(k, v) = t {
                        if type_end(s@, e as int, *k) is Some {
                            lemma_type_end_unique(s@, e as int, *k, key);
                            if type_end(s@, q1 as int, *v) is Some {
                                lemma_type_end_unique(s@, q1 as int, *v, value);
                            }
                        }
                    }
                }
                return Err(err);
            },
            Ok(end) => {
                return Ok((ThriftType::MapOf(Box::new(key), Box::new(value)), end));
            },
        }
    }
    let e = identifier_end(s, p);
    if e == p {
        return error("expected a type", p);
    }
    let name = string_of(s, p, e);
    Ok((ThriftType::Named(name), e))
}

/// The non-empty run of identifier characters at `pos`, after white space.
fn parse_identifier(s: &Vec<char>, pos: usize, message: &str) -> (r: Result<
    (String, usize),
    ParseError,
>)
    requires
        pos <= s@.len(),
    ensures
        r matches Ok((id, e)) ==> pos < e <= s@.len() && e == ident_end(s@, ws_end(s@, pos as int))
            && id@ == s@.subrange(ws_end(s@, pos as int), e as int) && id@.len() > 0 && (forall|
            k: int,
        | 0 <= k < id@.len() ==> is_ident_char(#[trigger] id@[k])),
        r matches Ok((id, e)) ==> named_end(s@, pos as int, id@) == Some(e as int),
        r is Err <==> ident_end(s@, ws_end(s@, pos as int)) == ws_end(s@, pos as int),
{
    let p = skip_ws(s, pos);
    let e = identifier_end(s, p);
    if e == p {
        return error(message, p);
    }
    let id = string_of(s, p, e);
    assert forall|k: int| 0 <= k < id@.len() implies is_ident_char(#[trigger] id@[k]) by {
        assert(id@[k] == s@[p + k]);
    }
    Ok((id, e))
}

/// A string literal at `pos`, after white space: `"` up to the next `"`.
fn parse_string_literal(s: &Vec<char>, pos: usize) -> (r: Result<(String, usize), ParseError>)
    requires
        pos <= s@.len(),
    ensures
        r matches Ok((v, e)) ==> {
            let p = ws_end(s@, pos as int);
            &&& pos < e <= s@.len()
            &&& s@[p] == '"' && s@[e - 1] == '"'
            &&& v@ == s@.subrange(p + 1, e - 1)
            &&& !v@.contains('"')
            &&& string_end(s@, pos as int, v@) == Some(e as int)
        },
        r is Err ==> forall|v: Seq<char>| #[trigger] string_end(s@, pos as int, v) is None,
{
    let p = skip_ws(s, pos);
    if !(p < s.len() && s[p] == '"') {
        return error("expected a string literal", p);
    }
    let mut k = p + 1;
    while k < s.len() && s[k] != '"'
        invariant
            p < k <= s@.len(),
            forall|j: int| p < j < k ==> s@[j] != '"',
        decreases s@.len() - k,
    {
        k += 1;
    }
    if k == s.len() {
        assert forall|v: Seq<char>| #[trigger] string_end(s@, pos as int, v) is None by {
            if string_end(s@, pos as int, v) is Some {
                assert(s@[p + 1 + v.len()] == '"');
            }
        }
        return error("unterminated string literal", p);
    }
    let v = string_of(s, p + 1, k);
    assert(!v@.contains('"')) by {
        if v@.contains('"') {
            let j = choose|j: int| 0 <= j < v@.len() && v@[j] == '"';
            assert(s@[p + 1 + j] == '"');
        }
    }
    assert(s@.subrange(p + 1, p + 1 + v@.len()) =~= v@);
    Ok((v, k + 1))
}

/// A `//` comment at `pos`: the rest of the line, trimmed.
fn parse_line_comment(s: &Vec<char>, pos: usize) -> (r: (String, usize))
    requires
        word_at(s@, pos as int, "//"@),
    ensures
        comment_at(s@, pos as int, r.1 as int, Comment::Line(r.0)),
        pos + 2 <= r.1 <= s@.len(),
{
    proof {
        reveal_strlit("//");
    }
    let len = s.len();
    assert(pos + 2 <= len);
    let start = pos + 2;
    let mut e = start;
    while e < s.len() && s[e] != '\n'
        invariant
            start <= e <= s@.len(),
            line_end(s@, start as int) == line_end(s@, e as int),
        decreases s@.len() - e,
    {
        e += 1;
    }
    let (a, b) = trim_bounds(s, start, e);
    (string_of(s, a, b), e)
}

/// A `/* */` comment at `pos`: its lines, each trimmed.
fn parse_block_comment(s: &Vec<char>, pos: usize) -> (r: Result<(Vec<String>, usize), ParseError>)
    requires
        word_at(s@, pos as int, "/*"@),
    ensures
        r matches Ok((lines, e)) ==> pos + 4 <= e <= s@.len() && comment_at(
            s@,
            pos as int,
            e as int,
            Comment::Block(lines),
        ),
        r is Err ==> block_close(s@, pos + 2) is None,
{
    proof {
        reveal_strlit("/*");
    }
    let len = s.len();
    assert(pos + 2 <= len);
    let start = pos + 2;
    let mut k = start;
    while k < len - 1 && !(s[k] == '*' && s[k + 1] == '/')
        invariant
            len == s@.len(),
            len >= 2,
            start <= k <= s@.len(),
            block_close(s@, start as int) == block_close(s@, k as int),
        decreases s@.len() - k,
    {
        k += 1;
    }
    if k >= len - 1 {
        return error("unterminated block comment", pos);
    }
    let mut lines: Vec<String> = Vec::new();
    let mut line_start = start;
    let mut i = start;
    while i < k
        invariant
            start <= line_start <= i <= k < s@.len(),
            views(lines@) + lines_from(s@, line_start as int, i as int, k as int) == lines_from(
                s@,
                start as int,
                start as int,
                k as int,
            ),
        decreases k - i,
    {
        if s[i] == '\n' {
            let (a, b) = trim_bounds(s, line_start, i);
            let ghost prev = views(lines@);
            lines.push(string_of(s, a, b));
            assert(views(lines@) =~= prev + seq![trim(s@.subrange(line_start as int, i as int))]);
            line_start = i + 1;
        }
        i += 1;
    }
    let (a, b) = trim_bounds(s, line_start, k);
    let ghost prev = views(lines@);
    lines.push(string_of(s, a, b));
    assert(views(lines@) =~= prev + seq![trim(s@.subrange(line_start as int, k as int))]);
    Ok((lines, k + 2))
}

/// A comment at `m` starts with `//` or `/*`.
proof fn lemma_comment_start(s: Seq<char>, m: int, e: int, c: Comment)
    requires
        comment_at(s, m, e, c),
    ensures
        word_at(s, m, "//"@) || word_at(s, m, "/*"@),
        0 <= m && m + 1 < s.len() && s[m] == '/',
        c is Line ==> s[m + 1] == '/',
        c is Block ==> s[m + 1] == '*',
{
    reveal_strlit("//");
    reveal_strlit("/*");
    if c is Line {
        lemma_word_chars(s, m, "//"@);
        assert("//"@[0] == '/' && "//"@[1] == '/');
    } else {
        lemma_word_chars(s, m, "/*"@);
        assert("/*"@[0] == '/' && "/*"@[1] == '*');
    }
}

proof fn lemma_comment_end_unique(s: Seq<char>, m: int, e1: int, c1: Comment, e2: int, c2: Comment)
    requires
        comment_at(s, m, e1, c1),
        comment_at(s, m, e2, c2),
    ensures
        e1 == e2,
{
    lemma_comment_start(s, m, e1, c1);
    lemma_comment_start(s, m, e2, c2);
}

/// Every proper prefix of a comment run ends where the next comment starts.
proof fn lemma_comments_run_prefix(s: Seq<char>, from: int, to: int, cs: Seq<Comment>, k: int)
    requires
        comments_run(s, from, to, cs),
        0 <= k < cs.len(),
    ensures
        exists|m: int, e: int|
            comments_run(s, from, m, cs.take(k)) && #[trigger] comment_at(s, m, e, cs[k]),
    decreases cs.len(),
{
    let (mid, e) = choose|mid: int, e: int|
        comments_run(s, from, mid, cs.drop_last()) && #[trigger] comment_at(s, mid, e, cs.last())
            && to == ws_end(s, e);
    if k == cs.len() - 1 {
        assert(cs.take(k) =~= cs.drop_last());
        assert(comment_at(s, mid, e, cs[k]));
    } else {
        lemma_comments_run_prefix(s, from, mid, cs.drop_last(), k);
        assert(cs.drop_last().take(k) =~= cs.take(k));
        assert(cs.drop_last()[k] == cs[k]);
    }
}

/// Two comment runs of one length from one place end at one place.
proof fn lemma_comments_run_unique(
    s: Seq<char>,
    from: int,
    t1: int,
    c1: Seq<Comment>,
    t2: int,
    c2: Seq<Comment>,
)
    requires
        comments_run(s, from, t1, c1),
        comments_run(s, from, t2, c2),
        c1.len() == c2.len(),
    ensures
        t1 == t2,
    decreases c1.len(),
{
    if c1.len() > 0 {
        let (m1, e1) = choose|mid: int, e: int|
            comments_run(s, from, mid, c1.drop_last()) && #[trigger] comment_at(s, mid, e, c1.last())
                && t1 == ws_end(s, e);
        let (m2, e2) = choose|mid: int, e: int|
            comments_run(s, from, mid, c2.drop_last()) && #[trigger] comment_at(s, mid, e, c2.last())
                && t2 == ws_end(s, e);
        lemma_comments_run_unique(s, from, m1, c1.drop_last(), m2, c2.drop_last());
        lemma_comment_end_unique(s, m1, e1, c1.last(), e2, c2.last());
    }
}

/// The comments before something else end at one place, and their number
/// is fixed.
pub proof fn lemma_comments_unique(
    s: Seq<char>,
    from: int,
    t1: int,
    c1: Seq<Comment>,
    t2: int,
    c2: Seq<Comment>,
)
    requires
        comments_at(s, from, t1, c1),
        comments_at(s, from, t2, c2),
    ensures
        t1 == t2,
        c1.len() == c2.len(),
{
    if c1.len() < c2.len() {
        lemma_comments_run_prefix(s, from, t2, c2, c1.len() as int);
        let (m, e) = choose|m: int, e: int|
            comments_run(s, from, m, c2.take(c1.len() as int)) && #[trigger] comment_at(
                s,
                m,
                e,
                c2[c1.len() as int],
            );
        lemma_comments_run_unique(s, from, t1, c1, m, c2.take(c1.len() as int));
        lemma_comment_start(s, m, e, c2[c1.len() as int]);
    } else if c2.len() < c1.len() {
        lemma_comments_run_prefix(s, from, t1, c1, c2.len() as int);
        let (m, e) = choose|m: int, e: int|
            comments_run(s, from, m, c1.take(c2.len() as int)) && #[trigger] comment_at(
                s,
                m,
                e,
                c1[c2.len() as int],
            );
        lemma_comments_run_unique(s, from, t2, c2, m, c1.take(c2.len() as int));
        lemma_comment_start(s, m, e, c1[c2.len() as int]);
    } else {
        lemma_comments_run_unique(s, from, t1, c1, t2, c2);
    }
}

/// Where a `/*` at `p` is never closed, after a run of comments that ends at
/// `p`, no run of comments starts at `from`.
proof fn lemma_comments_stuck(s: Seq<char>, from: int, p: int, cs: Seq<Comment>)
    requires
        comments_run(s, from, p, cs),
        word_at(s, p, "/*"@),
        block_close(s, p + 2) is None,
    ensures
        forall|t: int, c: Seq<Comment>| !#[trigger] comments_at(s, from, t, c),
{
    reveal_strlit("/*");
    lemma_word_chars(s, p, "/*"@);
    assert("/*"@[1] == '*');
    assert forall|t: int, c: Seq<Comment>| !#[trigger] comments_at(s, from, t, c) by {
        if comments_at(s, from, t, c) {
            let k = cs.len() as int;
            if c.len() < k {
                lemma_comments_run_prefix(s, from, p, cs, c.len() as int);
                let (m, e) = choose|m: int, e: int|
                    comments_run(s, from, m, cs.take(c.len() as int)) && #[trigger] comment_at(
                        s,
                        m,
                        e,
                        cs[c.len() as int],
                    );
                lemma_comments_run_unique(s, from, t, c, m, cs.take(c.len() as int));
                lemma_comment_start(s, m, e, cs[c.len() as int]);
            } else if c.len() == k {
                lemma_comments_run_unique(s, from, t, c, p, cs);
            } else {
                lemma_comments_run_prefix(s, from, t, c, k);
                let (m, e) = choose|m: int, e: int|
                    comments_run(s, from, m, c.take(k)) && #[trigger] comment_at(s, m, e, c[k]);
                lemma_comments_run_unique(s, from, p, cs, m, c.take(k));
                lemma_comment_start(s, m, e, c[k]);
            }
        }
    }
}

/// The comments (and white space) that start at `pos`, in source order.
fn parse_comments(s: &Vec<char>, pos: usize) -> (r: Result<(Vec<Comment>, usize), ParseError>)
    requires
        pos <= s@.len(),
    ensures
        r matches Ok((cs, e)) ==> pos <= e <= s@.len() && comments_at(
            s@,
            pos as int,
            e as int,
            cs@,
        ),
        ws_end(s@, pos as int) == s@.len() ==> (r matches Ok((cs, e)) && cs@.len() == 0 && e
            == s@.len()),
        r is Err ==> forall|t: int, c: Seq<Comment>| !#[trigger] comments_at(s@, pos as int, t, c),
{
    let mut comments: Vec<Comment> = Vec::new();
    let mut p = skip_ws(s, pos);
    proof {
        reveal_strlit("//");
        reveal_strlit("/*");
    }
    while p < s.len()
        invariant
            pos <= p <= s@.len(),
            "//"@.len() == 2 && "/*"@.len() == 2,
            comments_run(s@, pos as int, p as int, comments@),
            ws_end(s@, pos as int) == s@.len() ==> comments@.len() == 0 && p == s@.len(),
        ensures
            pos <= p <= s@.len(),
            comments_run(s@, pos as int, p as int, comments@),
            ws_end(s@, pos as int) == s@.len() ==> comments@.len() == 0 && p == s@.len(),
            !word_at(s@, p as int, "//"@) && !word_at(s@, p as int, "/*"@),
        decreases s@.len() - p,
    {
        let ghost prev = comments@;
        if at_word(s, p, "//") {
            let (text, e) = parse_line_comment(s, p);
            comments.push(Comment::Line(text));
            let q = skip_ws(s, e);
            assert(comments@.drop_last() =~= prev);
            assert(comment_at(s@, p as int, e as int, comments@.last()));
            p = q;
        } else if at_word(s, p, "/*") {
            let (lines, e) = match parse_block_comment(s, p) {
                Ok(le) => le,
                Err(err) => {
                    proof {
                        lemma_comments_stuck(s@, pos as int, p as int, comments@);
                    }
                    return Err(err);
                },
            };
            comments.push(Comment::Block(lines));
            let q = skip_ws(s, e);
            assert(comments@.drop_last() =~= prev);
            assert(comment_at(s@, p as int, e as int, comments@.last()));
            p = q;
        } else {
            break;
        }
    }
    Ok((comments, p))
}

proof fn lemma_string_end_unique(s: Seq<char>, pos: int, v1: Seq<char>, v2: Seq<char>)
    requires
        string_end(s, pos, v1) is Some,
        string_end(s, pos, v2) is Some,
    ensures
        v1 == v2,
{
    let p = ws_end(s, pos);
    lemma_word_chars(s, p + 1, v1);
    lemma_word_chars(s, p + 1, v2);
    if v1.len() < v2.len() {
        assert(v2[v1.len() as int] == s[p + 1 + v1.len()]);
        assert(v2.contains('"'));
    } else if v2.len() < v1.len() {
        assert(v1[v2.len() as int] == s[p + 1 + v2.len()]);
        assert(v1.contains('"'));
    }
    assert(v1 =~= v2);
}

proof fn lemma_annotation_end_unique(s: Seq<char>, pos: int, a1: Annotation, a2: Annotation)
    requires
        annotation_end(s, pos, a1) is Some,
        annotation_end(s, pos, a2) is Some,
    ensures
        annotation_end(s, pos, a1) == annotation_end(s, pos, a2),
{
    let e = named_end(s, pos, a1.name@)->0;
    let q = closing_end(s, e, '=')->0;
    lemma_string_end_unique(s, q, a1.value@, a2.value@);
}

/// Every shorter prefix of an annotation list ends where a `,` and the next
/// annotation follow.
proof fn lemma_annotation_list_prefix(s: Seq<char>, p0: int, b: Seq<Annotation>, k: int)
    requires
        1 <= k < b.len(),
        annotation_list_end(s, p0, b) is Some,
    ensures
        annotation_list_end(s, p0, b.take(k)) matches Some(q) && closing_end(s, q, ',') matches Some(
            q1,
        ) && annotation_end(s, q1, b[k]) is Some,
    decreases b.len(),
{
    assert(b.drop_last().take(k) =~= b.take(k));
    if k < b.len() - 1 {
        lemma_annotation_list_prefix(s, p0, b.drop_last(), k);
    } else {
        assert(b.drop_last() =~= b.take(k));
    }
}

/// Two annotation lists read from one place end at the same place as far as
/// the shorter goes.
proof fn lemma_annotation_list_align(s: Seq<char>, p0: int, a: Seq<Annotation>, b: Seq<Annotation>)
    requires
        1 <= a.len() <= b.len(),
        annotation_list_end(s, p0, a) is Some,
        annotation_list_end(s, p0, b) is Some,
    ensures
        annotation_list_end(s, p0, b.take(a.len() as int)) == annotation_list_end(s, p0, a),
    decreases a.len(),
{
    let n = a.len() as int;
    if n < b.len() {
        lemma_annotation_list_prefix(s, p0, b, n);
    } else {
        assert(b.take(n) =~= b);
    }
    let bt = b.take(n);
    if n == 1 {
        lemma_annotation_end_unique(s, p0, a[0], bt[0]);
    } else {
        lemma_annotation_list_prefix(s, p0, bt, n - 1);
        assert(bt.take(n - 1) =~= b.take(n - 1));
        assert(bt.drop_last() =~= bt.take(n - 1));
        lemma_annotation_list_align(s, p0, a.drop_last(), b);
        assert(b.take(n - 1) =~= b.take((a.drop_last().len()) as int));
        let q = annotation_list_end(s, p0, a.drop_last())->0;
        let q1 = closing_end(s, q, ',')->0;
        lemma_annotation_end_unique(s, q1, a.last(), bt.last());
    }
}

/// Where the annotation reading stops without a list: either no annotation
/// stands where one must (`at_item`), or after the annotations `a` neither
/// `,` nor `)` follows. Then no annotation list stands at `pos`.
proof fn lemma_annotations_stuck(
    s: Seq<char>,
    pos: int,
    p0: int,
    a: Seq<Annotation>,
    p: int,
    at_item: bool,
)
    requires
        closing_end(s, pos, '(') == Some(p0),
        a.len() == 0 ==> at_item && p == p0,
        a.len() > 0 ==> (annotation_list_end(s, p0, a) matches Some(q) && if at_item {
            closing_end(s, q, ',') == Some(p)
        } else {
            closing_end(s, q, ',') is None && closing_end(s, q, ')') is None
        }),
        at_item ==> forall|x: Annotation| #[trigger] annotation_end(s, p, x) is None,
    ensures
        forall|b: Seq<Annotation>| b.len() > 0 ==> #[trigger] annotations_end(s, pos, b) is None,
{
    assert forall|b: Seq<Annotation>| b.len() > 0 implies #[trigger] annotations_end(
        s,
        pos,
        b,
    ) is None by {
        if annotations_end(s, pos, b) is Some {
            let k = a.len() as int;
            if k == 0 {
                if b.len() > 1 {
                    lemma_annotation_list_prefix(s, p0, b, 1);
                    assert(b.take(1)[0] == b[0]);
                }
                assert(annotation_end(s, p0, b[0]) is Some);
            } else if b.len() <= k {
                let m = b.len() as int;
                lemma_annotation_list_align(s, p0, b, a);
                if m < k {
                    lemma_annotation_list_prefix(s, p0, a, m);
                } else {
                    assert(a.take(m) =~= a);
                }
            } else {
                lemma_annotation_list_align(s, p0, a, b);
                lemma_annotation_list_prefix(s, p0, b, k);
            }
        }
    }
}

/// One annotation `name = "value"` at `pos`; it fails exactly when none
/// stands there.
fn parse_annotation(s: &Vec<char>, pos: usize) -> (r: Result<(Annotation, usize), ParseError>)
    requires
        pos <= s@.len(),
    ensures
        r matches Ok((a, e)) ==> annotation_end(s@, pos as int, a) == Some(e as int) && pos < e
            <= s@.len(),
        r is Err ==> forall|x: Annotation| #[trigger] annotation_end(s@, pos as int, x) is None,
{
    let (name, q) = match parse_identifier(s, pos, "expected an annotation name") {
        Ok(nq) => nq,
        Err(err) => {
            return Err(err);
        },
    };
    let q1 = match expect_char(s, q, '=', "expected `=` in annotation") {
        Ok(q1) => q1,
        Err(err) => {
            return Err(err);
        },
    };
    let (value, q2) = match parse_string_literal(s, q1) {
        Ok(vq) => vq,
        Err(err) => {
            assert forall|x: Annotation| #[trigger] annotation_end(s@, pos as int, x) is None by {
                assert(string_end(s@, q1 as int, x.value@) is None);
            }
            return Err(err);
        },
    };
    Ok((Annotation { name, value }, q2))
}

/// `( name = "value", ... )` at `pos`, after white space; it fails exactly
/// when no such list stands there.
fn parse_annotations(s: &Vec<char>, pos: usize) -> (r: Result<(Vec<Annotation>, usize), ParseError>)
    requires
        pos <= s@.len(),
    ensures
        r matches Ok((annos, e)) ==> pos < e <= s@.len() && annos@.len() > 0 && annotations_end(
            s@,
            pos as int,
            annos@,
        ) == Some(e as int),
        r is Err ==> forall|b: Seq<Annotation>|
            b.len() > 0 ==> #[trigger] annotations_end(s@, pos as int, b) is None,
{
    let p0 = match expect_char(s, pos, '(', "expected `(`") {
        Ok(p0) => p0,
        Err(err) => {
            return Err(err);
        },
    };
    let mut p = p0;
    let mut annos: Vec<Annotation> = Vec::new();
    loop
        invariant
            pos < p0 <= p <= s@.len(),
            closing_end(s@, pos as int, '(') == Some(p0 as int),
            annos@.len() == 0 ==> p == p0,
            annos@.len() > 0 ==> (annotation_list_end(s@, p0 as int, annos@) matches Some(q)
                && closing_end(s@, q, ',') == Some(p as int)),
        decreases s@.len() - p,
    {
        let (a, q2) = match parse_annotation(s, p) {
            Ok(aq) => aq,
            Err(err) => {
                proof {
                    lemma_annotations_stuck(s@, pos as int, p0 as int, annos@, p as int, true);
                }
                return Err(err);
            },
        };
        let ghost prev = annos@;
        annos.push(a);
        assert(annos@.drop_last() =~= prev);
        assert(annotation_list_end(s@, p0 as int, annos@) == Some(q2 as int)) by {
            if prev.len() == 0 {
                assert(annos@[0] == annos@.last());
            }
        }
        let q3 = skip_ws(s, q2);
        if q3 < s.len() && s[q3] == ',' {
            p = q3 + 1;
        } else {
            match expect_char(s, q3, ')', "expected `)` after annotations") {
                Ok(e) => {
                    return Ok((annos, e));
                },
                Err(err) => {
                    proof {
                        lemma_annotations_stuck(s@, pos as int, p0 as int, annos@, q3 as int, false);
                    }
                    return Err(err);
                },
            }
        }
    }
}

/// Optional annotations at `pos`: present when `(` follows after white space.
/// It fails exactly when no annotation list, not even an empty one, stands
/// there.
fn parse_optional_annotations(s: &Vec<char>, pos: usize) -> (r: Result<
    (Vec<Annotation>, usize),
    ParseError,
>)
    requires
        pos <= s@.len(),
    ensures
        r matches Ok((annos, e)) ==> pos <= e <= s@.len() && annotations_end(
            s@,
            pos as int,
            annos@,
        ) == Some(e as int),
        r is Err ==> forall|b: Seq<Annotation>| #[trigger] annotations_end(s@, pos as int, b) is None,
{
    let p = skip_ws(s, pos);
    if p < s.len() && s[p] == '(' {
        parse_annotations(s, pos)
    } else {
        Ok((Vec::new(), pos))
    }
}

/// After a field or member: an optional `//` comment on the same line,
/// which joins `comments`.
fn parse_line_tail(s: &Vec<char>, pos: usize, comments: &mut Vec<Comment>) -> (r: usize)
    requires
        pos <= s@.len(),
    ensures
        pos <= r <= s@.len(),
        old(comments)@.len() <= final(comments)@.len(),
        final(comments)@.take(old(comments)@.len() as int) == old(comments)@,
        tail_end(s@, pos as int, final(comments)@.skip(old(comments)@.len() as int)) == Some(
            r as int,
        ),
{
    let p = skip_horizontal(s, pos);
    if at_word(s, p, "//") {
        let (text, e) = parse_line_comment(s, p);
        comments.push(Comment::Line(text));
        assert(comments@.take(old(comments)@.len() as int) =~= old(comments)@);
        assert(comments@.skip(old(comments)@.len() as int) =~= seq![Comment::Line(text)]);
        proof {
            reveal_strlit("//");
        }
        e
    } else {
        assert(comments@.take(old(comments)@.len() as int) =~= old(comments)@);
        assert(comments@.skip(old(comments)@.len() as int) =~= Seq::<Comment>::empty());
        p
    }
}

proof fn lemma_requiredness_unique(s: Seq<char>, p: int, r1: Requiredness, r2: Requiredness)
    requires
        requiredness_end(s, p, r1) is Some,
        requiredness_end(s, p, r2) is Some,
    ensures
        requiredness_end(s, p, r1) == requiredness_end(s, p, r2),
{
    reveal_strlit("optional");
    reveal_strlit("required");
    if modifier_end(s, p, "optional"@) is Some && modifier_end(s, p, "required"@) is Some {
        lemma_word_chars(s, p, "optional"@);
        lemma_word_chars(s, p, "required"@);
        assert("optional"@[0] == 'o' && "required"@[0] == 'r');
        assert(false);
    }
}

/// A field: `id: [optional|required] type name [(annotations)]`, with the
/// leading comments already read. It fails exactly when no field stands at
/// `pos`.
pub fn parse_field(s: &Vec<char>, pos: usize, comments: Vec<Comment>) -> (r: Result<
    (FieldDefinition, usize),
    ParseError,
>)
    requires
        pos <= s@.len(),
    ensures
        r matches Ok((f, e)) ==> {
            &&& pos < e <= s@.len()
            &&& comments@.len() <= f.comments@.len()
            &&& f.comments@.take(comments@.len() as int) == comments@
            &&& field_core_end(s@, pos as int, f) matches Some(q)
            &&& tail_end(s@, q, f.comments@.skip(comments@.len() as int)) == Some(e as int)
        },
        r is Err ==> forall|f: FieldDefinition| #[trigger] field_core_end(s@, pos as int, f) is None,
{
    let p = skip_ws(s, pos);
    let d = digits_end(s, p);
    if d == p {
        return error("expected a field id", p);
    }
    let id = string_of(s, p, d);
    let p1 = match expect_char(s, d, ':', "expected `:` after field id") {
        Ok(p1) => p1,
        Err(err) => {
            return Err(err);
        },
    };
    let p2 = skip_ws(s, p1);
    proof {
        reveal_strlit("optional");
        reveal_strlit("required");
    }
    let optional = modifier(s, p2, "optional");
    let required = modifier(s, p2, "required");
    let (requiredness, p3) = match optional {
        Some(e) => (Requiredness::Optional, e),
        None => match required {
            Some(e) => (Requiredness::Required, e),
            None => (Requiredness::Unspecified, p2),
        },
    };
    assert(requiredness_end(s@, p2 as int, requiredness) == Some(p3 as int));
    let (field_type, p4) = match parse_type(s, p3) {
        Ok(tp) => tp,
        Err(err) => {
            assert forall|f: FieldDefinition| #[trigger] field_core_end(s@, pos as int, f) is None by {
                if requiredness_end(s@, p2 as int, f.requiredness) is Some {
                    lemma_requiredness_unique(s@, p2 as int, f.requiredness, requiredness);
                }
            }
            return Err(err);
        },
    };
    let (name, p5) = match parse_identifier(s, p4, "expected a field name") {
        Ok(np) => np,
        Err(err) => {
            assert forall|f: FieldDefinition| #[trigger] field_core_end(s@, pos as int, f) is None by {
                if requiredness_end(s@, p2 as int, f.requiredness) is Some {
                    lemma_requiredness_unique(s@, p2 as int, f.requiredness, requiredness);
                    if type_end(s@, p3 as int, f.field_type) is Some {
                        lemma_type_end_unique(s@, p3 as int, f.field_type, field_type);
                    }
                }
            }
            return Err(err);
        },
    };
    let (annotations, p6) = match parse_optional_annotations(s, p5) {
        Ok(ap) => ap,
        Err(err) => {
            assert forall|f: FieldDefinition| #[trigger] field_core_end(s@, pos as int, f) is None by {
                if requiredness_end(s@, p2 as int, f.requiredness) is Some {
                    lemma_requiredness_unique(s@, p2 as int, f.requiredness, requiredness);
                    if type_end(s@, p3 as int, f.field_type) is Some {
                        lemma_type_end_unique(s@, p3 as int, f.field_type, field_type);
                        assert(annotations_end(s@, p5 as int, f.annotations@) is None);
                    }
                }
            }
            return Err(err);
        },
    };
    let mut comments = comments;
    let e = parse_line_tail(s, p6, &mut comments);
    let f = FieldDefinition { id, requiredness, field_type, name, annotations, comments };
    assert(field_core_end(s@, pos as int, f) == Some(p6 as int));
    Ok((f, e))
}

proof fn lemma_annotations_end_unique(s: Seq<char>, pos: int, a1: Seq<Annotation>, a2: Seq<Annotation>)
    requires
        annotations_end(s, pos, a1) is Some,
        annotations_end(s, pos, a2) is Some,
    ensures
        annotations_end(s, pos, a1) == annotations_end(s, pos, a2),
{
    if a1.len() > 0 && a2.len() > 0 {
        let q = closing_end(s, pos, '(')->0;
        if a1.len() < a2.len() {
            lemma_annotation_list_align(s, q, a1, a2);
            lemma_annotation_list_prefix(s, q, a2, a1.len() as int);
        } else if a2.len() < a1.len() {
            lemma_annotation_list_align(s, q, a2, a1);
            lemma_annotation_list_prefix(s, q, a1, a2.len() as int);
        } else {
            lemma_annotation_list_align(s, q, a1, a2);
            assert(a2.take(a1.len() as int) =~= a2);
        }
    }
}

proof fn lemma_field_core_end_unique(s: Seq<char>, pos: int, f1: FieldDefinition, f2: FieldDefinition)
    requires
        field_core_end(s, pos, f1) is Some,
        field_core_end(s, pos, f2) is Some,
    ensures
        field_core_end(s, pos, f1) == field_core_end(s, pos, f2),
{
    let p = ws_end(s, pos);
    let d = digit_end(s, p);
    let q = closing_end(s, d, ':')->0;
    lemma_requiredness_unique(s, ws_end(s, q), f1.requiredness, f2.requiredness);
    let p3 = requiredness_end(s, ws_end(s, q), f1.requiredness)->0;
    lemma_type_end_unique(s, p3, f1.field_type, f2.field_type);
    let p4 = type_end(s, p3, f1.field_type)->0;
    let p5 = named_end(s, p4, f1.name@)->0;
    lemma_annotations_end_unique(s, p5, f1.annotations@, f2.annotations@);
}

proof fn lemma_tail_end_unique(s: Seq<char>, pos: int, i1: Seq<Comment>, i2: Seq<Comment>)
    requires
        tail_end(s, pos, i1) is Some,
        tail_end(s, pos, i2) is Some,
    ensures
        tail_end(s, pos, i1) == tail_end(s, pos, i2),
{
    let h = horizontal_end(s, pos);
    if i1.len() == 1 {
        lemma_comment_start(s, h, line_end(s, h + 2), i1[0]);
    }
    if i2.len() == 1 {
        lemma_comment_start(s, h, line_end(s, h + 2), i2[0]);
    }
}

/// A field read from one place ends at one place.
pub proof fn lemma_field_end_unique(s: Seq<char>, from: int, e1: int, f1: FieldDefinition, e2: int, f2: FieldDefinition)
    requires
        field_at(s, from, e1, f1),
        field_at(s, from, e2, f2),
    ensures
        e1 == e2,
{
    let (n1, p1) = choose|n: int, p: int|
        0 <= n <= f1.comments@.len() && #[trigger] comments_at(s, from, p, f1.comments@.take(n))
            && (field_core_end(s, p, f1) matches Some(q) && tail_end(s, q, f1.comments@.skip(n))
            == Some(e1));
    let (n2, p2) = choose|n: int, p: int|
        0 <= n <= f2.comments@.len() && #[trigger] comments_at(s, from, p, f2.comments@.take(n))
            && (field_core_end(s, p, f2) matches Some(q) && tail_end(s, q, f2.comments@.skip(n))
            == Some(e2));
    lemma_comments_unique(s, from, p1, f1.comments@.take(n1), p2, f2.comments@.take(n2));
    lemma_field_core_end_unique(s, p1, f1, f2);
    let q = field_core_end(s, p1, f1)->0;
    lemma_tail_end_unique(s, q, f1.comments@.skip(n1), f2.comments@.skip(n2));
}

proof fn lemma_fields_prefix(s: Seq<char>, from: int, to: int, fs: Seq<FieldDefinition>, k: int)
    requires
        fields_at(s, from, to, fs),
        0 <= k < fs.len(),
    ensures
        exists|m: int, e: int| fields_at(s, from, m, fs.take(k)) && #[trigger] field_at(s, m, e, fs[k]),
    decreases fs.len(),
{
    let mid = choose|mid: int|
        fields_at(s, from, mid, fs.drop_last()) && #[trigger] field_at(s, mid, to, fs.last());
    if k == fs.len() - 1 {
        assert(fs.take(k) =~= fs.drop_last());
        assert(field_at(s, mid, to, fs[k]));
    } else {
        lemma_fields_prefix(s, from, mid, fs.drop_last(), k);
        assert(fs.drop_last().take(k) =~= fs.take(k));
        assert(fs.drop_last()[k] == fs[k]);
    }
}

proof fn lemma_fields_unique(s: Seq<char>, from: int, t1: int, f1: Seq<FieldDefinition>, t2: int, f2: Seq<FieldDefinition>)
    requires
        fields_at(s, from, t1, f1),
        fields_at(s, from, t2, f2),
        f1.len() == f2.len(),
    ensures
        t1 == t2,
    decreases f1.len(),
{
    if f1.len() > 0 {
        let m1 = choose|mid: int|
            fields_at(s, from, mid, f1.drop_last()) && #[trigger] field_at(s, mid, t1, f1.last());
        let m2 = choose|mid: int|
            fields_at(s, from, mid, f2.drop_last()) && #[trigger] field_at(s, mid, t2, f2.last());
        lemma_fields_unique(s, from, m1, f1.drop_last(), m2, f2.drop_last());
        lemma_field_end_unique(s, m1, t1, f1.last(), t2, f2.last());
    }
}

/// A field and a closing character never start at one place.
proof fn lemma_field_not_closed(s: Seq<char>, m: int, e: int, f: FieldDefinition, t: int, close: char)
    requires
        field_at(s, m, e, f),
        !is_digit(close),
        !is_ws(close),
    ensures
        !closed_at(s, m, t, close),
{
    if closed_at(s, m, t, close) {
        let (n, p) = choose|n: int, p: int|
            0 <= n <= f.comments@.len() && #[trigger] comments_at(s, m, p, f.comments@.take(n))
                && (field_core_end(s, p, f) matches Some(q) && tail_end(s, q, f.comments@.skip(n))
                == Some(e));
        let (cs, q) = choose|cs: Seq<Comment>, q: int|
            #[trigger] comments_at(s, m, q, cs) && 0 <= q < s.len() && s[q] == close && t == q + 1;
        lemma_comments_unique(s, m, p, f.comments@.take(n), q, cs);
        assert(ws_end(s, q) == q);
    }
}

/// Where the field reading stops at `p` with neither a field nor the closing
/// character there, no closed field list starts at `from`.
proof fn lemma_fields_stuck(s: Seq<char>, from: int, p: int, ps: Seq<FieldDefinition>, close: char)
    requires
        fields_at(s, from, p, ps),
        !is_digit(close),
        !is_ws(close),
        forall|e: int, f: FieldDefinition| !#[trigger] field_at(s, p, e, f),
        forall|t: int| !#[trigger] closed_at(s, p, t, close),
    ensures
        forall|b: int, fs: Seq<FieldDefinition>| !#[trigger] fields_closed_at(s, from, b, fs, close),
{
    assert forall|b: int, fs: Seq<FieldDefinition>| !#[trigger] fields_closed_at(s, from, b, fs, close) by {
        if fields_closed_at(s, from, b, fs, close) {
            let mid = choose|mid: int| #[trigger] fields_at(s, from, mid, fs) && closed_at(s, mid, b, close);
            let k = ps.len() as int;
            if fs.len() < k {
                lemma_fields_prefix(s, from, p, ps, fs.len() as int);
                let (m, e) = choose|m: int, e: int|
                    fields_at(s, from, m, ps.take(fs.len() as int)) && #[trigger] field_at(s, m, e, ps[fs.len() as int]);
                lemma_fields_unique(s, from, mid, fs, m, ps.take(fs.len() as int));
                lemma_field_not_closed(s, m, e, ps[fs.len() as int], b, close);
            } else if fs.len() == k {
                lemma_fields_unique(s, from, mid, fs, p, ps);
            } else {
                lemma_fields_prefix(s, from, mid, fs, k);
                let (m, e) = choose|m: int, e: int|
                    fields_at(s, from, m, fs.take(k)) && #[trigger] field_at(s, m, e, fs[k]);
                lemma_fields_unique(s, from, m, fs.take(k), p, ps);
            }
        }
    }
}

/// A closed member list: members, then comments and `close`.
pub open spec fn members_closed_at(s: Seq<char>, from: int, to: int, ms: Seq<EnumMember>, close: char) -> bool {
    exists|mid: int| #[trigger] members_at(s, from, mid, ms) && closed_at(s, mid, to, close)
}

proof fn lemma_member_core_end_unique(s: Seq<char>, pos: int, m1: EnumMember, m2: EnumMember)
    requires
        member_core_end(s, pos, m1) is Some,
        member_core_end(s, pos, m2) is Some,
    ensures
        member_core_end(s, pos, m1) == member_core_end(s, pos, m2),
{
}

/// An enum member read from one place ends at one place.
pub proof fn lemma_member_end_unique(s: Seq<char>, from: int, e1: int, f1: EnumMember, e2: int, f2: EnumMember)
    requires
        member_at(s, from, e1, f1),
        member_at(s, from, e2, f2),
    ensures
        e1 == e2,
{
    let (n1, p1) = choose|n: int, p: int|
        0 <= n <= f1.comments@.len() && #[trigger] comments_at(s, from, p, f1.comments@.take(n))
            && (member_core_end(s, p, f1) matches Some(q) && tail_end(s, q, f1.comments@.skip(n))
            == Some(e1));
    let (n2, p2) = choose|n: int, p: int|
        0 <= n <= f2.comments@.len() && #[trigger] comments_at(s, from, p, f2.comments@.take(n))
            && (member_core_end(s, p, f2) matches Some(q) && tail_end(s, q, f2.comments@.skip(n))
            == Some(e2));
    lemma_comments_unique(s, from, p1, f1.comments@.take(n1), p2, f2.comments@.take(n2));
    lemma_member_core_end_unique(s, p1, f1, f2);
    let q = member_core_end(s, p1, f1)->0;
    lemma_tail_end_unique(s, q, f1.comments@.skip(n1), f2.comments@.skip(n2));
}

proof fn lemma_members_prefix(s: Seq<char>, from: int, to: int, fs: Seq<EnumMember>, k: int)
    requires
        members_at(s, from, to, fs),
        0 <= k < fs.len(),
    ensures
        exists|m: int, e: int| members_at(s, from, m, fs.take(k)) && #[trigger] member_at(s, m, e, fs[k]),
    decreases fs.len(),
{
    let mid = choose|mid: int|
        members_at(s, from, mid, fs.drop_last()) && #[trigger] member_at(s, mid, to, fs.last());
    if k == fs.len() - 1 {
        assert(fs.take(k) =~= fs.drop_last());
        assert(member_at(s, mid, to, fs[k]));
    } else {
        lemma_members_prefix(s, from, mid, fs.drop_last(), k);
        assert(fs.drop_last().take(k) =~= fs.take(k));
        assert(fs.drop_last()[k] == fs[k]);
    }
}

proof fn lemma_members_unique(s: Seq<char>, from: int, t1: int, f1: Seq<EnumMember>, t2: int, f2: Seq<EnumMember>)
    requires
        members_at(s, from, t1, f1),
        members_at(s, from, t2, f2),
        f1.len() == f2.len(),
    ensures
        t1 == t2,
    decreases f1.len(),
{
    if f1.len() > 0 {
        let m1 = choose|mid: int|
            members_at(s, from, mid, f1.drop_last()) && #[trigger] member_at(s, mid, t1, f1.last());
        let m2 = choose|mid: int|
            members_at(s, from, mid, f2.drop_last()) && #[trigger] member_at(s, mid, t2, f2.last());
        lemma_members_unique(s, from, m1, f1.drop_last(), m2, f2.drop_last());
        lemma_member_end_unique(s, m1, t1, f1.last(), t2, f2.last());
    }
}

/// An enum member and a closing character never start at one place.
proof fn lemma_member_not_closed(s: Seq<char>, m: int, e: int, f: EnumMember, t: int, close: char)
    requires
        member_at(s, m, e, f),
        !is_ident_char(close),
        !is_ws(close),
    ensures
        !closed_at(s, m, t, close),
{
    if closed_at(s, m, t, close) {
        let (n, p) = choose|n: int, p: int|
            0 <= n <= f.comments@.len() && #[trigger] comments_at(s, m, p, f.comments@.take(n))
                && (member_core_end(s, p, f) matches Some(q) && tail_end(s, q, f.comments@.skip(n))
                == Some(e));
        let (cs, q) = choose|cs: Seq<Comment>, q: int|
            #[trigger] comments_at(s, m, q, cs) && 0 <= q < s.len() && s[q] == close && t == q + 1;
        lemma_comments_unique(s, m, p, f.comments@.take(n), q, cs);
        assert(ws_end(s, q) == q);
        assert(ident_end(s, q) == q);
    }
}

/// Where the member reading stops at `p` with neither a member nor the
/// closing character there, no closed member list starts at `from`.
proof fn lemma_members_stuck(s: Seq<char>, from: int, p: int, ps: Seq<EnumMember>, close: char)
    requires
        members_at(s, from, p, ps),
        !is_ident_char(close),
        !is_ws(close),
        forall|e: int, f: EnumMember| !#[trigger] member_at(s, p, e, f),
        forall|t: int| !#[trigger] closed_at(s, p, t, close),
    ensures
        forall|b: int, fs: Seq<EnumMember>| !#[trigger] members_closed_at(s, from, b, fs, close),
{
    assert forall|b: int, fs: Seq<EnumMember>| !#[trigger] members_closed_at(s, from, b, fs, close) by {
        if members_closed_at(s, from, b, fs, close) {
            let mid = choose|mid: int| #[trigger] members_at(s, from, mid, fs) && closed_at(s, mid, b, close);
            let k = ps.len() as int;
            if fs.len() < k {
                lemma_members_prefix(s, from, p, ps, fs.len() as int);
                let (m, e) = choose|m: int, e: int|
                    members_at(s, from, m, ps.take(fs.len() as int)) && #[trigger] member_at(s, m, e, ps[fs.len() as int]);
                lemma_members_unique(s, from, mid, fs, m, ps.take(fs.len() as int));
                lemma_member_not_closed(s, m, e, ps[fs.len() as int], b, close);
            } else if fs.len() == k {
                lemma_members_unique(s, from, mid, fs, p, ps);
            } else {
                lemma_members_prefix(s, from, mid, fs, k);
                let (m, e) = choose|m: int, e: int|
                    members_at(s, from, m, fs.take(k)) && #[trigger] member_at(s, m, e, fs[k]);
                lemma_members_unique(s, from, m, fs.take(k), p, ps);
            }
        }
    }
}

/// A closed field list read from one place ends at one place.
proof fn lemma_fields_closed_unique(
    s: Seq<char>,
    from: int,
    b1: int,
    f1: Seq<FieldDefinition>,
    b2: int,
    f2: Seq<FieldDefinition>,
    close: char,
)
    requires
        fields_closed_at(s, from, b1, f1, close),
        fields_closed_at(s, from, b2, f2, close),
        !is_digit(close),
        !is_ws(close),
    ensures
        b1 == b2,
{
    let m1 = choose|mid: int| #[trigger] fields_at(s, from, mid, f1) && closed_at(s, mid, b1, close);
    let m2 = choose|mid: int| #[trigger] fields_at(s, from, mid, f2) && closed_at(s, mid, b2, close);
    if f1.len() < f2.len() {
        lemma_fields_prefix(s, from, m2, f2, f1.len() as int);
        let (m, e) = choose|m: int, e: int|
            fields_at(s, from, m, f2.take(f1.len() as int)) && #[trigger] field_at(s, m, e, f2[f1.len() as int]);
        lemma_fields_unique(s, from, m1, f1, m, f2.take(f1.len() as int));
        lemma_field_not_closed(s, m, e, f2[f1.len() as int], b1, close);
    } else if f2.len() < f1.len() {
        lemma_fields_prefix(s, from, m1, f1, f2.len() as int);
        let (m, e) = choose|m: int, e: int|
            fields_at(s, from, m, f1.take(f2.len() as int)) && #[trigger] field_at(s, m, e, f1[f2.len() as int]);
        lemma_fields_unique(s, from, m2, f2, m, f1.take(f2.len() as int));
        lemma_field_not_closed(s, m, e, f1[f2.len() as int], b2, close);
    } else {
        lemma_fields_unique(s, from, m1, f1, m2, f2);
        let (c1, q1) = choose|cs: Seq<Comment>, q: int|
            #[trigger] comments_at(s, m1, q, cs) && 0 <= q < s.len() && s[q] == close && b1 == q + 1;
        let (c2, q2) = choose|cs: Seq<Comment>, q: int|
            #[trigger] comments_at(s, m1, q, cs) && 0 <= q < s.len() && s[q] == close && b2 == q + 1;
        lemma_comments_unique(s, m1, q1, c1, q2, c2);
    }
}

/// A type starts with an identifier character.
proof fn lemma_type_starts_ident(s: Seq<char>, pos: int, t: ThriftType)
    requires
        type_end(s, pos, t) is Some,
    ensures
        0 <= ws_end(s, pos) < s.len() && is_ident_char(s[ws_end(s, pos)]),
{
    let p = ws_end(s, pos);
    lemma_type_keyword_chars(s, p);
    reveal_strlit("void");
    reveal_strlit("string");
    reveal_strlit("i16");
    reveal_strlit("i32");
    reveal_strlit("i64");
    reveal_strlit("double");
    reveal_strlit("bool");
    reveal_strlit("list<");
    reveal_strlit("map<");
}

proof fn lemma_function_end_unique(s: Seq<char>, from: int, e1: int, f1: FunctionDefinition, e2: int, f2: FunctionDefinition)
    requires
        function_at(s, from, e1, f1),
        function_at(s, from, e2, f2),
    ensures
        e1 == e2,
{
    let (p1, a1) = choose|p: int, a: int|
        #[trigger] comments_at(s, from, p, f1.comments@) && function_head_end(s, p, f1) == Some(a)
            && #[trigger] function_tail_at(s, a, e1, f1);
    let (p2, a2) = choose|p: int, a: int|
        #[trigger] comments_at(s, from, p, f2.comments@) && function_head_end(s, p, f2) == Some(a)
            && #[trigger] function_tail_at(s, a, e2, f2);
    lemma_comments_unique(s, from, p1, f1.comments@, p2, f2.comments@);
    lemma_type_end_unique(s, p1, f1.return_type, f2.return_type);
    let b1 = choose|b: int|
        #[trigger] fields_closed_at(s, a1, b, f1.fields@, ')') && match annotations_end(s, b, f1.annotations@) {
            Some(c) => e1 == c,
            None => false,
        };
    let b2 = choose|b: int|
        #[trigger] fields_closed_at(s, a1, b, f2.fields@, ')') && match annotations_end(s, b, f2.annotations@) {
            Some(c) => e2 == c,
            None => false,
        };
    lemma_fields_closed_unique(s, a1, b1, f1.fields@, b2, f2.fields@, ')');
    lemma_annotations_end_unique(s, b1, f1.annotations@, f2.annotations@);
}

proof fn lemma_function_not_closed(s: Seq<char>, m: int, e: int, f: FunctionDefinition, t: int, close: char)
    requires
        function_at(s, m, e, f),
        !is_ident_char(close),
        !is_ws(close),
    ensures
        !closed_at(s, m, t, close),
{
    if closed_at(s, m, t, close) {
        let (p, a) = choose|p: int, a: int|
            #[trigger] comments_at(s, m, p, f.comments@) && function_head_end(s, p, f) == Some(a)
                && #[trigger] function_tail_at(s, a, e, f);
        let (cs, q) = choose|cs: Seq<Comment>, q: int|
            #[trigger] comments_at(s, m, q, cs) && 0 <= q < s.len() && s[q] == close && t == q + 1;
        lemma_comments_unique(s, m, p, f.comments@, q, cs);
        lemma_type_starts_ident(s, p, f.return_type);
        assert(ws_end(s, q) == q);
    }
}

proof fn lemma_functions_prefix(s: Seq<char>, from: int, to: int, fs: Seq<FunctionDefinition>, k: int)
    requires
        functions_at(s, from, to, fs),
        0 <= k < fs.len(),
    ensures
        exists|m: int, e: int| functions_at(s, from, m, fs.take(k)) && #[trigger] function_at(s, m, e, fs[k]),
    decreases fs.len(),
{
    let mid = choose|mid: int|
        functions_at(s, from, mid, fs.drop_last()) && #[trigger] function_at(s, mid, to, fs.last());
    if k == fs.len() - 1 {
        assert(fs.take(k) =~= fs.drop_last());
        assert(function_at(s, mid, to, fs[k]));
    } else {
        lemma_functions_prefix(s, from, mid, fs.drop_last(), k);
        assert(fs.drop_last().take(k) =~= fs.take(k));
        assert(fs.drop_last()[k] == fs[k]);
    }
}

proof fn lemma_functions_unique(s: Seq<char>, from: int, t1: int, f1: Seq<FunctionDefinition>, t2: int, f2: Seq<FunctionDefinition>)
    requires
        functions_at(s, from, t1, f1),
        functions_at(s, from, t2, f2),
        f1.len() == f2.len(),
    ensures
        t1 == t2,
    decreases f1.len(),
{
    if f1.len() > 0 {
        let m1 = choose|mid: int|
            functions_at(s, from, mid, f1.drop_last()) && #[trigger] function_at(s, mid, t1, f1.last());
        let m2 = choose|mid: int|
            functions_at(s, from, mid, f2.drop_last()) && #[trigger] function_at(s, mid, t2, f2.last());
        lemma_functions_unique(s, from, m1, f1.drop_last(), m2, f2.drop_last());
        lemma_function_end_unique(s, m1, t1, f1.last(), t2, f2.last());
    }
}

proof fn lemma_functions_stuck(s: Seq<char>, from: int, p: int, ps: Seq<FunctionDefinition>, close: char)
    requires
        functions_at(s, from, p, ps),
        !is_ident_char(close),
        !is_ws(close),
        forall|e: int, f: FunctionDefinition| !#[trigger] function_at(s, p, e, f),
        forall|t: int| !#[trigger] closed_at(s, p, t, close),
    ensures
        forall|b: int, fs: Seq<FunctionDefinition>| !#[trigger] functions_closed_at(s, from, b, fs, close),
{
    assert forall|b: int, fs: Seq<FunctionDefinition>| !#[trigger] functions_closed_at(s, from, b, fs, close) by {
        if functions_closed_at(s, from, b, fs, close) {
            let mid = choose|mid: int| #[trigger] functions_at(s, from, mid, fs) && closed_at(s, mid, b, close);
            let k = ps.len() as int;
            if fs.len() < k {
                lemma_functions_prefix(s, from, p, ps, fs.len() as int);
                let (m, e) = choose|m: int, e: int|
                    functions_at(s, from, m, ps.take(fs.len() as int)) && #[trigger] function_at(s, m, e, ps[fs.len() as int]);
                lemma_functions_unique(s, from, mid, fs, m, ps.take(fs.len() as int));
                lemma_function_not_closed(s, m, e, ps[fs.len() as int], b, close);
            } else if fs.len() == k {
                lemma_functions_unique(s, from, mid, fs, p, ps);
            } else {
                lemma_functions_prefix(s, from, mid, fs, k);
                let (m, e) = choose|m: int, e: int|
                    functions_at(s, from, m, fs.take(k)) && #[trigger] function_at(s, m, e, fs[k]);
                lemma_functions_unique(s, from, m, fs.take(k), p, ps);
            }
        }
    }
}

/// A closed member list read from one place ends at one place.
proof fn lemma_members_closed_unique(
    s: Seq<char>,
    from: int,
    b1: int,
    f1: Seq<EnumMember>,
    b2: int,
    f2: Seq<EnumMember>,
    close: char,
)
    requires
        members_closed_at(s, from, b1, f1, close),
        members_closed_at(s, from, b2, f2, close),
        !is_ident_char(close),
        !is_ws(close),
    ensures
        b1 == b2,
{
    let m1 = choose|mid: int| #[trigger] members_at(s, from, mid, f1) && closed_at(s, mid, b1, close);
    let m2 = choose|mid: int| #[trigger] members_at(s, from, mid, f2) && closed_at(s, mid, b2, close);
    if f1.len() < f2.len() {
        lemma_members_prefix(s, from, m2, f2, f1.len() as int);
        let (m, e) = choose|m: int, e: int|
            members_at(s, from, m, f2.take(f1.len() as int)) && #[trigger] member_at(s, m, e, f2[f1.len() as int]);
        lemma_members_unique(s, from, m1, f1, m, f2.take(f1.len() as int));
        lemma_member_not_closed(s, m, e, f2[f1.len() as int], b1, close);
    } else if f2.len() < f1.len() {
        lemma_members_prefix(s, from, m1, f1, f2.len() as int);
        let (m, e) = choose|m: int, e: int|
            members_at(s, from, m, f1.take(f2.len() as int)) && #[trigger] member_at(s, m, e, f1[f2.len() as int]);
        lemma_members_unique(s, from, m2, f2, m, f1.take(f2.len() as int));
        lemma_member_not_closed(s, m, e, f1[f2.len() as int], b2, close);
    } else {
        lemma_members_unique(s, from, m1, f1, m2, f2);
        let (c1, q1) = choose|cs: Seq<Comment>, q: int|
            #[trigger] comments_at(s, m1, q, cs) && 0 <= q < s.len() && s[q] == close && b1 == q + 1;
        let (c2, q2) = choose|cs: Seq<Comment>, q: int|
            #[trigger] comments_at(s, m1, q, cs) && 0 <= q < s.len() && s[q] == close && b2 == q + 1;
        lemma_comments_unique(s, m1, q1, c1, q2, c2);
    }
}

/// A closed function list read from one place ends at one place.
proof fn lemma_functions_closed_unique(
    s: Seq<char>,
    from: int,
    b1: int,
    f1: Seq<FunctionDefinition>,
    b2: int,
    f2: Seq<FunctionDefinition>,
    close: char,
)
    requires
        functions_closed_at(s, from, b1, f1, close),
        functions_closed_at(s, from, b2, f2, close),
        !is_ident_char(close),
        !is_ws(close),
    ensures
        b1 == b2,
{
    let m1 = choose|mid: int| #[trigger] functions_at(s, from, mid, f1) && closed_at(s, mid, b1, close);
    let m2 = choose|mid: int| #[trigger] functions_at(s, from, mid, f2) && closed_at(s, mid, b2, close);
    if f1.len() < f2.len() {
        lemma_functions_prefix(s, from, m2, f2, f1.len() as int);
        let (m, e) = choose|m: int, e: int|
            functions_at(s, from, m, f2.take(f1.len() as int)) && #[trigger] function_at(s, m, e, f2[f1.len() as int]);
        lemma_functions_unique(s, from, m1, f1, m, f2.take(f1.len() as int));
        lemma_function_not_closed(s, m, e, f2[f1.len() as int], b1, close);
    } else if f2.len() < f1.len() {
        lemma_functions_prefix(s, from, m1, f1, f2.len() as int);
        let (m, e) = choose|m: int, e: int|
            functions_at(s, from, m, f1.take(f2.len() as int)) && #[trigger] function_at(s, m, e, f1[f2.len() as int]);
        lemma_functions_unique(s, from, m2, f2, m, f1.take(f2.len() as int));
        lemma_function_not_closed(s, m, e, f1[f2.len() as int], b2, close);
    } else {
        lemma_functions_unique(s, from, m1, f1, m2, f2);
        let (c1, q1) = choose|cs: Seq<Comment>, q: int|
            #[trigger] comments_at(s, m1, q, cs) && 0 <= q < s.len() && s[q] == close && b1 == q + 1;
        let (c2, q2) = choose|cs: Seq<Comment>, q: int|
            #[trigger] comments_at(s, m1, q, cs) && 0 <= q < s.len() && s[q] == close && b2 == q + 1;
        lemma_comments_unique(s, m1, q1, c1, q2, c2);
    }
}

/// The characters of whichever definition keywords stand at `p`.
proof fn lemma_definition_keyword_chars(s: Seq<char>, p: int)
    ensures
        word_at(s, p, "namespace"@) ==> s[p] == 'n',
        word_at(s, p, "include"@) ==> s[p] == 'i',
        word_at(s, p, "struct"@) ==> s[p] == 's' && s[p + 1] == 't',
        word_at(s, p, "enum"@) ==> s[p] == 'e',
        word_at(s, p, "service"@) ==> s[p] == 's' && s[p + 1] == 'e',
{
    reveal_strlit("namespace");
    reveal_strlit("include");
    reveal_strlit("struct");
    reveal_strlit("enum");
    reveal_strlit("service");
    if word_at(s, p, "namespace"@) {
        lemma_word_chars(s, p, "namespace"@);
        assert("namespace"@[0] == 'n');
    }
    if word_at(s, p, "include"@) {
        lemma_word_chars(s, p, "include"@);
        assert("include"@[0] == 'i');
    }
    if word_at(s, p, "struct"@) {
        lemma_word_chars(s, p, "struct"@);
        assert("struct"@[0] == 's' && "struct"@[1] == 't');
    }
    if word_at(s, p, "enum"@) {
        lemma_word_chars(s, p, "enum"@);
        assert("enum"@[0] == 'e');
    }
    if word_at(s, p, "service"@) {
        lemma_word_chars(s, p, "service"@);
        assert("service"@[0] == 's' && "service"@[1] == 'e');
    }
}

/// A definition body read from one place ends at one place.
proof fn lemma_definition_body_end_unique(
    s: Seq<char>,
    p: int,
    e1: int,
    d1: TopDefinition,
    c1: Seq<Comment>,
    e2: int,
    d2: TopDefinition,
    c2: Seq<Comment>,
)
    requires
        definition_body_at(s, p, e1, d1, c1),
        definition_body_at(s, p, e2, d2, c2),
    ensures
        e1 == e2,
{
    lemma_definition_keyword_chars(s, p);
    match d1 {
        TopDefinition::Include(i1) => {
            if let TopDefinition::Include(i2) = d2 {
                let k = keyword_end(s, p, "include"@)->0;
                lemma_string_end_unique(s, k, i1.path@, i2.path@);
            }
        },
        TopDefinition::Struct(x1) => {
            if let TopDefinition::Struct(x2) = d2 {
                let k = keyword_end(s, p, "struct"@)->0;
                let e = named_end(s, k, x1.name@)->0;
                let q = closing_end(s, e, '{')->0;
                lemma_fields_closed_unique(s, q, e1, x1.fields@, e2, x2.fields@, '}');
            }
        },
        TopDefinition::Enum(x1) => {
            if let TopDefinition::Enum(x2) = d2 {
                let k = keyword_end(s, p, "enum"@)->0;
                let e = named_end(s, k, x1.name@)->0;
                let q = closing_end(s, e, '{')->0;
                lemma_members_closed_unique(s, q, e1, x1.members@, e2, x2.members@, '}');
            }
        },
        TopDefinition::Service(x1) => {
            if let TopDefinition::Service(x2) = d2 {
                let k = keyword_end(s, p, "service"@)->0;
                let e = named_end(s, k, x1.name@)->0;
                let q = closing_end(s, e, '{')->0;
                lemma_functions_closed_unique(s, q, e1, x1.functions@, e2, x2.functions@, '}');
            }
        },
        _ => {},
    }
}

proof fn lemma_definition_end_unique(s: Seq<char>, from: int, e1: int, d1: TopDefinition, e2: int, d2: TopDefinition)
    requires
        definition_at(s, from, e1, d1),
        definition_at(s, from, e2, d2),
    ensures
        e1 == e2,
{
    let (c1, p1) = choose|cs: Seq<Comment>, p: int|
        #[trigger] comments_at(s, from, p, cs) && definition_body_at(s, p, e1, d1, cs);
    let (c2, p2) = choose|cs: Seq<Comment>, p: int|
        #[trigger] comments_at(s, from, p, cs) && definition_body_at(s, p, e2, d2, cs);
    lemma_comments_unique(s, from, p1, c1, p2, c2);
    lemma_definition_body_end_unique(s, p1, e1, d1, c1, e2, d2, c2);
}

/// A definition never stands where only comments run to the end.
proof fn lemma_definition_not_final(s: Seq<char>, m: int, e: int, d: TopDefinition, cs: Seq<Comment>)
    requires
        definition_at(s, m, e, d),
    ensures
        !comments_at(s, m, s.len() as int, cs),
{
    if comments_at(s, m, s.len() as int, cs) {
        let (c1, p1) = choose|c: Seq<Comment>, p: int|
            #[trigger] comments_at(s, m, p, c) && definition_body_at(s, p, e, d, c);
        lemma_comments_unique(s, m, p1, c1, s.len() as int, cs);
    }
}

proof fn lemma_definitions_prefix(s: Seq<char>, from: int, to: int, ds: Seq<TopDefinition>, k: int)
    requires
        definitions_at(s, from, to, ds),
        0 <= k < ds.len(),
    ensures
        exists|m: int, e: int| definitions_at(s, from, m, ds.take(k)) && #[trigger] definition_at(s, m, e, ds[k]),
    decreases ds.len(),
{
    let mid = choose|mid: int|
        definitions_at(s, from, mid, ds.drop_last()) && #[trigger] definition_at(s, mid, to, ds.last());
    if k == ds.len() - 1 {
        assert(ds.take(k) =~= ds.drop_last());
        assert(definition_at(s, mid, to, ds[k]));
    } else {
        lemma_definitions_prefix(s, from, mid, ds.drop_last(), k);
        assert(ds.drop_last().take(k) =~= ds.take(k));
        assert(ds.drop_last()[k] == ds[k]);
    }
}

proof fn lemma_definitions_unique(s: Seq<char>, from: int, t1: int, d1: Seq<TopDefinition>, t2: int, d2: Seq<TopDefinition>)
    requires
        definitions_at(s, from, t1, d1),
        definitions_at(s, from, t2, d2),
        d1.len() == d2.len(),
    ensures
        t1 == t2,
    decreases d1.len(),
{
    if d1.len() > 0 {
        let m1 = choose|mid: int|
            definitions_at(s, from, mid, d1.drop_last()) && #[trigger] definition_at(s, mid, t1, d1.last());
        let m2 = choose|mid: int|
            definitions_at(s, from, mid, d2.drop_last()) && #[trigger] definition_at(s, mid, t2, d2.last());
        lemma_definitions_unique(s, from, m1, d1.drop_last(), m2, d2.drop_last());
        lemma_definition_end_unique(s, m1, t1, d1.last(), t2, d2.last());
    }
}

/// Where the document reading stops at `p` with neither a definition nor
/// the final comments there, no document spells `s`.
proof fn lemma_document_stuck(s: Seq<char>, p: int, ps: Seq<TopDefinition>)
    requires
        definitions_at(s, 0, p, ps),
        forall|e: int, d: TopDefinition| !#[trigger] definition_at(s, p, e, d),
        forall|cs: Seq<Comment>| !#[trigger] comments_at(s, p, s.len() as int, cs),
    ensures
        forall|d: ThriftDocument| !#[trigger] document_at(s, d),
{
    assert forall|d: ThriftDocument| !#[trigger] document_at(s, d) by {
        if document_at(s, d) {
            let (mid, cs) = choose|mid: int, cs: Seq<Comment>|
                #[trigger] definitions_at(s, 0, mid, d.body@) && #[trigger] comments_at(s, mid, s.len() as int, cs);
            let ds = d.body@;
            let k = ps.len() as int;
            if ds.len() < k {
                lemma_definitions_prefix(s, 0, p, ps, ds.len() as int);
                let (m, e) = choose|m: int, e: int|
                    definitions_at(s, 0, m, ps.take(ds.len() as int)) && #[trigger] definition_at(s, m, e, ps[ds.len() as int]);
                lemma_definitions_unique(s, 0, mid, ds, m, ps.take(ds.len() as int));
                lemma_definition_not_final(s, m, e, ps[ds.len() as int], cs);
            } else if ds.len() == k {
                lemma_definitions_unique(s, 0, mid, ds, p, ps);
            } else {
                lemma_definitions_prefix(s, 0, mid, ds, k);
                let (m, e) = choose|m: int, e: int|
                    definitions_at(s, 0, m, ds.take(k)) && #[trigger] definition_at(s, m, e, ds[k]);
                lemma_definitions_unique(s, 0, m, ds.take(k), p, ps);
            }
        }
    }
}

/// The fields up to the closing `close`, which is consumed; it fails exactly
/// when no such list stands at `pos`.
fn parse_fields(s: &Vec<char>, pos: usize, close: char) -> (r: Result<
    (Vec<FieldDefinition>, usize),
    ParseError,
>)
    requires
        pos <= s@.len(),
        !is_digit(close),
        !is_ws(close),
    ensures
        r matches Ok((fs, e)) ==> pos < e <= s@.len() && fields_closed_at(
            s@,
            pos as int,
            e as int,
            fs@,
            close,
        ),
        r is Err ==> forall|b: int, fs: Seq<FieldDefinition>|
            !#[trigger] fields_closed_at(s@, pos as int, b, fs, close),
{
    let mut fields: Vec<FieldDefinition> = Vec::new();
    let mut p = pos;
    loop
        invariant
            pos <= p <= s@.len(),
            !is_digit(close),
            !is_ws(close),
            fields_at(s@, pos as int, p as int, fields@),
        decreases s@.len() - p,
    {
        let (comments, q) = match parse_comments(s, p) {
            Ok(cq) => cq,
            Err(err) => {
                proof {
                    assert forall|e: int, f: FieldDefinition| !#[trigger] field_at(s@, p as int, e, f) by {
                        if field_at(s@, p as int, e, f) {
                            let (n, pp) = choose|n: int, pp: int|
                                0 <= n <= f.comments@.len() && #[trigger] comments_at(s@, p as int, pp, f.comments@.take(n))
                                    && (field_core_end(s@, pp, f) matches Some(qq) && tail_end(s@, qq, f.comments@.skip(n)) == Some(e));
                        }
                    }
                    assert forall|t: int| !#[trigger] closed_at(s@, p as int, t, close) by {
                        if closed_at(s@, p as int, t, close) {
                            let (cs, qq) = choose|cs: Seq<Comment>, qq: int|
                                #[trigger] comments_at(s@, p as int, qq, cs) && 0 <= qq < s@.len() && s@[qq] == close && t == qq + 1;
                        }
                    }
                    lemma_fields_stuck(s@, pos as int, p as int, fields@, close);
                }
                return Err(err);
            },
        };
        if q < s.len() && s[q] == close {
            assert(closed_at(s@, p as int, q + 1, close));
            return Ok((fields, q + 1));
        }
        let ghost n = comments@.len() as int;
        let ghost cs = comments@;
        let (field, e) = match parse_field(s, q, comments) {
            Ok(fe) => fe,
            Err(err) => {
                proof {
                    assert forall|e: int, f: FieldDefinition| !#[trigger] field_at(s@, p as int, e, f) by {
                        if field_at(s@, p as int, e, f) {
                            let (n2, pp) = choose|n2: int, pp: int|
                                0 <= n2 <= f.comments@.len() && #[trigger] comments_at(s@, p as int, pp, f.comments@.take(n2))
                                    && (field_core_end(s@, pp, f) matches Some(qq) && tail_end(s@, qq, f.comments@.skip(n2)) == Some(e));
                            lemma_comments_unique(s@, p as int, pp, f.comments@.take(n2), q as int, cs);
                        }
                    }
                    assert forall|t: int| !#[trigger] closed_at(s@, p as int, t, close) by {
                        if closed_at(s@, p as int, t, close) {
                            let (cs2, qq) = choose|cs2: Seq<Comment>, qq: int|
                                #[trigger] comments_at(s@, p as int, qq, cs2) && 0 <= qq < s@.len() && s@[qq] == close && t == qq + 1;
                            lemma_comments_unique(s@, p as int, qq, cs2, q as int, cs);
                        }
                    }
                    lemma_fields_stuck(s@, pos as int, p as int, fields@, close);
                }
                return Err(err);
            },
        };
        assert(field_at(s@, p as int, e as int, field)) by {
            assert(field.comments@.take(n) == cs);
            assert(comments_at(s@, p as int, q as int, field.comments@.take(n)));
        }
        let ghost prev = fields@;
        let ghost fg = field;
        fields.push(field);
        assert(fields@.drop_last() =~= prev);
        assert(fields@.last() == fg);
        assert(field_at(s@, p as int, e as int, fields@.last()));
        assert(fields_at(s@, pos as int, e as int, fields@));
        p = e;
    }
}

/// The enum members up to the closing `close`, which is consumed; it fails
/// exactly when no such list stands at `pos`.
fn parse_members(s: &Vec<char>, pos: usize, close: char) -> (r: Result<
    (Vec<EnumMember>, usize),
    ParseError,
>)
    requires
        pos <= s@.len(),
        !is_ident_char(close),
        !is_ws(close),
    ensures
        r matches Ok((fs, e)) ==> pos < e <= s@.len() && members_closed_at(
            s@,
            pos as int,
            e as int,
            fs@,
            close,
        ),
        r is Err ==> forall|b: int, fs: Seq<EnumMember>|
            !#[trigger] members_closed_at(s@, pos as int, b, fs, close),
{
    let mut members: Vec<EnumMember> = Vec::new();
    let mut p = pos;
    loop
        invariant
            pos <= p <= s@.len(),
            !is_ident_char(close),
            !is_ws(close),
            members_at(s@, pos as int, p as int, members@),
        decreases s@.len() - p,
    {
        let (comments, q) = match parse_comments(s, p) {
            Ok(cq) => cq,
            Err(err) => {
                proof {
                    assert forall|e: int, f: EnumMember| !#[trigger] member_at(s@, p as int, e, f) by {
                        if member_at(s@, p as int, e, f) {
                            let (n, pp) = choose|n: int, pp: int|
                                0 <= n <= f.comments@.len() && #[trigger] comments_at(s@, p as int, pp, f.comments@.take(n))
                                    && (member_core_end(s@, pp, f) matches Some(qq) && tail_end(s@, qq, f.comments@.skip(n)) == Some(e));
                        }
                    }
                    assert forall|t: int| !#[trigger] closed_at(s@, p as int, t, close) by {
                        if closed_at(s@, p as int, t, close) {
                            let (cs, qq) = choose|cs: Seq<Comment>, qq: int|
                                #[trigger] comments_at(s@, p as int, qq, cs) && 0 <= qq < s@.len() && s@[qq] == close && t == qq + 1;
                        }
                    }
                    lemma_members_stuck(s@, pos as int, p as int, members@, close);
                }
                return Err(err);
            },
        };
        if q < s.len() && s[q] == close {
            assert(closed_at(s@, p as int, q + 1, close));
            return Ok((members, q + 1));
        }
        let ghost n = comments@.len() as int;
        let ghost cs = comments@;
        let (field, e) = match parse_enum_member(s, q, comments) {
            Ok(fe) => fe,
            Err(err) => {
                proof {
                    assert forall|e: int, f: EnumMember| !#[trigger] member_at(s@, p as int, e, f) by {
                        if member_at(s@, p as int, e, f) {
                            let (n2, pp) = choose|n2: int, pp: int|
                                0 <= n2 <= f.comments@.len() && #[trigger] comments_at(s@, p as int, pp, f.comments@.take(n2))
                                    && (member_core_end(s@, pp, f) matches Some(qq) && tail_end(s@, qq, f.comments@.skip(n2)) == Some(e));
                            lemma_comments_unique(s@, p as int, pp, f.comments@.take(n2), q as int, cs);
                        }
                    }
                    assert forall|t: int| !#[trigger] closed_at(s@, p as int, t, close) by {
                        if closed_at(s@, p as int, t, close) {
                            let (cs2, qq) = choose|cs2: Seq<Comment>, qq: int|
                                #[trigger] comments_at(s@, p as int, qq, cs2) && 0 <= qq < s@.len() && s@[qq] == close && t == qq + 1;
                            lemma_comments_unique(s@, p as int, qq, cs2, q as int, cs);
                        }
                    }
                    lemma_members_stuck(s@, pos as int, p as int, members@, close);
                }
                return Err(err);
            },
        };
        assert(member_at(s@, p as int, e as int, field)) by {
            assert(field.comments@.take(n) == cs);
            assert(comments_at(s@, p as int, q as int, field.comments@.take(n)));
        }
        let ghost prev = members@;
        let ghost fg = field;
        members.push(field);
        assert(members@.drop_last() =~= prev);
        assert(members@.last() == fg);
        assert(member_at(s@, p as int, e as int, members@.last()));
        assert(members_at(s@, pos as int, e as int, members@));
        p = e;
    }
}

/// The service functions up to the closing `close`, which is consumed; it
/// fails exactly when no such list stands at `pos`.
fn parse_functions(s: &Vec<char>, pos: usize, close: char) -> (r: Result<
    (Vec<FunctionDefinition>, usize),
    ParseError,
>)
    requires
        pos <= s@.len(),
        !is_ident_char(close),
        !is_ws(close),
    ensures
        r matches Ok((fs, e)) ==> pos < e <= s@.len() && functions_closed_at(
            s@,
            pos as int,
            e as int,
            fs@,
            close,
        ),
        r is Err ==> forall|b: int, fs: Seq<FunctionDefinition>|
            !#[trigger] functions_closed_at(s@, pos as int, b, fs, close),
{
    let mut functions: Vec<FunctionDefinition> = Vec::new();
    let mut p = pos;
    loop
        invariant
            pos <= p <= s@.len(),
            !is_ident_char(close),
            !is_ws(close),
            functions_at(s@, pos as int, p as int, functions@),
        decreases s@.len() - p,
    {
        let (comments, q) = match parse_comments(s, p) {
            Ok(cq) => cq,
            Err(err) => {
                proof {
                    assert forall|e: int, f: FunctionDefinition| !#[trigger] function_at(s@, p as int, e, f) by {
                        if function_at(s@, p as int, e, f) {
                            let (pp, a) = choose|pp: int, a: int|
                                #[trigger] comments_at(s@, p as int, pp, f.comments@) && function_head_end(s@, pp, f) == Some(a)
                                    && #[trigger] function_tail_at(s@, a, e, f);
                        }
                    }
                    assert forall|t: int| !#[trigger] closed_at(s@, p as int, t, close) by {
                        if closed_at(s@, p as int, t, close) {
                            let (cs, qq) = choose|cs: Seq<Comment>, qq: int|
                                #[trigger] comments_at(s@, p as int, qq, cs) && 0 <= qq < s@.len() && s@[qq] == close && t == qq + 1;
                        }
                    }
                    lemma_functions_stuck(s@, pos as int, p as int, functions@, close);
                }
                return Err(err);
            },
        };
        if q < s.len() && s[q] == close {
            assert(closed_at(s@, p as int, q + 1, close));
            return Ok((functions, q + 1));
        }
        let ghost cs = comments@;
        let (function, e) = match parse_function(s, q, comments) {
            Ok(fe) => fe,
            Err(err) => {
                proof {
                    assert forall|e: int, f: FunctionDefinition| !#[trigger] function_at(s@, p as int, e, f) by {
                        if function_at(s@, p as int, e, f) {
                            let (pp, a) = choose|pp: int, a: int|
                                #[trigger] comments_at(s@, p as int, pp, f.comments@) && function_head_end(s@, pp, f) == Some(a)
                                    && #[trigger] function_tail_at(s@, a, e, f);
                            lemma_comments_unique(s@, p as int, pp, f.comments@, q as int, cs);
                        }
                    }
                    assert forall|t: int| !#[trigger] closed_at(s@, p as int, t, close) by {
                        if closed_at(s@, p as int, t, close) {
                            let (cs2, qq) = choose|cs2: Seq<Comment>, qq: int|
                                #[trigger] comments_at(s@, p as int, qq, cs2) && 0 <= qq < s@.len() && s@[qq] == close && t == qq + 1;
                            lemma_comments_unique(s@, p as int, qq, cs2, q as int, cs);
                        }
                    }
                    lemma_functions_stuck(s@, pos as int, p as int, functions@, close);
                }
                return Err(err);
            },
        };
        assert(function_at(s@, p as int, e as int, function));
        let ghost prev = functions@;
        let ghost fg = function;
        functions.push(function);
        assert(functions@.drop_last() =~= prev);
        assert(functions@.last() == fg);
        assert(function_at(s@, p as int, e as int, functions@.last()));
        assert(functions_at(s@, pos as int, e as int, functions@));
        p = e;
    }
}

/// An enum member: `name [= integer]`, with the leading comments already read.
fn parse_enum_member(s: &Vec<char>, pos: usize, comments: Vec<Comment>) -> (r: Result<
    (EnumMember, usize),
    ParseError,
>)
    requires
        pos <= s@.len(),
    ensures
        r matches Ok((m, e)) ==> {
            &&& pos < e <= s@.len()
            &&& comments@.len() <= m.comments@.len()
            &&& m.comments@.take(comments@.len() as int) == comments@
            &&& member_core_end(s@, pos as int, m) matches Some(q)
            &&& tail_end(s@, q, m.comments@.skip(comments@.len() as int)) == Some(e as int)
        },
        r is Err ==> forall|m: EnumMember| #[trigger] member_core_end(s@, pos as int, m) is None,
{
    let (name, p) = parse_identifier(s, pos, "expected an enum member")?;
    let q = skip_ws(s, p);
    let mut initializer: Option<String> = None;
    let mut end = p;
    if q < s.len() && s[q] == '=' {
        let d0 = skip_ws(s, q + 1);
        let d = digits_end(s, d0);
        if d == d0 {
            return error("expected an integer after `=`", d0);
        }
        initializer = Some(string_of(s, d0, d));
        end = d;
    }
    let mut comments = comments;
    let e = parse_line_tail(s, end, &mut comments);
    let m = EnumMember { name, initializer, comments };
    assert(member_core_end(s@, pos as int, m) == Some(end as int));
    Ok((m, e))
}

/// A service function: `type name(fields) [(annotations)]`, with the leading
/// comments already read; it fails exactly when no function stands at `pos`.
fn parse_function(s: &Vec<char>, pos: usize, comments: Vec<Comment>) -> (r: Result<
    (FunctionDefinition, usize),
    ParseError,
>)
    requires
        pos <= s@.len(),
    ensures
        r matches Ok((f, e)) ==> {
            &&& pos < e <= s@.len()
            &&& f.comments@ == comments@
            &&& function_head_end(s@, pos as int, f) is Some
            &&& function_tail_at(s@, function_head_end(s@, pos as int, f)->0, e as int, f)
        },
        r is Err ==> forall|t: int, f: FunctionDefinition, a: int|
            function_head_end(s@, pos as int, f) == Some(a) ==> !#[trigger] function_tail_at(
                s@,
                a,
                t,
                f,
            ),
{
    let (return_type, p) = match parse_type(s, pos) {
        Ok(tp) => tp,
        Err(err) => {
            return Err(err);
        },
    };
    let (name, p1) = match parse_identifier(s, p, "expected a function name") {
        Ok(np) => np,
        Err(err) => {
            assert forall|t: int, f: FunctionDefinition, a: int|
                function_head_end(s@, pos as int, f) == Some(a) implies !#[trigger] function_tail_at(s@, a, t, f) by {
                if type_end(s@, pos as int, f.return_type) is Some {
                    lemma_type_end_unique(s@, pos as int, f.return_type, return_type);
                }
            }
            return Err(err);
        },
    };
    let p2 = match expect_char(s, p1, '(', "expected `(` after function name") {
        Ok(p2) => p2,
        Err(err) => {
            assert forall|t: int, f: FunctionDefinition, a: int|
                function_head_end(s@, pos as int, f) == Some(a) implies !#[trigger] function_tail_at(s@, a, t, f) by {
                if type_end(s@, pos as int, f.return_type) is Some {
                    lemma_type_end_unique(s@, pos as int, f.return_type, return_type);
                }
            }
            return Err(err);
        },
    };
    let (fields, p3) = match parse_fields(s, p2, ')') {
        Ok(fp) => fp,
        Err(err) => {
            assert forall|t: int, f: FunctionDefinition, a: int|
                function_head_end(s@, pos as int, f) == Some(a) implies !#[trigger] function_tail_at(s@, a, t, f) by {
                if type_end(s@, pos as int, f.return_type) is Some {
                    lemma_type_end_unique(s@, pos as int, f.return_type, return_type);
                    if function_head_end(s@, pos as int, f) is Some {
                        assert(function_head_end(s@, pos as int, f) == Some(p2 as int));
                    }
                }
            }
            return Err(err);
        },
    };
    let (annotations, p4) = match parse_optional_annotations(s, p3) {
        Ok(ap) => ap,
        Err(err) => {
            assert forall|t: int, f: FunctionDefinition, a: int|
                function_head_end(s@, pos as int, f) == Some(a) implies !#[trigger] function_tail_at(s@, a, t, f) by {
                if type_end(s@, pos as int, f.return_type) is Some {
                    lemma_type_end_unique(s@, pos as int, f.return_type, return_type);
                    if function_tail_at(s@, p2 as int, t, f) {
                        let b = choose|b: int|
                            #[trigger] fields_closed_at(s@, p2 as int, b, f.fields@, ')') && match annotations_end(s@, b, f.annotations@) {
                                Some(c) => t == c,
                                None => false,
                            };
                        lemma_fields_closed_unique(s@, p2 as int, b, f.fields@, p3 as int, fields@, ')');
                    }
                }
            }
            return Err(err);
        },
    };
    let e = p4;
    let f = FunctionDefinition { return_type, name, fields, annotations, comments };
    assert(function_head_end(s@, pos as int, f) == Some(p2 as int));
    assert(fields_closed_at(s@, p2 as int, p3 as int, f.fields@, ')'));
    assert(function_tail_at(s@, p2 as int, e as int, f));
    Ok((f, e))
}

/// The keyword `w` at `pos`, when no identifier character follows it.
fn keyword_token(s: &Vec<char>, pos: usize, w: &str) -> (r: Option<usize>)
    requires
        pos <= s@.len(),
    ensures
        r matches Some(e) ==> keyword_end(s@, pos as int, w@) == Some(e as int) && e <= s@.len(),
        r is None ==> keyword_end(s@, pos as int, w@) is None,
{
    match keyword(s, pos, w) {
        Some(e) => {
            if e < s.len() && is_ident_ch(s[e]) {
                None
            } else {
                Some(e)
            }
        },
        None => None,
    }
}

/// A struct after its keyword: `name { fields }`; it fails exactly when no
/// struct body stands at `pos`.
fn parse_struct(s: &Vec<char>, pos: usize, comments: Vec<Comment>) -> (r: Result<
    (StructDefinition, usize),
    ParseError,
>)
    requires
        pos <= s@.len(),
    ensures
        r matches Ok((d, e)) ==> pos < e <= s@.len() && d.comments@ == comments@ && struct_body_at(
            s@,
            pos as int,
            e as int,
            d,
        ),
        r is Err ==> forall|t: int, d: StructDefinition| !#[trigger] struct_body_at(s@, pos as int, t, d),
{
    let (name, p) = match parse_identifier(s, pos, "expected a struct name") {
        Ok(np) => np,
        Err(err) => {
            return Err(err);
        },
    };
    let p1 = match expect_char(s, p, '{', "expected `{` after struct name") {
        Ok(p1) => p1,
        Err(err) => {
            return Err(err);
        },
    };
    let (fields, e) = match parse_fields(s, p1, '}') {
        Ok(fe) => fe,
        Err(err) => {
            return Err(err);
        },
    };
    Ok((StructDefinition { name, fields, comments }, e))
}

/// An enum after its keyword: `name { members }`; it fails exactly when no
/// enum body stands at `pos`.
fn parse_enum(s: &Vec<char>, pos: usize, comments: Vec<Comment>) -> (r: Result<
    (EnumDefinition, usize),
    ParseError,
>)
    requires
        pos <= s@.len(),
    ensures
        r matches Ok((d, e)) ==> pos < e <= s@.len() && d.comments@ == comments@ && enum_body_at(
            s@,
            pos as int,
            e as int,
            d,
        ),
        r is Err ==> forall|t: int, d: EnumDefinition| !#[trigger] enum_body_at(s@, pos as int, t, d),
{
    let (name, p) = match parse_identifier(s, pos, "expected an enum name") {
        Ok(np) => np,
        Err(err) => {
            return Err(err);
        },
    };
    let p1 = match expect_char(s, p, '{', "expected `{` after enum name") {
        Ok(p1) => p1,
        Err(err) => {
            return Err(err);
        },
    };
    let (members, e) = match parse_members(s, p1, '}') {
        Ok(me) => me,
        Err(err) => {
            return Err(err);
        },
    };
    Ok((EnumDefinition { name, members, comments }, e))
}

/// A service after its keyword: `name { functions }`; it fails exactly when
/// no service body stands at `pos`.
fn parse_service(s: &Vec<char>, pos: usize, comments: Vec<Comment>) -> (r: Result<
    (ServiceDefinition, usize),
    ParseError,
>)
    requires
        pos <= s@.len(),
    ensures
        r matches Ok((d, e)) ==> pos < e <= s@.len() && d.comments@ == comments@
            && service_body_at(s@, pos as int, e as int, d),
        r is Err ==> forall|t: int, d: ServiceDefinition| !#[trigger] service_body_at(s@, pos as int, t, d),
{
    let (name, p) = match parse_identifier(s, pos, "expected a service name") {
        Ok(np) => np,
        Err(err) => {
            return Err(err);
        },
    };
    let p1 = match expect_char(s, p, '{', "expected `{` after service name") {
        Ok(p1) => p1,
        Err(err) => {
            return Err(err);
        },
    };
    let (functions, e) = match parse_functions(s, p1, '}') {
        Ok(fe) => fe,
        Err(err) => {
            return Err(err);
        },
    };
    Ok((ServiceDefinition { name, functions, comments }, e))
}

/// One top-level definition at `pos`, after its leading comments; it fails
/// exactly when no definition stands at `pos`.
fn parse_definition(s: &Vec<char>, pos: usize, comments: Vec<Comment>) -> (r: Result<
    (TopDefinition, usize),
    ParseError,
>)
    requires
        pos <= s@.len(),
    ensures
        r matches Ok((d, e)) ==> pos < e <= s@.len() && definition_body_at(
            s@,
            pos as int,
            e as int,
            d,
            comments@,
        ),
        r is Err ==> forall|t: int, d: TopDefinition, cs: Seq<Comment>|
            !#[trigger] definition_body_at(s@, pos as int, t, d, cs),
{
    proof {
        reveal_strlit("namespace");
        reveal_strlit("include");
        reveal_strlit("struct");
        reveal_strlit("enum");
        reveal_strlit("service");
        lemma_definition_keyword_chars(s@, pos as int);
    }
    if let Some(p) = keyword_token(s, pos, "namespace") {
        let (scope, p1) = match parse_identifier(s, p, "expected a namespace scope") {
            Ok(x) => x,
            Err(err) => {
                return Err(err);
            },
        };
        let (name, p2) = match parse_identifier(s, p1, "expected a namespace name") {
            Ok(x) => x,
            Err(err) => {
                return Err(err);
            },
        };
        return Ok((TopDefinition::Namespace(NamespaceDefinition { scope, name }), p2));
    }
    if let Some(p) = keyword_token(s, pos, "include") {
        let (path, p1) = match parse_string_literal(s, p) {
            Ok(x) => x,
            Err(err) => {
                return Err(err);
            },
        };
        return Ok((TopDefinition::Include(IncludeDefinition { path }), p1));
    }
    if let Some(p) = keyword_token(s, pos, "struct") {
        let (d, e) = match parse_struct(s, p, comments) {
            Ok(x) => x,
            Err(err) => {
                return Err(err);
            },
        };
        return Ok((TopDefinition::Struct(d), e));
    }
    if let Some(p) = keyword_token(s, pos, "enum") {
        let (d, e) = match parse_enum(s, p, comments) {
            Ok(x) => x,
            Err(err) => {
                return Err(err);
            },
        };
        return Ok((TopDefinition::Enum(d), e));
    }
    if let Some(p) = keyword_token(s, pos, "service") {
        let (d, e) = match parse_service(s, p, comments) {
            Ok(x) => x,
            Err(err) => {
                return Err(err);
            },
        };
        return Ok((TopDefinition::Service(d), e));
    }
    error("expected `namespace`, `include`, `struct`, `enum` or `service`", pos)
}

/// Parses a whole document: definitions up to the end of the text, where
/// only white space and comments may follow the last one. A document it
/// returns spells the text by the grammar of `document_at`; it fails exactly
/// when no document spells the text.
pub fn parse_document(s: &Vec<char>) -> (r: Result<ThriftDocument, ParseError>)
    ensures
        r matches Ok(d) ==> document_at(s@, d),
        r is Err ==> forall|d: ThriftDocument| !#[trigger] document_at(s@, d),
        s@.len() == 0 ==> (r matches Ok(d) && d.body@.len() == 0),
{
    let mut body: Vec<TopDefinition> = Vec::new();
    let mut p: usize = 0;
    loop
        invariant
            p <= s@.len(),
            s@.len() == 0 ==> p == 0 && body@.len() == 0,
            definitions_at(s@, 0, p as int, body@),
        decreases s@.len() - p,
    {
        let (comments, q) = match parse_comments(s, p) {
            Ok(x) => x,
            Err(err) => {
                proof {
                    assert forall|e: int, d: TopDefinition| !#[trigger] definition_at(s@, p as int, e, d) by {
                        if definition_at(s@, p as int, e, d) {
                            let (c1, p1) = choose|c: Seq<Comment>, pp: int|
                                #[trigger] comments_at(s@, p as int, pp, c) && definition_body_at(s@, pp, e, d, c);
                        }
                    }
                    lemma_document_stuck(s@, p as int, body@);
                }
                return Err(err);
            },
        };
        if q == s.len() {
            let d = ThriftDocument { body };
            assert(definitions_at(s@, 0, p as int, d.body@));
            assert(comments_at(s@, p as int, s@.len() as int, comments@));
            return Ok(d);
        }
        let ghost cs = comments@;
        let (d, e) = match parse_definition(s, q, comments) {
            Ok(x) => x,
            Err(err) => {
                proof {
                    assert forall|e: int, d: TopDefinition| !#[trigger] definition_at(s@, p as int, e, d) by {
                        if definition_at(s@, p as int, e, d) {
                            let (c1, p1) = choose|c: Seq<Comment>, pp: int|
                                #[trigger] comments_at(s@, p as int, pp, c) && definition_body_at(s@, pp, e, d, c);
                            lemma_comments_unique(s@, p as int, p1, c1, q as int, cs);
                        }
                    }
                    assert forall|c2: Seq<Comment>| !#[trigger] comments_at(s@, p as int, s@.len() as int, c2) by {
                        if comments_at(s@, p as int, s@.len() as int, c2) {
                            lemma_comments_unique(s@, p as int, s@.len() as int, c2, q as int, cs);
                        }
                    }
                    lemma_document_stuck(s@, p as int, body@);
                }
                return Err(err);
            },
        };
        assert(definition_at(s@, p as int, e as int, d)) by {
            assert(comments_at(s@, p as int, q as int, cs));
        }
        let ghost prev = body@;
        let ghost dg = d;
        body.push(d);
        assert(body@.drop_last() =~= prev);
        assert(body@.last() == dg);
        assert(definition_at(s@, p as int, e as int, body@.last()));
        p = e;
    }
}

/// A parser over one IDL text.
pub struct Parser {
    pub source: Vec<char>,
}

impl Parser {
    pub fn new(code: &str) -> (r: Parser)
        ensures
            r.source@ == code@,
    {
        Parser { source: chars_of(code) }
    }

    /// Parses the whole text into a document that spells it by the grammar of
    /// `document_at`; the first error ends the parse.
    pub fn parse(&self) -> (r: Result<ThriftDocument, ParseError>)
        ensures
            r matches Ok(d) ==> document_at(self.source@, d),
            r is Err ==> forall|d: ThriftDocument| !#[trigger] document_at(self.source@, d),
            self.source@.len() == 0 ==> (r matches Ok(d) && d.body@.len() == 0),
    {
        parse_document(&self.source)
    }
}

/// Parses `text` as one type, with nothing but white space around it. It
/// fails exactly when `text` is not such a type.
pub fn thrift_type(text: &str) -> (r: Result<ThriftType, ParseError>)
    ensures
        r matches Ok(t) ==> (type_end(text@, 0, t) matches Some(e) && ws_end(text@, e)
            == text@.len()),
        r is Err ==> forall|t: ThriftType|
            !(#[trigger] type_end(text@, 0, t) matches Some(e) && ws_end(text@, e) == text@.len()),
{
    let s = chars_of(text);
    match parse_type(&s, 0) {
        Err(err) => Err(err),
        Ok((t, e)) => {
            let rest = skip_ws(&s, e);
            if rest == s.len() {
                Ok(t)
            } else {
                proof {
                    assert forall|t2: ThriftType|
                        !(#[trigger] type_end(text@, 0, t2) matches Some(e2) && ws_end(text@, e2)
                            == text@.len()) by {
                        if type_end(text@, 0, t2) is Some {
                            lemma_type_end_unique(text@, 0, t2, t);
                        }
                    }
                }
                error("expected the end of the type", rest)
            }
        },
    }
}

// ---------------------------------------------------------------------------
// One text, one output
// ---------------------------------------------------------------------------

proof fn lemma_type_text_unique(s: Seq<char>, pos: int, t1: ThriftType, t2: ThriftType)
    requires
        type_end(s, pos, t1) is Some,
        type_end(s, pos, t2) is Some,
    ensures
        ts_type(t1) == ts_type(t2),
    decreases t1,
{
    let p = ws_end(s, pos);
    lemma_type_keyword_chars(s, p);
    match t1 {
        ThriftType::List(a) => match t2 {
            ThriftType::List(b) => {
                lemma_type_text_unique(s, p + "list<"@.len(), *a, *b);
            },
            _ => {},
        },
        ThriftType::MapOf(k1, v1) => match t2 {
            ThriftType::MapOf(k2, v2) => {
                lemma_type_text_unique(s, p + "map<"@.len(), *k1, *k2);
                lemma_type_end_unique(s, p + "map<"@.len(), *k1, *k2);
                let q = type_end(s, p + "map<"@.len(), *k1)->0;
                let q1 = closing_end(s, q, ',')->0;
                lemma_type_text_unique(s, q1, *v1, *v2);
            },
            _ => {},
        },
        _ => {},
    }
}

proof fn lemma_comment_text_unique(s: Seq<char>, m: int, e1: int, c1: Comment, e2: int, c2: Comment)
    requires
        comment_at(s, m, e1, c1),
        comment_at(s, m, e2, c2),
    ensures
        comment_lines(c1) == comment_lines(c2),
        c1 is Line <==> c2 is Line,
{
    lemma_comment_start(s, m, e1, c1);
    lemma_comment_start(s, m, e2, c2);
    match c1 {
        Comment::Line(t1) => {
            if let Comment::Line(t2) = c2 {
                assert(comment_lines(c1) =~= comment_lines(c2));
            }
        },
        Comment::Block(l1) => {
            if let Comment::Block(l2) = c2 {
                assert(l1@.map_values(|l: String| l@) =~= views(l1@));
                assert(l2@.map_values(|l: String| l@) =~= views(l2@));
            }
        },
    }
}

proof fn lemma_comments_lines_append(a: Seq<Comment>, b: Seq<Comment>)
    ensures
        comments_lines(a + b) == comments_lines(a) + comments_lines(b),
    decreases b.len(),
{
    if b.len() == 0 {
        assert(a + b =~= a);
        assert(comments_lines(a) + comments_lines(b) =~= comments_lines(a));
    } else {
        lemma_comments_lines_append(a, b.drop_last());
        assert((a + b).drop_last() =~= a + b.drop_last());
        assert(comments_lines(a + b) =~= comments_lines(a) + comments_lines(b));
    }
}

proof fn lemma_comments_run_text(s: Seq<char>, from: int, t1: int, c1: Seq<Comment>, t2: int, c2: Seq<Comment>)
    requires
        comments_run(s, from, t1, c1),
        comments_run(s, from, t2, c2),
        c1.len() == c2.len(),
    ensures
        comments_lines(c1) == comments_lines(c2),
    decreases c1.len(),
{
    if c1.len() > 0 {
        let (m1, e1) = choose|mid: int, e: int|
            comments_run(s, from, mid, c1.drop_last()) && #[trigger] comment_at(s, mid, e, c1.last())
                && t1 == ws_end(s, e);
        let (m2, e2) = choose|mid: int, e: int|
            comments_run(s, from, mid, c2.drop_last()) && #[trigger] comment_at(s, mid, e, c2.last())
                && t2 == ws_end(s, e);
        lemma_comments_run_text(s, from, m1, c1.drop_last(), m2, c2.drop_last());
        lemma_comments_run_unique(s, from, m1, c1.drop_last(), m2, c2.drop_last());
        lemma_comment_text_unique(s, m1, e1, c1.last(), e2, c2.last());
    }
}

/// Comments read from one place give one text.
proof fn lemma_comments_text(s: Seq<char>, from: int, t1: int, c1: Seq<Comment>, t2: int, c2: Seq<Comment>)
    requires
        comments_at(s, from, t1, c1),
        comments_at(s, from, t2, c2),
    ensures
        comments_lines(c1) == comments_lines(c2),
        t1 == t2,
        c1.len() == c2.len(),
{
    lemma_comments_unique(s, from, t1, c1, t2, c2);
    lemma_comments_run_text(s, from, t1, c1, t2, c2);
}

proof fn lemma_annotation_list_text(s: Seq<char>, p0: int, a: Seq<Annotation>, b: Seq<Annotation>)
    requires
        a.len() == b.len(),
        annotation_list_end(s, p0, a) is Some,
        annotation_list_end(s, p0, b) is Some,
    ensures
        annotation_lines(a) == annotation_lines(b),
    decreases a.len(),
{
    if a.len() == 1 {
        lemma_string_end_unique(s, closing_end(s, named_end(s, p0, a[0].name@)->0, '=')->0, a[0].value@, b[0].value@);
        assert(a.drop_last() =~= Seq::<Annotation>::empty());
        assert(b.drop_last() =~= Seq::<Annotation>::empty());
        assert(a.last() == a[0] && b.last() == b[0]);
    } else if a.len() > 1 {
        lemma_annotation_list_text(s, p0, a.drop_last(), b.drop_last());
        lemma_annotation_list_align(s, p0, a.drop_last(), b.drop_last());
        assert(b.drop_last().take(a.drop_last().len() as int) =~= b.drop_last());
        let q = annotation_list_end(s, p0, a.drop_last())->0;
        let q1 = closing_end(s, q, ',')->0;
        let e = named_end(s, q1, a.last().name@)->0;
        lemma_string_end_unique(s, closing_end(s, e, '=')->0, a.last().value@, b.last().value@);
    }
}

/// Annotations read from one place give one text.
proof fn lemma_annotations_text(s: Seq<char>, pos: int, a1: Seq<Annotation>, a2: Seq<Annotation>)
    requires
        annotations_end(s, pos, a1) is Some,
        annotations_end(s, pos, a2) is Some,
    ensures
        annotation_lines(a1) == annotation_lines(a2),
{
    if a1.len() > 0 && a2.len() > 0 {
        let q = closing_end(s, pos, '(')->0;
        if a1.len() < a2.len() {
            lemma_annotation_list_align(s, q, a1, a2);
            lemma_annotation_list_prefix(s, q, a2, a1.len() as int);
        } else if a2.len() < a1.len() {
            lemma_annotation_list_align(s, q, a2, a1);
            lemma_annotation_list_prefix(s, q, a1, a2.len() as int);
        } else {
            lemma_annotation_list_text(s, q, a1, a2);
        }
    } else {
        assert(annotation_lines(a1) =~= annotation_lines(a2));
    }
}

/// What the generator reads of a field, alike for two fields.
pub open spec fn same_field(f1: FieldDefinition, f2: FieldDefinition) -> bool {
    &&& f1.id@ == f2.id@
    &&& f1.requiredness == f2.requiredness
    &&& ts_type(f1.field_type) == ts_type(f2.field_type)
    &&& f1.name@ == f2.name@
    &&& annotation_lines(f1.annotations@) == annotation_lines(f2.annotations@)
    &&& comments_lines(f1.comments@) == comments_lines(f2.comments@)
}

proof fn lemma_requiredness_same(s: Seq<char>, p: int, r1: Requiredness, r2: Requiredness)
    requires
        requiredness_end(s, p, r1) is Some,
        requiredness_end(s, p, r2) is Some,
    ensures
        r1 == r2,
{
    reveal_strlit("optional");
    reveal_strlit("required");
    if modifier_end(s, p, "optional"@) is Some && modifier_end(s, p, "required"@) is Some {
        lemma_word_chars(s, p, "optional"@);
        lemma_word_chars(s, p, "required"@);
        assert("optional"@[0] == 'o' && "required"@[0] == 'r');
    }
}

proof fn lemma_field_text_unique(s: Seq<char>, m: int, e1: int, f1: FieldDefinition, e2: int, f2: FieldDefinition)
    requires
        field_at(s, m, e1, f1),
        field_at(s, m, e2, f2),
    ensures
        same_field(f1, f2),
{
    let (n1, p1) = choose|n: int, p: int|
        0 <= n <= f1.comments@.len() && #[trigger] comments_at(s, m, p, f1.comments@.take(n))
            && (field_core_end(s, p, f1) matches Some(q) && tail_end(s, q, f1.comments@.skip(n))
            == Some(e1));
    let (n2, p2) = choose|n: int, p: int|
        0 <= n <= f2.comments@.len() && #[trigger] comments_at(s, m, p, f2.comments@.take(n))
            && (field_core_end(s, p, f2) matches Some(q) && tail_end(s, q, f2.comments@.skip(n))
            == Some(e2));
    lemma_comments_text(s, m, p1, f1.comments@.take(n1), p2, f2.comments@.take(n2));
    let p = ws_end(s, p1);
    let d = digit_end(s, p);
    let q = closing_end(s, d, ':')->0;
    let r = ws_end(s, q);
    lemma_requiredness_same(s, r, f1.requiredness, f2.requiredness);
    let p3 = requiredness_end(s, r, f1.requiredness)->0;
    lemma_type_text_unique(s, p3, f1.field_type, f2.field_type);
    lemma_type_end_unique(s, p3, f1.field_type, f2.field_type);
    let p4 = type_end(s, p3, f1.field_type)->0;
    let p5 = named_end(s, p4, f1.name@)->0;
    lemma_annotations_text(s, p5, f1.annotations@, f2.annotations@);
    lemma_annotations_end_unique(s, p5, f1.annotations@, f2.annotations@);
    let qc = field_core_end(s, p1, f1)->0;
    let i1 = f1.comments@.skip(n1);
    let i2 = f2.comments@.skip(n2);
    let h = horizontal_end(s, qc);
    if i1.len() == 1 {
        lemma_comment_start(s, h, line_end(s, h + 2), i1[0]);
    }
    if i2.len() == 1 {
        lemma_comment_start(s, h, line_end(s, h + 2), i2[0]);
    }
    if i1.len() == 1 && i2.len() == 1 {
        lemma_comment_text_unique(s, h, line_end(s, h + 2), i1[0], line_end(s, h + 2), i2[0]);
        assert(i1.drop_last() =~= Seq::<Comment>::empty());
        assert(i2.drop_last() =~= Seq::<Comment>::empty());
        assert(i1.last() == i1[0] && i2.last() == i2[0]);
    }
    assert(comments_lines(i1) == comments_lines(i2));
    lemma_comments_lines_append(f1.comments@.take(n1), i1);
    lemma_comments_lines_append(f2.comments@.take(n2), i2);
    assert(f1.comments@.take(n1) + i1 =~= f1.comments@);
    assert(f2.comments@.take(n2) + i2 =~= f2.comments@);
}

/// Field lists of one length read from one place give one text.
proof fn lemma_fields_text(s: Seq<char>, from: int, t1: int, f1: Seq<FieldDefinition>, t2: int, f2: Seq<FieldDefinition>)
    requires
        fields_at(s, from, t1, f1),
        fields_at(s, from, t2, f2),
        f1.len() == f2.len(),
    ensures
        fields_text(f1) == fields_text(f2),
        params_text(f1) == params_text(f2),
        param_lines(f1) == param_lines(f2),
    decreases f1.len(),
{
    if f1.len() > 0 {
        let m1 = choose|mid: int|
            fields_at(s, from, mid, f1.drop_last()) && #[trigger] field_at(s, mid, t1, f1.last());
        let m2 = choose|mid: int|
            fields_at(s, from, mid, f2.drop_last()) && #[trigger] field_at(s, mid, t2, f2.last());
        lemma_fields_text(s, from, m1, f1.drop_last(), m2, f2.drop_last());
        lemma_fields_unique(s, from, m1, f1.drop_last(), m2, f2.drop_last());
        lemma_field_text_unique(s, m1, t1, f1.last(), t2, f2.last());
        if f1.len() == 1 {
            assert(f1[0] == f1.last() && f2[0] == f2.last());
        }
    }
}

proof fn lemma_fields_closed_text(
    s: Seq<char>,
    from: int,
    b1: int,
    f1: Seq<FieldDefinition>,
    b2: int,
    f2: Seq<FieldDefinition>,
    close: char,
)
    requires
        fields_closed_at(s, from, b1, f1, close),
        fields_closed_at(s, from, b2, f2, close),
        !is_digit(close),
        !is_ws(close),
    ensures
        fields_text(f1) == fields_text(f2),
        params_text(f1) == params_text(f2),
        param_lines(f1) == param_lines(f2),
{
    let m1 = choose|mid: int| #[trigger] fields_at(s, from, mid, f1) && closed_at(s, mid, b1, close);
    let m2 = choose|mid: int| #[trigger] fields_at(s, from, mid, f2) && closed_at(s, mid, b2, close);
    if f1.len() < f2.len() {
        lemma_fields_prefix(s, from, m2, f2, f1.len() as int);
        let (m, e) = choose|m: int, e: int|
            fields_at(s, from, m, f2.take(f1.len() as int)) && #[trigger] field_at(s, m, e, f2[f1.len() as int]);
        lemma_fields_unique(s, from, m1, f1, m, f2.take(f1.len() as int));
        lemma_field_not_closed(s, m, e, f2[f1.len() as int], b1, close);
    } else if f2.len() < f1.len() {
        lemma_fields_prefix(s, from, m1, f1, f2.len() as int);
        let (m, e) = choose|m: int, e: int|
            fields_at(s, from, m, f1.take(f2.len() as int)) && #[trigger] field_at(s, m, e, f1[f2.len() as int]);
        lemma_fields_unique(s, from, m2, f2, m, f1.take(f2.len() as int));
        lemma_field_not_closed(s, m, e, f1[f2.len() as int], b2, close);
    } else {
        lemma_fields_text(s, from, m1, f1, m2, f2);
    }
}

/// What the generator reads of an enum member, alike for two members.
pub open spec fn same_member(m1: EnumMember, m2: EnumMember) -> bool {
    &&& m1.name@ == m2.name@
    &&& comments_lines(m1.comments@) == comments_lines(m2.comments@)
    &&& (m1.initializer is None <==> m2.initializer is None)
    &&& (m1.initializer is Some ==> m1.initializer->0@ == m2.initializer->0@)
}

proof fn lemma_member_text_unique(s: Seq<char>, m: int, e1: int, x1: EnumMember, e2: int, x2: EnumMember)
    requires
        member_at(s, m, e1, x1),
        member_at(s, m, e2, x2),
    ensures
        same_member(x1, x2),
        forall|i: nat| #[trigger] member_text(x1, i) == member_text(x2, i),
{
    let (n1, p1) = choose|n: int, p: int|
        0 <= n <= x1.comments@.len() && #[trigger] comments_at(s, m, p, x1.comments@.take(n))
            && (member_core_end(s, p, x1) matches Some(q) && tail_end(s, q, x1.comments@.skip(n))
            == Some(e1));
    let (n2, p2) = choose|n: int, p: int|
        0 <= n <= x2.comments@.len() && #[trigger] comments_at(s, m, p, x2.comments@.take(n))
            && (member_core_end(s, p, x2) matches Some(q) && tail_end(s, q, x2.comments@.skip(n))
            == Some(e2));
    lemma_comments_text(s, m, p1, x1.comments@.take(n1), p2, x2.comments@.take(n2));
    let qc = member_core_end(s, p1, x1)->0;
    lemma_member_core_end_unique(s, p1, x1, x2);
    let i1 = x1.comments@.skip(n1);
    let i2 = x2.comments@.skip(n2);
    let h = horizontal_end(s, qc);
    if i1.len() == 1 {
        lemma_comment_start(s, h, line_end(s, h + 2), i1[0]);
    }
    if i2.len() == 1 {
        lemma_comment_start(s, h, line_end(s, h + 2), i2[0]);
    }
    if i1.len() == 1 && i2.len() == 1 {
        lemma_comment_text_unique(s, h, line_end(s, h + 2), i1[0], line_end(s, h + 2), i2[0]);
        assert(i1.drop_last() =~= Seq::<Comment>::empty());
        assert(i2.drop_last() =~= Seq::<Comment>::empty());
        assert(i1.last() == i1[0] && i2.last() == i2[0]);
    }
    assert(comments_lines(i1) == comments_lines(i2));
    lemma_comments_lines_append(x1.comments@.take(n1), i1);
    lemma_comments_lines_append(x2.comments@.take(n2), i2);
    assert(x1.comments@.take(n1) + i1 =~= x1.comments@);
    assert(x2.comments@.take(n2) + i2 =~= x2.comments@);
    assert forall|i: nat| #[trigger] member_text(x1, i) == member_text(x2, i) by {
        assert(member_value(x1, i) == member_value(x2, i));
    }
}

proof fn lemma_members_text(s: Seq<char>, from: int, t1: int, m1: Seq<EnumMember>, t2: int, m2: Seq<EnumMember>)
    requires
        members_at(s, from, t1, m1),
        members_at(s, from, t2, m2),
        m1.len() == m2.len(),
    ensures
        members_text(m1) == members_text(m2),
    decreases m1.len(),
{
    if m1.len() > 0 {
        let a1 = choose|mid: int|
            members_at(s, from, mid, m1.drop_last()) && #[trigger] member_at(s, mid, t1, m1.last());
        let a2 = choose|mid: int|
            members_at(s, from, mid, m2.drop_last()) && #[trigger] member_at(s, mid, t2, m2.last());
        lemma_members_text(s, from, a1, m1.drop_last(), a2, m2.drop_last());
        lemma_members_unique(s, from, a1, m1.drop_last(), a2, m2.drop_last());
        lemma_member_text_unique(s, a1, t1, m1.last(), t2, m2.last());
        assert(member_text(m1.last(), (m1.len() - 1) as nat) == member_text(m2.last(), (m2.len() - 1) as nat));
    }
}

proof fn lemma_members_closed_text(
    s: Seq<char>,
    from: int,
    b1: int,
    f1: Seq<EnumMember>,
    b2: int,
    f2: Seq<EnumMember>,
    close: char,
)
    requires
        members_closed_at(s, from, b1, f1, close),
        members_closed_at(s, from, b2, f2, close),
        !is_ident_char(close),
        !is_ws(close),
    ensures
        members_text(f1) == members_text(f2),
{
    let m1 = choose|mid: int| #[trigger] members_at(s, from, mid, f1) && closed_at(s, mid, b1, close);
    let m2 = choose|mid: int| #[trigger] members_at(s, from, mid, f2) && closed_at(s, mid, b2, close);
    if f1.len() < f2.len() {
        lemma_members_prefix(s, from, m2, f2, f1.len() as int);
        let (m, e) = choose|m: int, e: int|
            members_at(s, from, m, f2.take(f1.len() as int)) && #[trigger] member_at(s, m, e, f2[f1.len() as int]);
        lemma_members_unique(s, from, m1, f1, m, f2.take(f1.len() as int));
        lemma_member_not_closed(s, m, e, f2[f1.len() as int], b1, close);
    } else if f2.len() < f1.len() {
        lemma_members_prefix(s, from, m1, f1, f2.len() as int);
        let (m, e) = choose|m: int, e: int|
            members_at(s, from, m, f1.take(f2.len() as int)) && #[trigger] member_at(s, m, e, f1[f2.len() as int]);
        lemma_members_unique(s, from, m2, f2, m, f1.take(f2.len() as int));
        lemma_member_not_closed(s, m, e, f1[f2.len() as int], b2, close);
    } else {
        lemma_members_text(s, from, m1, f1, m2, f2);
    }
}

proof fn lemma_function_text_unique(s: Seq<char>, from: int, e1: int, f1: FunctionDefinition, e2: int, f2: FunctionDefinition)
    requires
        function_at(s, from, e1, f1),
        function_at(s, from, e2, f2),
    ensures
        function_text(f1) == function_text(f2),
{
    let (p1, a1) = choose|p: int, a: int|
        #[trigger] comments_at(s, from, p, f1.comments@) && function_head_end(s, p, f1) == Some(a)
            && #[trigger] function_tail_at(s, a, e1, f1);
    let (p2, a2) = choose|p: int, a: int|
        #[trigger] comments_at(s, from, p, f2.comments@) && function_head_end(s, p, f2) == Some(a)
            && #[trigger] function_tail_at(s, a, e2, f2);
    lemma_comments_text(s, from, p1, f1.comments@, p2, f2.comments@);
    lemma_type_end_unique(s, p1, f1.return_type, f2.return_type);
    lemma_type_text_unique(s, p1, f1.return_type, f2.return_type);
    let b1 = choose|b: int|
        #[trigger] fields_closed_at(s, a1, b, f1.fields@, ')') && match annotations_end(s, b, f1.annotations@) {
            Some(c) => e1 == c,
            None => false,
        };
    let b2 = choose|b: int|
        #[trigger] fields_closed_at(s, a1, b, f2.fields@, ')') && match annotations_end(s, b, f2.annotations@) {
            Some(c) => e2 == c,
            None => false,
        };
    lemma_fields_closed_unique(s, a1, b1, f1.fields@, b2, f2.fields@, ')');
    lemma_fields_closed_text(s, a1, b1, f1.fields@, b2, f2.fields@, ')');
    lemma_annotations_text(s, b1, f1.annotations@, f2.annotations@);
}

proof fn lemma_functions_text(s: Seq<char>, from: int, t1: int, f1: Seq<FunctionDefinition>, t2: int, f2: Seq<FunctionDefinition>)
    requires
        functions_at(s, from, t1, f1),
        functions_at(s, from, t2, f2),
        f1.len() == f2.len(),
    ensures
        functions_text(f1) == functions_text(f2),
    decreases f1.len(),
{
    if f1.len() > 0 {
        let m1 = choose|mid: int|
            functions_at(s, from, mid, f1.drop_last()) && #[trigger] function_at(s, mid, t1, f1.last());
        let m2 = choose|mid: int|
            functions_at(s, from, mid, f2.drop_last()) && #[trigger] function_at(s, mid, t2, f2.last());
        lemma_functions_text(s, from, m1, f1.drop_last(), m2, f2.drop_last());
        lemma_functions_unique(s, from, m1, f1.drop_last(), m2, f2.drop_last());
        lemma_function_text_unique(s, m1, t1, f1.last(), t2, f2.last());
    }
}

proof fn lemma_functions_closed_text(
    s: Seq<char>,
    from: int,
    b1: int,
    f1: Seq<FunctionDefinition>,
    b2: int,
    f2: Seq<FunctionDefinition>,
    close: char,
)
    requires
        functions_closed_at(s, from, b1, f1, close),
        functions_closed_at(s, from, b2, f2, close),
        !is_ident_char(close),
        !is_ws(close),
    ensures
        functions_text(f1) == functions_text(f2),
{
    let m1 = choose|mid: int| #[trigger] functions_at(s, from, mid, f1) && closed_at(s, mid, b1, close);
    let m2 = choose|mid: int| #[trigger] functions_at(s, from, mid, f2) && closed_at(s, mid, b2, close);
    if f1.len() < f2.len() {
        lemma_functions_prefix(s, from, m2, f2, f1.len() as int);
        let (m, e) = choose|m: int, e: int|
            functions_at(s, from, m, f2.take(f1.len() as int)) && #[trigger] function_at(s, m, e, f2[f1.len() as int]);
        lemma_functions_unique(s, from, m1, f1, m, f2.take(f1.len() as int));
        lemma_function_not_closed(s, m, e, f2[f1.len() as int], b1, close);
    } else if f2.len() < f1.len() {
        lemma_functions_prefix(s, from, m1, f1, f2.len() as int);
        let (m, e) = choose|m: int, e: int|
            functions_at(s, from, m, f1.take(f2.len() as int)) && #[trigger] function_at(s, m, e, f1[f2.len() as int]);
        lemma_functions_unique(s, from, m2, f2, m, f1.take(f2.len() as int));
        lemma_function_not_closed(s, m, e, f1[f2.len() as int], b2, close);
    } else {
        lemma_functions_text(s, from, m1, f1, m2, f2);
    }
}

/// The include path a definition contributes, alike for two definitions.
pub open spec fn same_include(d1: TopDefinition, d2: TopDefinition) -> bool {
    &&& (d1 is Include <==> d2 is Include)
    &&& (d1 matches TopDefinition::Include(i1) ==> d2 matches TopDefinition::Include(i2)
        && i1.path@ == i2.path@)
}

proof fn lemma_definition_text_unique(s: Seq<char>, from: int, e1: int, d1: TopDefinition, e2: int, d2: TopDefinition)
    requires
        definition_at(s, from, e1, d1),
        definition_at(s, from, e2, d2),
    ensures
        top_text(d1) == top_text(d2),
        same_include(d1, d2),
{
    let (c1, p1) = choose|cs: Seq<Comment>, p: int|
        #[trigger] comments_at(s, from, p, cs) && definition_body_at(s, p, e1, d1, cs);
    let (c2, p2) = choose|cs: Seq<Comment>, p: int|
        #[trigger] comments_at(s, from, p, cs) && definition_body_at(s, p, e2, d2, cs);
    lemma_comments_text(s, from, p1, c1, p2, c2);
    let p = p1;
    lemma_definition_keyword_chars(s, p);
    match d1 {
        TopDefinition::Include(i1) => {
            if let TopDefinition::Include(i2) = d2 {
                let k = keyword_end(s, p, "include"@)->0;
                lemma_string_end_unique(s, k, i1.path@, i2.path@);
            }
        },
        TopDefinition::Struct(x1) => {
            if let TopDefinition::Struct(x2) = d2 {
                let k = keyword_end(s, p, "struct"@)->0;
                let e = named_end(s, k, x1.name@)->0;
                let q = closing_end(s, e, '{')->0;
                lemma_fields_closed_text(s, q, e1, x1.fields@, e2, x2.fields@, '}');
            }
        },
        TopDefinition::Enum(x1) => {
            if let TopDefinition::Enum(x2) = d2 {
                let k = keyword_end(s, p, "enum"@)->0;
                let e = named_end(s, k, x1.name@)->0;
                let q = closing_end(s, e, '{')->0;
                lemma_members_closed_text(s, q, e1, x1.members@, e2, x2.members@, '}');
            }
        },
        TopDefinition::Service(x1) => {
            if let TopDefinition::Service(x2) = d2 {
                let k = keyword_end(s, p, "service"@)->0;
                let e = named_end(s, k, x1.name@)->0;
                let q = closing_end(s, e, '{')->0;
                lemma_functions_closed_text(s, q, e1, x1.functions@, e2, x2.functions@, '}');
            }
        },
        _ => {},
    }
}

proof fn lemma_definitions_text(s: Seq<char>, from: int, t1: int, d1: Seq<TopDefinition>, t2: int, d2: Seq<TopDefinition>)
    requires
        definitions_at(s, from, t1, d1),
        definitions_at(s, from, t2, d2),
        d1.len() == d2.len(),
    ensures
        definitions_text(d1) == definitions_text(d2),
        include_set(d1) == include_set(d2),
    decreases d1.len(),
{
    if d1.len() > 0 {
        let m1 = choose|mid: int|
            definitions_at(s, from, mid, d1.drop_last()) && #[trigger] definition_at(s, mid, t1, d1.last());
        let m2 = choose|mid: int|
            definitions_at(s, from, mid, d2.drop_last()) && #[trigger] definition_at(s, mid, t2, d2.last());
        lemma_definitions_text(s, from, m1, d1.drop_last(), m2, d2.drop_last());
        lemma_definitions_unique(s, from, m1, d1.drop_last(), m2, d2.drop_last());
        lemma_definition_text_unique(s, m1, t1, d1.last(), t2, d2.last());
        if d1.len() == 1 {
            assert(d1[0] == d1.last() && d2[0] == d2.last());
        }
    }
}

/// All documents that spell one text generate one output, with one set of
/// include paths: the compiled result is a function of the text.
pub proof fn lemma_document_output_unique(s: Seq<char>, d1: ThriftDocument, d2: ThriftDocument)
    requires
        document_at(s, d1),
        document_at(s, d2),
    ensures
        document_text(d1) == document_text(d2),
        include_paths(d1) == include_paths(d2),
{
    let (m1, c1) = choose|mid: int, cs: Seq<Comment>|
        #[trigger] definitions_at(s, 0, mid, d1.body@) && #[trigger] comments_at(s, mid, s.len() as int, cs);
    let (m2, c2) = choose|mid: int, cs: Seq<Comment>|
        #[trigger] definitions_at(s, 0, mid, d2.body@) && #[trigger] comments_at(s, mid, s.len() as int, cs);
    let b1 = d1.body@;
    let b2 = d2.body@;
    if b1.len() < b2.len() {
        lemma_definitions_prefix(s, 0, m2, b2, b1.len() as int);
        let (m, e) = choose|m: int, e: int|
            definitions_at(s, 0, m, b2.take(b1.len() as int)) && #[trigger] definition_at(s, m, e, b2[b1.len() as int]);
        lemma_definitions_unique(s, 0, m1, b1, m, b2.take(b1.len() as int));
        lemma_definition_not_final(s, m, e, b2[b1.len() as int], c1);
    } else if b2.len() < b1.len() {
        lemma_definitions_prefix(s, 0, m1, b1, b2.len() as int);
        let (m, e) = choose|m: int, e: int|
            definitions_at(s, 0, m, b1.take(b2.len() as int)) && #[trigger] definition_at(s, m, e, b1[b2.len() as int]);
        lemma_definitions_unique(s, 0, m2, b2, m, b1.take(b2.len() as int));
        lemma_definition_not_final(s, m, e, b1[b2.len() as int], c2);
    } else {
        lemma_definitions_text(s, 0, m1, b1, m2, b2);
    }
}

} // verus!
