use vstd::prelude::*;

use crate::ast::{
    EnumMember, FieldDefinition, FunctionDefinition, IncludeDefinition, NamespaceDefinition,
    ThriftDocument, TopDefinition,
};
use crate::generate::{
    document_text, generate, segment_start, without_extension, GenerateOptions,
};
use crate::parse::{document_at, lemma_document_output_unique, ParseError, Parser};
use crate::text::{decimal, views};
use crate::visit::{
    definition_walked, definitions_walked, fields_walked, functions_walked, members_walked,
    visit_document, Visit,
};

verus! {

/// The paths that the include directives among `ds` name.
pub open spec fn include_set(ds: Seq<TopDefinition>) -> Set<Seq<char>>
    decreases ds.len(),
{
    if ds.len() == 0 {
        Set::empty()
    } else {
        match ds.last() {
            TopDefinition::Include(i) => include_set(ds.drop_last()).insert(i.path@),
            _ => include_set(ds.drop_last()),
        }
    }
}

/// The paths that the include directives of a document name.
pub open spec fn include_paths(d: ThriftDocument) -> Set<Seq<char>> {
    include_set(d.body@)
}

/// A set of paths, held as a list without repeats.
pub struct PathSet {
    pub items: Vec<String>,
}

impl PathSet {
    pub open spec fn wf(&self) -> bool {
        views(self.items@).no_duplicates()
    }

    /// The paths held.
    pub open spec fn contents(&self) -> Set<Seq<char>> {
        views(self.items@).to_set()
    }

    pub fn new() -> (r: PathSet)
        ensures
            r.wf(),
            r.contents() == Set::<Seq<char>>::empty(),
    {
        let r = PathSet { items: Vec::new() };
        assert(views(r.items@) =~= Seq::<Seq<char>>::empty());
        r
    }

    /// Adds `path`; says whether it was new.
    pub fn insert(&mut self, path: &String) -> (r: bool)
        ensures
            r == !old(self).contents().contains(path@),
            old(self).wf() ==> final(self).wf(),
            final(self).contents() == old(self).contents().insert(path@),
    {
        let mut i: usize = 0;
        while i < self.items.len()
            invariant
                i <= self.items@.len(),
                forall|k: int| 0 <= k < i ==> self.items@[k]@ != path@,
            decreases self.items@.len() - i,
        {
            if self.items[i] == *path {
                assert(views(self.items@)[i as int] == path@);
                assert(self.contents() =~= self.contents().insert(path@));
                return false;
            }
            i += 1;
        }
        let ghost before = views(self.items@);
        self.items.push(path.clone());
        assert(views(self.items@) =~= before.push(path@));
        proof {
            assert(!before.contains(path@)) by {
                if before.contains(path@) {
                    let k = choose|k: int| 0 <= k < before.len() && before[k] == path@;
                    assert(self.items@[k]@ == path@);
                }
            }
            before.lemma_push_to_set_commute(path@);
        }
        true
    }
}

/// Collects the include paths of a document, each once.
pub struct DepsVisitor {
    pub deps: PathSet,
}

impl DepsVisitor {
    pub open spec fn wf(&self) -> bool {
        self.deps.wf()
    }

    /// The paths collected so far.
    pub open spec fn paths(&self) -> Set<Seq<char>> {
        self.deps.contents()
    }

    pub fn new() -> (r: DepsVisitor)
        ensures
            r.wf(),
            r.paths() == Set::<Seq<char>>::empty(),
    {
        DepsVisitor { deps: PathSet::new() }
    }

    /// Records `path`, unless it is already there.
    pub fn record(&mut self, path: &String)
        ensures
            old(self).wf() ==> final(self).wf(),
            final(self).paths() == old(self).paths().insert(path@),
    {
        self.deps.insert(path);
    }
}

impl Visit for DepsVisitor {
    open spec fn namespace_step(pre: Self, d: NamespaceDefinition, post: Self, d2: NamespaceDefinition) -> bool {
        post == pre && d2 == d
    }

    open spec fn include_step(pre: Self, d: IncludeDefinition, post: Self, d2: IncludeDefinition) -> bool {
        &&& d2 == d
        &&& post.paths() == pre.paths().insert(d.path@)
        &&& (pre.wf() ==> post.wf())
    }

    open spec fn field_step(pre: Self, d: FieldDefinition, post: Self, d2: FieldDefinition) -> bool {
        post == pre && d2 == d
    }

    open spec fn member_step(pre: Self, d: EnumMember, post: Self, d2: EnumMember) -> bool {
        post == pre && d2 == d
    }

    open spec fn function_step(pre: Self, d: FunctionDefinition, post: Self, d2: FunctionDefinition) -> bool {
        post == pre && d2 == d
    }

    fn visit_namespace_definition(&mut self, namespace_definition: &mut NamespaceDefinition) {
    }

    fn visit_include_definition(&mut self, include_definition: &mut IncludeDefinition) {
        self.record(&include_definition.path);
    }

    fn visit_struct_field_definition(&mut self, field_definition: &mut FieldDefinition) {
    }

    fn visit_enum_member(&mut self, enum_member: &mut EnumMember) {
    }

    fn visit_function_definition(&mut self, function_definition: &mut FunctionDefinition) {
    }
}

proof fn lemma_deps_fields(pre: DepsVisitor, fs: Seq<FieldDefinition>, post: DepsVisitor, gs: Seq<FieldDefinition>)
    requires
        fields_walked(pre, fs, post, gs),
    ensures
        post == pre,
    decreases fs.len(),
{
    if fs.len() > 0 {
        let mid = choose|mid: DepsVisitor|
            fields_walked(pre, fs.drop_last(), mid, gs.drop_last()) && #[trigger] DepsVisitor::field_step(
                mid,
                fs.last(),
                post,
                gs.last(),
            );
        lemma_deps_fields(pre, fs.drop_last(), mid, gs.drop_last());
    }
}

proof fn lemma_deps_members(pre: DepsVisitor, ms: Seq<EnumMember>, post: DepsVisitor, ns: Seq<EnumMember>)
    requires
        members_walked(pre, ms, post, ns),
    ensures
        post == pre,
    decreases ms.len(),
{
    if ms.len() > 0 {
        let mid = choose|mid: DepsVisitor|
            members_walked(pre, ms.drop_last(), mid, ns.drop_last()) && #[trigger] DepsVisitor::member_step(
                mid,
                ms.last(),
                post,
                ns.last(),
            );
        lemma_deps_members(pre, ms.drop_last(), mid, ns.drop_last());
    }
}

proof fn lemma_deps_functions(pre: DepsVisitor, fs: Seq<FunctionDefinition>, post: DepsVisitor, gs: Seq<FunctionDefinition>)
    requires
        functions_walked(pre, fs, post, gs),
    ensures
        post == pre,
    decreases fs.len(),
{
    if fs.len() > 0 {
        let mid = choose|mid: DepsVisitor|
            functions_walked(pre, fs.drop_last(), mid, gs.drop_last()) && #[trigger] DepsVisitor::function_step(
                mid,
                fs.last(),
                post,
                gs.last(),
            );
        lemma_deps_functions(pre, fs.drop_last(), mid, gs.drop_last());
    }
}

/// A walk of a `DepsVisitor` over definitions adds exactly their include
/// paths, and keeps the paths free of repeats.
pub proof fn lemma_deps_walk(pre: DepsVisitor, ds: Seq<TopDefinition>, post: DepsVisitor, es: Seq<TopDefinition>)
    requires
        definitions_walked(pre, ds, post, es),
    ensures
        post.paths() == pre.paths() + include_set(ds),
        pre.wf() ==> post.wf(),
    decreases ds.len(),
{
    if ds.len() == 0 {
        assert(post.paths() =~= pre.paths() + include_set(ds));
    } else {
        let mid = choose|mid: DepsVisitor|
            definitions_walked(pre, ds.drop_last(), mid, es.drop_last()) && #[trigger] definition_walked(
                mid,
                ds.last(),
                post,
                es.last(),
            );
        lemma_deps_walk(pre, ds.drop_last(), mid, es.drop_last());
        match ds.last() {
            TopDefinition::Struct(d) => {
                if let TopDefinition::Struct(d2) = es.last() {
                    lemma_deps_fields(mid, d.fields@, post, d2.fields@);
                }
            },
            TopDefinition::Enum(d) => {
                if let TopDefinition::Enum(d2) = es.last() {
                    lemma_deps_members(mid, d.members@, post, d2.members@);
                }
            },
            TopDefinition::Service(d) => {
                if let TopDefinition::Service(d2) = es.last() {
                    lemma_deps_functions(mid, d.functions@, post, d2.functions@);
                }
            },
            _ => {},
        }
        assert(post.paths() =~= pre.paths() + include_set(ds));
    }
}

// ---------------------------------------------------------------------------
// Paths
// ---------------------------------------------------------------------------

pub open spec fn is_absolute(p: Seq<char>) -> bool {
    p.len() > 0 && p[0] == '/'
}

/// `b` taken relative to the directory `a`: `b` itself when absolute, else
/// `a` and `b` with one `/` between them.
pub open spec fn joined(a: Seq<char>, b: Seq<char>) -> Seq<char> {
    if is_absolute(b) {
        b
    } else if a.len() == 0 || a.last() == '/' {
        a + b
    } else {
        a + "/"@ + b
    }
}

/// A path made absolute against the working directory `cwd`; a leading
/// `./` of a relative path is dropped.
pub open spec fn resolved_path(path: Seq<char>, cwd: Seq<char>) -> Seq<char> {
    if is_absolute(path) {
        path
    } else if path.len() >= 2 && path[0] == '.' && path[1] == '/' {
        joined(cwd, path.skip(2))
    } else {
        joined(cwd, path)
    }
}

/// `file` relative to `root`, without a leading `/`; `None` when `file`
/// does not start with `root`.
pub open spec fn relative_to(file: Seq<char>, root: Seq<char>) -> Option<Seq<char>> {
    if root.len() <= file.len() && file.take(root.len() as int) == root {
        let rest = file.skip(root.len() as int);
        if is_absolute(rest) {
            Some(rest.skip(1))
        } else {
            Some(rest)
        }
    } else {
        None
    }
}

/// Where the output of the source at `relative` goes under `out_dir`.
pub open spec fn output_path(out_dir: Seq<char>, relative: Seq<char>) -> Seq<char> {
    joined(out_dir, without_extension(relative) + ".ts"@)
}

/// The file an include `dep` of `file` names: `dep` beside `file`.
pub open spec fn include_target(file: Seq<char>, dep: Seq<char>) -> Seq<char> {
    if is_absolute(dep) {
        dep
    } else {
        file.take(segment_start(file)) + dep
    }
}

fn is_absolute_path(p: &Vec<char>) -> (r: bool)
    ensures
        r == is_absolute(p@),
{
    p.len() > 0 && p[0] == '/'
}

fn join_paths(a: &str, b: &str) -> (r: String)
    ensures
        r@ == joined(a@, b@),
{
    let av = crate::text::chars_of(a);
    let bv = crate::text::chars_of(b);
    if is_absolute_path(&bv) {
        return String::from_str(b);
    }
    let mut r = String::from_str(a);
    if !(av.len() == 0 || av[av.len() - 1] == '/') {
        r.append("/");
    }
    r.append(b);
    r
}

/// Resolves `path` against the working directory `cwd`.
pub fn resolve_path(path: &str, cwd: &str) -> (r: String)
    ensures
        r@ == resolved_path(path@, cwd@),
{
    let pv = crate::text::chars_of(path);
    if is_absolute_path(&pv) {
        return String::from_str(path);
    }
    if pv.len() >= 2 && pv[0] == '.' && pv[1] == '/' {
        let rest = crate::text::string_of(&pv, 2, pv.len());
        assert(rest@ =~= path@.skip(2));
        return join_paths(cwd, rest.as_str());
    }
    join_paths(cwd, path)
}

/// The source path of an input: taken relative to `src_dir` unless absolute.
pub fn input_path(file: &str, src_dir: &str) -> (r: String)
    ensures
        r@ == joined(src_dir@, file@),
{
    join_paths(src_dir, file)
}

/// `file` relative to `root`, without a leading `/`.
pub fn relative_path(file: &str, root: &str) -> (r: Option<String>)
    ensures
        r matches Some(x) ==> relative_to(file@, root@) == Some(x@),
        r is None ==> relative_to(file@, root@) is None,
{
    let fv = crate::text::chars_of(file);
    let rv = crate::text::chars_of(root);
    if rv.len() > fv.len() {
        return None;
    }
    let mut k: usize = 0;
    while k < rv.len()
        invariant
            fv@ == file@,
            rv@ == root@,
            rv@.len() <= fv@.len(),
            k <= rv@.len(),
            fv@.take(k as int) == rv@.take(k as int),
        decreases rv@.len() - k,
    {
        if fv[k] != rv[k] {
            assert(fv@.take(rv@.len() as int)[k as int] == fv@[k as int]);
            assert(fv@.take(rv@.len() as int) != rv@);
            return None;
        }
        k += 1;
        assert(fv@.take(k as int) =~= rv@.take(k as int));
    }
    assert(rv@.take(rv@.len() as int) =~= rv@);
    let n = rv.len();
    if n < fv.len() && fv[n] == '/' {
        let x = crate::text::string_of(&fv, n + 1, fv.len());
        assert(x@ =~= fv@.skip(n as int).skip(1));
        Some(x)
    } else {
        let x = crate::text::string_of(&fv, n, fv.len());
        assert(x@ =~= fv@.skip(n as int));
        Some(x)
    }
}

/// Where the output for the source at `relative` is written.
pub fn output_file(out_dir: &str, relative: &str) -> (r: String)
    ensures
        r@ == output_path(out_dir@, relative@),
{
    let rv = crate::text::chars_of(relative);
    let end = match crate::generate::find_extension_dot(&rv) {
        Some(d) => d,
        None => rv.len(),
    };
    proof {
        crate::generate::lemma_segment_start_bound(rv@);
    }
    let mut name = crate::text::string_of(&rv, 0, end);
    assert(name@ =~= without_extension(relative@));
    name.append(".ts");
    join_paths(out_dir, name.as_str())
}

/// The file that the include `dep` of `file` names.
pub fn include_file(file: &str, dep: &str) -> (r: String)
    ensures
        r@ == include_target(file@, dep@),
{
    let dv = crate::text::chars_of(dep);
    if is_absolute_path(&dv) {
        return String::from_str(dep);
    }
    let fv = crate::text::chars_of(file);
    let j = crate::generate::find_segment_start(&fv);
    let mut r = crate::text::string_of(&fv, 0, j);
    assert(r@ =~= fv@.take(segment_start(fv@)));
    r.append(dep);
    r
}

// ---------------------------------------------------------------------------
// The compiler
// ---------------------------------------------------------------------------

/// A build: the entry files, the source and output roots, and the options
/// handed to every generation.
pub struct Compiler {
    pub input: Vec<String>,
    pub src_dir: String,
    pub out_dir: String,
    pub options: GenerateOptions,
}

impl Compiler {
    pub fn new(input: Vec<String>, src_dir: String, out_dir: String, options: GenerateOptions) -> (r:
        Self)
        ensures
            r.input == input,
            r.src_dir == src_dir,
            r.out_dir == out_dir,
            r.options == options,
    {
        Compiler { input, src_dir, out_dir, options }
    }
}

/// The message of a file that failed to parse.
pub open spec fn failure_text(relative: Seq<char>, e: ParseError) -> Seq<char> {
    "Compiler failed: "@ + relative + ". "@ + e.message@ + " at character "@ + decimal(
        e.position as nat,
    )
}

/// The message that reports a file that failed to parse.
pub fn failure_message(relative: &str, e: &ParseError) -> (r: String)
    ensures
        r@ == failure_text(relative@, *e),
{
    let mut r = String::from_str("Compiler failed: ");
    r.append(relative);
    r.append(". ");
    let d = e.describe();
    r.append(d.as_str());
    assert(r@ =~= failure_text(relative@, *e));
    r
}

/// What one source file compiles to: its TypeScript text and the paths
/// that its includes name, each once.
pub struct FileOutput {
    pub code: String,
    pub deps: Vec<String>,
}

/// Compiles one parsed source file, whose path relative to the source root
/// is `relative`: the generated code and the include paths of the document,
/// each once; or, for a parse error, the failure message that names
/// `relative` and carries that error.
pub fn compile_parsed(
    parsed: Result<ThriftDocument, ParseError>,
    relative: &str,
    options: GenerateOptions,
) -> (r: Result<FileOutput, String>)
    ensures
        parsed matches Ok(d) ==> (r matches Ok(o) && o.code@ == document_text(d) && views(
            o.deps@,
        ).no_duplicates() && views(o.deps@).to_set() == include_paths(d)),
        parsed matches Err(e) ==> (r matches Err(m) && m@ == failure_text(relative@, e)),
{
    match parsed {
        Err(e) => Err(failure_message(relative, &e)),
        Ok(document) => {
            let text = generate(&document, options);
            let mut deps = DepsVisitor::new();
            let ghost start = deps;
            let ghost parsed_body = document.body@;
            let mut document = document;
            visit_document(&mut deps, &mut document);
            proof {
                lemma_deps_walk(start, parsed_body, deps, document.body@);
                assert(deps.paths() =~= include_set(parsed_body));
            }
            Ok(FileOutput { code: text, deps: deps.deps.items })
        },
    }
}

/// Compiles the text of one source file, whose path relative to the source
/// root is `relative`: the parser's result handed to `compile_parsed`. It
/// succeeds exactly when a document spells the text; the code and include
/// paths are then those of such a document, else the message names
/// `relative`.
pub fn compile_source(code: &str, relative: &str, options: GenerateOptions) -> (r: Result<
    FileOutput,
    String,
>)
    ensures
        r matches Ok(o) ==> exists|d: ThriftDocument|
            #[trigger] document_at(code@, d) && o.code@ == document_text(d) && views(
                o.deps@,
            ).no_duplicates() && views(o.deps@).to_set() == include_paths(d),
        r matches Err(m) ==> exists|e: ParseError| m@ == failure_text(relative@, e),
        r is Ok <==> exists|d: ThriftDocument| #[trigger] document_at(code@, d),
        r matches Ok(o) ==> forall|d: ThriftDocument|
            #[trigger] document_at(code@, d) ==> o.code@ == document_text(d) && views(
                o.deps@,
            ).to_set() == include_paths(d),
        code@.len() == 0 ==> (r matches Ok(o) && o.code@.len() == 0 && o.deps@.len() == 0),
{
    let parser = Parser::new(code);
    let parsed = parser.parse();
    let r = compile_parsed(parsed, relative, options);
    proof {
        if parsed is Ok {
            assert forall|d: ThriftDocument| #[trigger] document_at(code@, d) implies r->Ok_0.code@
                == document_text(d) && views(r->Ok_0.deps@).to_set() == include_paths(d) by {
                lemma_document_output_unique(code@, parsed->Ok_0, d);
            }
        }
        if code@.len() == 0 {
            let d = parsed->Ok_0;
            assert(d.body@ =~= Seq::<TopDefinition>::empty());
            assert(include_paths(d) =~= Set::<Seq<char>>::empty());
            let o = r->Ok_0;
            let v = views(o.deps@);
            assert(v.to_set() =~= Set::<Seq<char>>::empty());
            if v.len() > 0 {
                assert(v.to_set().contains(v[0]));
            }
        }
    }
    r
}

/// A path is admitted once: after `insert` has taken `path` into a set,
/// inserting it again reports it as seen and changes nothing, so a file
/// reached along several include chains (or round a cycle) is compiled once.
pub proof fn lemma_admitted_once(set: PathSet, after: PathSet, path: Seq<char>)
    requires
        after.contents() == set.contents().insert(path),
    ensures
        after.contents().contains(path),
        after.contents().insert(path) == after.contents(),
{
    assert(after.contents().insert(path) =~= after.contents());
}

/// Compiling one text twice gives the same code and the same include paths,
/// as each result is that of every document the text spells.
pub proof fn lemma_compile_repeatable(code: Seq<char>, first: FileOutput, second: FileOutput)
    requires
        exists|d: ThriftDocument| #[trigger] document_at(code, d),
        forall|d: ThriftDocument|
            #[trigger] document_at(code, d) ==> first.code@ == document_text(d) && views(
                first.deps@,
            ).to_set() == include_paths(d),
        forall|d: ThriftDocument|
            #[trigger] document_at(code, d) ==> second.code@ == document_text(d) && views(
                second.deps@,
            ).to_set() == include_paths(d),
    ensures
        first.code@ == second.code@,
        views(first.deps@).to_set() == views(second.deps@).to_set(),
{
    let d = choose|d: ThriftDocument| #[trigger] document_at(code, d);
}

} // verus!
