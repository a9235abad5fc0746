use vstd::prelude::*;

use crate::ast::{
    EnumDefinition, EnumMember, FieldDefinition, FunctionDefinition, IncludeDefinition,
    NamespaceDefinition, ServiceDefinition, StructDefinition, ThriftDocument, TopDefinition,
};

verus! {

/// A pass over a document, which may rewrite the nodes it is handed. Each
/// hook states, as a step relation, how it changes the pass and the node.
/// The walkers below hand every node to its hook, in source order.
pub trait Visit: Sized {
    spec fn namespace_step(
        pre: Self,
        d: NamespaceDefinition,
        post: Self,
        d2: NamespaceDefinition,
    ) -> bool;

    spec fn include_step(pre: Self, d: IncludeDefinition, post: Self, d2: IncludeDefinition) -> bool;

    spec fn field_step(pre: Self, d: FieldDefinition, post: Self, d2: FieldDefinition) -> bool;

    spec fn member_step(pre: Self, d: EnumMember, post: Self, d2: EnumMember) -> bool;

    spec fn function_step(
        pre: Self,
        d: FunctionDefinition,
        post: Self,
        d2: FunctionDefinition,
    ) -> bool;

    fn visit_namespace_definition(&mut self, namespace_definition: &mut NamespaceDefinition)
        ensures
            Self::namespace_step(
                *old(self),
                *old(namespace_definition),
                *final(self),
                *final(namespace_definition),
            ),
    ;

    fn visit_include_definition(&mut self, include_definition: &mut IncludeDefinition)
        ensures
            Self::include_step(
                *old(self),
                *old(include_definition),
                *final(self),
                *final(include_definition),
            ),
    ;

    fn visit_struct_field_definition(&mut self, field_definition: &mut FieldDefinition)
        ensures
            Self::field_step(
                *old(self),
                *old(field_definition),
                *final(self),
                *final(field_definition),
            ),
    ;

    fn visit_enum_member(&mut self, enum_member: &mut EnumMember)
        ensures
            Self::member_step(*old(self), *old(enum_member), *final(self), *final(enum_member)),
    ;

    fn visit_function_definition(&mut self, function_definition: &mut FunctionDefinition)
        ensures
            Self::function_step(
                *old(self),
                *old(function_definition),
                *final(self),
                *final(function_definition),
            ),
    ;
}

/// `post` and `gs` are what the field hooks make of `pre` and `fs`, in order.
pub open spec fn fields_walked<V: Visit>(
    pre: V,
    fs: Seq<FieldDefinition>,
    post: V,
    gs: Seq<FieldDefinition>,
) -> bool
    decreases fs.len(),
{
    if fs.len() == 0 {
        post == pre && gs.len() == 0
    } else {
        gs.len() == fs.len() && exists|mid: V|
            fields_walked(pre, fs.drop_last(), mid, gs.drop_last()) && #[trigger] V::field_step(
                mid,
                fs.last(),
                post,
                gs.last(),
            )
    }
}

pub open spec fn members_walked<V: Visit>(
    pre: V,
    ms: Seq<EnumMember>,
    post: V,
    ns: Seq<EnumMember>,
) -> bool
    decreases ms.len(),
{
    if ms.len() == 0 {
        post == pre && ns.len() == 0
    } else {
        ns.len() == ms.len() && exists|mid: V|
            members_walked(pre, ms.drop_last(), mid, ns.drop_last()) && #[trigger] V::member_step(
                mid,
                ms.last(),
                post,
                ns.last(),
            )
    }
}

pub open spec fn functions_walked<V: Visit>(
    pre: V,
    fs: Seq<FunctionDefinition>,
    post: V,
    gs: Seq<FunctionDefinition>,
) -> bool
    decreases fs.len(),
{
    if fs.len() == 0 {
        post == pre && gs.len() == 0
    } else {
        gs.len() == fs.len() && exists|mid: V|
            functions_walked(pre, fs.drop_last(), mid, gs.drop_last())
                && #[trigger] V::function_step(mid, fs.last(), post, gs.last())
    }
}

/// `post` and `d2` are what the hooks make of `pre` and one top-level
/// definition `d`; a struct, enum or service keeps its name and comments.
pub open spec fn definition_walked<V: Visit>(pre: V, d: TopDefinition, post: V, d2: TopDefinition) -> bool {
    match d {
        TopDefinition::Namespace(n) => d2 matches TopDefinition::Namespace(n2) && V::namespace_step(
            pre,
            n,
            post,
            n2,
        ),
        TopDefinition::Include(i) => d2 matches TopDefinition::Include(i2) && V::include_step(
            pre,
            i,
            post,
            i2,
        ),
        TopDefinition::Struct(s) => d2 matches TopDefinition::Struct(s2) && s2.name == s.name
            && s2.comments == s.comments && fields_walked(pre, s.fields@, post, s2.fields@),
        TopDefinition::Enum(e) => d2 matches TopDefinition::Enum(e2) && e2.name == e.name
            && e2.comments == e.comments && members_walked(pre, e.members@, post, e2.members@),
        TopDefinition::Service(s) => d2 matches TopDefinition::Service(s2) && s2.name == s.name
            && s2.comments == s.comments && functions_walked(pre, s.functions@, post, s2.functions@),
    }
}

pub open spec fn definitions_walked<V: Visit>(
    pre: V,
    ds: Seq<TopDefinition>,
    post: V,
    es: Seq<TopDefinition>,
) -> bool
    decreases ds.len(),
{
    if ds.len() == 0 {
        post == pre && es.len() == 0
    } else {
        es.len() == ds.len() && exists|mid: V|
            definitions_walked(pre, ds.drop_last(), mid, es.drop_last())
                && #[trigger] definition_walked(mid, ds.last(), post, es.last())
    }
}

/// Hands each field of a struct to the field hook, in order.
pub fn visit_struct_definition<V: Visit>(v: &mut V, struct_definition: &mut StructDefinition)
    ensures
        fields_walked(*old(v), old(struct_definition).fields@, *final(v), final(struct_definition).fields@),
        final(struct_definition).name == old(struct_definition).name,
        final(struct_definition).comments == old(struct_definition).comments,
{
    let n = struct_definition.fields.len();
    let mut i: usize = 0;
    while i < n
        invariant
            n == old(struct_definition).fields@.len(),
            n == struct_definition.fields@.len(),
            i <= n,
            struct_definition.name == old(struct_definition).name,
            struct_definition.comments == old(struct_definition).comments,
            struct_definition.fields@.skip(i as int) == old(struct_definition).fields@.skip(i as int),
            fields_walked(*old(v), old(struct_definition).fields@.take(i as int), *v, struct_definition.fields@.take(i as int)),
        decreases n - i,
    {
        let ghost mid = *v;
        let ghost before = struct_definition.fields@;
        assert(before[i as int] == before.skip(i as int)[0]);
        v.visit_struct_field_definition(&mut struct_definition.fields[i]);
        let ghost fs = old(struct_definition).fields@;
        let ghost gs = struct_definition.fields@;
        assert(fs.take(i + 1).drop_last() =~= fs.take(i as int));
        assert(gs.take(i + 1).drop_last() =~= before.take(i as int));
        assert(gs.skip(i + 1) =~= before.skip(i + 1));
        assert(before.skip(i + 1) =~= before.skip(i as int).skip(1));
        assert(fs.skip(i + 1) =~= fs.skip(i as int).skip(1));
        assert(fs[i as int] == fs.skip(i as int)[0]);
        assert(V::field_step(mid, fs.take(i + 1).last(), *v, gs.take(i + 1).last()));
        i += 1;
    }
    assert(old(struct_definition).fields@.take(n as int) =~= old(struct_definition).fields@);
    assert(struct_definition.fields@.take(n as int) =~= struct_definition.fields@);
}

/// Hands each member of an enum to the member hook, in order.
pub fn visit_enum_definition<V: Visit>(v: &mut V, enum_definition: &mut EnumDefinition)
    ensures
        members_walked(*old(v), old(enum_definition).members@, *final(v), final(enum_definition).members@),
        final(enum_definition).name == old(enum_definition).name,
        final(enum_definition).comments == old(enum_definition).comments,
{
    let n = enum_definition.members.len();
    let mut i: usize = 0;
    while i < n
        invariant
            n == old(enum_definition).members@.len(),
            n == enum_definition.members@.len(),
            i <= n,
            enum_definition.name == old(enum_definition).name,
            enum_definition.comments == old(enum_definition).comments,
            enum_definition.members@.skip(i as int) == old(enum_definition).members@.skip(i as int),
            members_walked(*old(v), old(enum_definition).members@.take(i as int), *v, enum_definition.members@.take(i as int)),
        decreases n - i,
    {
        let ghost mid = *v;
        let ghost before = enum_definition.members@;
        assert(before[i as int] == before.skip(i as int)[0]);
        v.visit_enum_member(&mut enum_definition.members[i]);
        let ghost fs = old(enum_definition).members@;
        let ghost gs = enum_definition.members@;
        assert(fs.take(i + 1).drop_last() =~= fs.take(i as int));
        assert(gs.take(i + 1).drop_last() =~= before.take(i as int));
        assert(gs.skip(i + 1) =~= before.skip(i + 1));
        assert(before.skip(i + 1) =~= before.skip(i as int).skip(1));
        assert(fs.skip(i + 1) =~= fs.skip(i as int).skip(1));
        assert(fs[i as int] == fs.skip(i as int)[0]);
        assert(V::member_step(mid, fs.take(i + 1).last(), *v, gs.take(i + 1).last()));
        i += 1;
    }
    assert(old(enum_definition).members@.take(n as int) =~= old(enum_definition).members@);
    assert(enum_definition.members@.take(n as int) =~= enum_definition.members@);
}

/// Hands each function of a service to the function hook, in order.
pub fn visit_service_definition<V: Visit>(v: &mut V, service_definition: &mut ServiceDefinition)
    ensures
        functions_walked(*old(v), old(service_definition).functions@, *final(v), final(service_definition).functions@),
        final(service_definition).name == old(service_definition).name,
        final(service_definition).comments == old(service_definition).comments,
{
    let n = service_definition.functions.len();
    let mut i: usize = 0;
    while i < n
        invariant
            n == old(service_definition).functions@.len(),
            n == service_definition.functions@.len(),
            i <= n,
            service_definition.name == old(service_definition).name,
            service_definition.comments == old(service_definition).comments,
            service_definition.functions@.skip(i as int) == old(service_definition).functions@.skip(i as int),
            functions_walked(*old(v), old(service_definition).functions@.take(i as int), *v, service_definition.functions@.take(i as int)),
        decreases n - i,
    {
        let ghost mid = *v;
        let ghost before = service_definition.functions@;
        assert(before[i as int] == before.skip(i as int)[0]);
        v.visit_function_definition(&mut service_definition.functions[i]);
        let ghost fs = old(service_definition).functions@;
        let ghost gs = service_definition.functions@;
        assert(fs.take(i + 1).drop_last() =~= fs.take(i as int));
        assert(gs.take(i + 1).drop_last() =~= before.take(i as int));
        assert(gs.skip(i + 1) =~= before.skip(i + 1));
        assert(before.skip(i + 1) =~= before.skip(i as int).skip(1));
        assert(fs.skip(i + 1) =~= fs.skip(i as int).skip(1));
        assert(fs[i as int] == fs.skip(i as int)[0]);
        assert(V::function_step(mid, fs.take(i + 1).last(), *v, gs.take(i + 1).last()));
        i += 1;
    }
    assert(old(service_definition).functions@.take(n as int) =~= old(service_definition).functions@);
    assert(service_definition.functions@.take(n as int) =~= service_definition.functions@);
}

/// Hands each top-level definition of a document to its hook, in order;
/// structs, enums and services go on to their fields, members and functions.
pub fn visit_document<V: Visit>(v: &mut V, document: &mut ThriftDocument)
    ensures
        definitions_walked(*old(v), old(document).body@, *final(v), final(document).body@),
{
    let n = document.body.len();
    let mut i: usize = 0;
    while i < n
        invariant
            n == old(document).body@.len(),
            n == document.body@.len(),
            i <= n,
            document.body@.skip(i as int) == old(document).body@.skip(i as int),
            definitions_walked(*old(v), old(document).body@.take(i as int), *v, document.body@.take(i as int)),
        decreases n - i,
    {
        let ghost mid = *v;
        let ghost before = document.body@;
        assert(before[i as int] == before.skip(i as int)[0]);
        match &mut document.body[i] {
            TopDefinition::Namespace(d) => v.visit_namespace_definition(d),
            TopDefinition::Include(d) => v.visit_include_definition(d),
            TopDefinition::Struct(d) => visit_struct_definition(v, d),
            TopDefinition::Enum(d) => visit_enum_definition(v, d),
            TopDefinition::Service(d) => visit_service_definition(v, d),
        }
        let ghost ds = old(document).body@;
        let ghost es = document.body@;
        assert(ds.take(i + 1).drop_last() =~= ds.take(i as int));
        assert(es.take(i + 1).drop_last() =~= before.take(i as int));
        assert(es.skip(i + 1) =~= before.skip(i + 1));
        assert(before.skip(i + 1) =~= before.skip(i as int).skip(1));
        assert(ds.skip(i + 1) =~= ds.skip(i as int).skip(1));
        assert(ds[i as int] == ds.skip(i as int)[0]);
        assert(definition_walked(mid, ds.take(i + 1).last(), *v, es.take(i + 1).last()));
        i += 1;
    }
    assert(old(document).body@.take(n as int) =~= old(document).body@);
    assert(document.body@.take(n as int) =~= document.body@);
}

} // verus!
