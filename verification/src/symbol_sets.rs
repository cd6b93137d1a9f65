//! The sets of symbols that the parts of a schema file define, and how an
//! index takes them in.

use vstd::prelude::*;
use crate::descriptor::{
    enum_defines, enums_define, fields_define, message_defines, messages_define, methods_define,
    names_hold, oneofs_define, service_defines, services_declare, services_define, values_define,
    DescriptorProto, EnumDescriptorProto, EnumValueDescriptorProto, FieldDescriptorProto,
    MethodDescriptorProto, OneofDescriptorProto, ServiceDescriptorProto,
};
use crate::fqn::fqn_spec;

verus! {

/// The index with every symbol of `symbols` put under `file`, in place of what
/// was held there.
pub open spec fn register(
    index: Map<Seq<char>, Seq<char>>,
    symbols: Set<Seq<char>>,
    file: Seq<char>,
) -> Map<Seq<char>, Seq<char>> {
    Map::new(
        |s: Seq<char>| index.contains_key(s) || symbols.contains(s),
        |s: Seq<char>|
            if symbols.contains(s) {
                file
            } else {
                index[s]
            },
    )
}

pub proof fn lemma_register_none(index: Map<Seq<char>, Seq<char>>, file: Seq<char>)
    ensures
        register(index, Set::empty(), file) == index,
{
    assert(register(index, Set::empty(), file) =~= index);
}

pub proof fn lemma_register_one(
    index: Map<Seq<char>, Seq<char>>,
    symbols: Set<Seq<char>>,
    symbol: Seq<char>,
    file: Seq<char>,
)
    ensures
        register(index, symbols, file).insert(symbol, file) == register(
            index,
            symbols.insert(symbol),
            file,
        ),
{
    assert(register(index, symbols, file).insert(symbol, file) =~= register(
        index,
        symbols.insert(symbol),
        file,
    ));
}

pub proof fn lemma_register_more(
    index: Map<Seq<char>, Seq<char>>,
    first: Set<Seq<char>>,
    second: Set<Seq<char>>,
    file: Seq<char>,
)
    ensures
        register(register(index, first, file), second, file) == register(
            index,
            first.union(second),
            file,
        ),
{
    assert(register(register(index, first, file), second, file) =~= register(
        index,
        first.union(second),
        file,
    ));
}

/// The symbols of the fields `fields` under `prefix`.
pub open spec fn field_symbols(prefix: Seq<char>, fields: Seq<FieldDescriptorProto>) -> Set<
    Seq<char>,
> {
    Set::new(|s: Seq<char>| fields_define(prefix, fields, s))
}

/// The symbols of the oneof declarations `decls` under `prefix`.
pub open spec fn oneof_symbols(prefix: Seq<char>, decls: Seq<OneofDescriptorProto>) -> Set<
    Seq<char>,
> {
    Set::new(|s: Seq<char>| oneofs_define(prefix, decls, s))
}

/// The symbols of the enum values `values` under `prefix`.
pub open spec fn value_symbols(prefix: Seq<char>, values: Seq<EnumValueDescriptorProto>) -> Set<
    Seq<char>,
> {
    Set::new(|s: Seq<char>| values_define(prefix, values, s))
}

/// The symbols of the methods `methods` under `prefix`.
pub open spec fn method_symbols(prefix: Seq<char>, methods: Seq<MethodDescriptorProto>) -> Set<
    Seq<char>,
> {
    Set::new(|s: Seq<char>| methods_define(prefix, methods, s))
}

/// The symbols of the enum `en` under `prefix`: its own and those of its
/// values.
pub open spec fn enum_symbols(prefix: Seq<char>, en: EnumDescriptorProto) -> Set<Seq<char>> {
    Set::new(|s: Seq<char>| enum_defines(prefix, en, s))
}

/// The symbols of the enums `enums` under `prefix`.
pub open spec fn enums_symbols(prefix: Seq<char>, enums: Seq<EnumDescriptorProto>) -> Set<
    Seq<char>,
> {
    Set::new(|s: Seq<char>| enums_define(prefix, enums, s))
}

/// The symbols of the service `svc` under `prefix`: its own and those of its
/// methods.
pub open spec fn service_symbols(prefix: Seq<char>, svc: ServiceDescriptorProto) -> Set<
    Seq<char>,
> {
    Set::new(|s: Seq<char>| service_defines(prefix, svc, s))
}

/// The symbols of the services `services` under `prefix`.
pub open spec fn services_symbols(
    prefix: Seq<char>,
    services: Seq<ServiceDescriptorProto>,
) -> Set<Seq<char>> {
    Set::new(|s: Seq<char>| services_define(prefix, services, s))
}

/// The names of the services `services` under `prefix`.
pub open spec fn service_names(prefix: Seq<char>, services: Seq<ServiceDescriptorProto>) -> Set<
    Seq<char>,
> {
    Set::new(|s: Seq<char>| services_declare(prefix, services, s))
}

/// The symbols of the message `msg` under `prefix`: its own and those of all
/// that is declared inside it.
pub open spec fn message_symbols(prefix: Seq<char>, msg: DescriptorProto) -> Set<Seq<char>> {
    Set::new(|s: Seq<char>| message_defines(prefix, msg, s))
}

/// The symbols of the messages `messages` under `prefix`.
pub open spec fn messages_symbols(prefix: Seq<char>, messages: Seq<DescriptorProto>) -> Set<
    Seq<char>,
> {
    Set::new(|s: Seq<char>| messages_define(prefix, messages, s))
}

/// The views of the strings `names`, as a set.
pub open spec fn name_set(names: Seq<String>) -> Set<Seq<char>> {
    Set::new(|n: Seq<char>| names_hold(names, n))
}

/// One of `items` meets `holds`.
spec fn some_item<T>(items: Seq<T>, holds: spec_fn(T) -> bool) -> bool {
    exists|j: int| 0 <= j < items.len() && holds(#[trigger] items[j])
}

/// One of the first `i + 1` items meets `holds` when one of the first `i`
/// does or the item at place `i` does.
proof fn lemma_one_more<T>(items: Seq<T>, i: int, holds: spec_fn(T) -> bool)
    requires
        0 <= i < items.len(),
    ensures
        some_item(items.take(i + 1), holds) <==> some_item(items.take(i), holds) || holds(items[i]),
        !some_item(items.take(0), holds),
{
    let more = items.take(i + 1);
    let fewer = items.take(i);
    if some_item(more, holds) {
        let j = choose|j: int| 0 <= j < more.len() && holds(#[trigger] more[j]);
        if j < i {
            assert(holds(fewer[j]));
        }
    }
    if some_item(fewer, holds) {
        let j = choose|j: int| 0 <= j < fewer.len() && holds(#[trigger] fewer[j]);
        assert(holds(more[j]));
    }
    if holds(items[i]) {
        assert(holds(more[i]));
    }
}

pub(crate) proof fn lemma_all_taken<T>(items: Seq<T>)
    ensures
        items.take(items.len() as int) == items,
{
    assert(items.take(items.len() as int) =~= items);
}

pub(crate) proof fn lemma_fields_step(prefix: Seq<char>, fields: Seq<FieldDescriptorProto>, i: int)
    requires
        0 <= i < fields.len(),
    ensures
        field_symbols(prefix, fields.take(i + 1)) == field_symbols(prefix, fields.take(i)).insert(
            fqn_spec(prefix, fields[i].name_spec()),
        ),
        field_symbols(prefix, fields.take(0)) == Set::<Seq<char>>::empty(),
{
    let a = field_symbols(prefix, fields.take(i + 1));
    let b = field_symbols(prefix, fields.take(i)).insert(fqn_spec(prefix, fields[i].name_spec()));
    assert forall|s: Seq<char>| a.contains(s) == b.contains(s) && !field_symbols(
        prefix,
        fields.take(0),
    ).contains(s) by {
        let holds = |f: FieldDescriptorProto| s == fqn_spec(prefix, f.name_spec());
        lemma_one_more(fields, i, holds);
        assert(fields_define(prefix, fields.take(i + 1), s) == some_item(fields.take(i + 1), holds));
        assert(fields_define(prefix, fields.take(i), s) == some_item(fields.take(i), holds));
        assert(fields_define(prefix, fields.take(0), s) == some_item(fields.take(0), holds));
    }
    assert(a =~= b);
    assert(field_symbols(prefix, fields.take(0)) =~= Set::<Seq<char>>::empty());
}

pub(crate) proof fn lemma_oneofs_step(prefix: Seq<char>, decls: Seq<OneofDescriptorProto>, i: int)
    requires
        0 <= i < decls.len(),
    ensures
        oneof_symbols(prefix, decls.take(i + 1)) == oneof_symbols(prefix, decls.take(i)).insert(
            fqn_spec(prefix, decls[i].name_spec()),
        ),
        oneof_symbols(prefix, decls.take(0)) == Set::<Seq<char>>::empty(),
{
    let a = oneof_symbols(prefix, decls.take(i + 1));
    let b = oneof_symbols(prefix, decls.take(i)).insert(fqn_spec(prefix, decls[i].name_spec()));
    assert forall|s: Seq<char>| a.contains(s) == b.contains(s) && !oneof_symbols(
        prefix,
        decls.take(0),
    ).contains(s) by {
        let holds = |d: OneofDescriptorProto| s == fqn_spec(prefix, d.name_spec());
        lemma_one_more(decls, i, holds);
        assert(oneofs_define(prefix, decls.take(i + 1), s) == some_item(decls.take(i + 1), holds));
        assert(oneofs_define(prefix, decls.take(i), s) == some_item(decls.take(i), holds));
        assert(oneofs_define(prefix, decls.take(0), s) == some_item(decls.take(0), holds));
    }
    assert(a =~= b);
    assert(oneof_symbols(prefix, decls.take(0)) =~= Set::<Seq<char>>::empty());
}

pub(crate) proof fn lemma_values_step(
    prefix: Seq<char>,
    values: Seq<EnumValueDescriptorProto>,
    i: int,
)
    requires
        0 <= i < values.len(),
    ensures
        value_symbols(prefix, values.take(i + 1)) == value_symbols(prefix, values.take(i)).insert(
            fqn_spec(prefix, values[i].name_spec()),
        ),
        value_symbols(prefix, values.take(0)) == Set::<Seq<char>>::empty(),
{
    let a = value_symbols(prefix, values.take(i + 1));
    let b = value_symbols(prefix, values.take(i)).insert(fqn_spec(prefix, values[i].name_spec()));
    assert forall|s: Seq<char>| a.contains(s) == b.contains(s) && !value_symbols(
        prefix,
        values.take(0),
    ).contains(s) by {
        let holds = |v: EnumValueDescriptorProto| s == fqn_spec(prefix, v.name_spec());
        lemma_one_more(values, i, holds);
        assert(values_define(prefix, values.take(i + 1), s) == some_item(values.take(i + 1), holds));
        assert(values_define(prefix, values.take(i), s) == some_item(values.take(i), holds));
        assert(values_define(prefix, values.take(0), s) == some_item(values.take(0), holds));
    }
    assert(a =~= b);
    assert(value_symbols(prefix, values.take(0)) =~= Set::<Seq<char>>::empty());
}

pub(crate) proof fn lemma_methods_step(
    prefix: Seq<char>,
    methods: Seq<MethodDescriptorProto>,
    i: int,
)
    requires
        0 <= i < methods.len(),
    ensures
        method_symbols(prefix, methods.take(i + 1)) == method_symbols(
            prefix,
            methods.take(i),
        ).insert(fqn_spec(prefix, methods[i].name_spec())),
        method_symbols(prefix, methods.take(0)) == Set::<Seq<char>>::empty(),
{
    let a = method_symbols(prefix, methods.take(i + 1));
    let b = method_symbols(prefix, methods.take(i)).insert(
        fqn_spec(prefix, methods[i].name_spec()),
    );
    assert forall|s: Seq<char>| a.contains(s) == b.contains(s) && !method_symbols(
        prefix,
        methods.take(0),
    ).contains(s) by {
        let holds = |m: MethodDescriptorProto| s == fqn_spec(prefix, m.name_spec());
        lemma_one_more(methods, i, holds);
        assert(methods_define(prefix, methods.take(i + 1), s) == some_item(
            methods.take(i + 1),
            holds,
        ));
        assert(methods_define(prefix, methods.take(i), s) == some_item(methods.take(i), holds));
        assert(methods_define(prefix, methods.take(0), s) == some_item(methods.take(0), holds));
    }
    assert(a =~= b);
    assert(method_symbols(prefix, methods.take(0)) =~= Set::<Seq<char>>::empty());
}

pub(crate) proof fn lemma_enums_step(prefix: Seq<char>, enums: Seq<EnumDescriptorProto>, i: int)
    requires
        0 <= i < enums.len(),
    ensures
        enums_symbols(prefix, enums.take(i + 1)) == enums_symbols(prefix, enums.take(i)).union(
            enum_symbols(prefix, enums[i]),
        ),
        enums_symbols(prefix, enums.take(0)) == Set::<Seq<char>>::empty(),
{
    let a = enums_symbols(prefix, enums.take(i + 1));
    let b = enums_symbols(prefix, enums.take(i)).union(enum_symbols(prefix, enums[i]));
    assert forall|s: Seq<char>| a.contains(s) == b.contains(s) && !enums_symbols(
        prefix,
        enums.take(0),
    ).contains(s) by {
        let holds = |e: EnumDescriptorProto| enum_defines(prefix, e, s);
        lemma_one_more(enums, i, holds);
        assert(enums_define(prefix, enums.take(i + 1), s) == some_item(enums.take(i + 1), holds));
        assert(enums_define(prefix, enums.take(i), s) == some_item(enums.take(i), holds));
        assert(enums_define(prefix, enums.take(0), s) == some_item(enums.take(0), holds));
    }
    assert(a =~= b);
    assert(enums_symbols(prefix, enums.take(0)) =~= Set::<Seq<char>>::empty());
}

pub(crate) proof fn lemma_services_step(
    prefix: Seq<char>,
    services: Seq<ServiceDescriptorProto>,
    i: int,
)
    requires
        0 <= i < services.len(),
    ensures
        services_symbols(prefix, services.take(i + 1)) == services_symbols(
            prefix,
            services.take(i),
        ).union(service_symbols(prefix, services[i])),
        service_names(prefix, services.take(i + 1)) == service_names(
            prefix,
            services.take(i),
        ).insert(fqn_spec(prefix, services[i].name_spec())),
        services_symbols(prefix, services.take(0)) == Set::<Seq<char>>::empty(),
        service_names(prefix, services.take(0)) == Set::<Seq<char>>::empty(),
{
    let a = services_symbols(prefix, services.take(i + 1));
    let b = services_symbols(prefix, services.take(i)).union(service_symbols(prefix, services[i]));
    let c = service_names(prefix, services.take(i + 1));
    let d = service_names(prefix, services.take(i)).insert(
        fqn_spec(prefix, services[i].name_spec()),
    );
    assert forall|s: Seq<char>|
        a.contains(s) == b.contains(s) && c.contains(s) == d.contains(s) && !services_symbols(
            prefix,
            services.take(0),
        ).contains(s) && !service_names(prefix, services.take(0)).contains(s) by {
        let defines = |v: ServiceDescriptorProto| service_defines(prefix, v, s);
        lemma_one_more(services, i, defines);
        assert(services_define(prefix, services.take(i + 1), s) == some_item(
            services.take(i + 1),
            defines,
        ));
        assert(services_define(prefix, services.take(i), s) == some_item(
            services.take(i),
            defines,
        ));
        assert(services_define(prefix, services.take(0), s) == some_item(
            services.take(0),
            defines,
        ));
        let named = |v: ServiceDescriptorProto| s == fqn_spec(prefix, v.name_spec());
        lemma_one_more(services, i, named);
        assert(services_declare(prefix, services.take(i + 1), s) == some_item(
            services.take(i + 1),
            named,
        ));
        assert(services_declare(prefix, services.take(i), s) == some_item(
            services.take(i),
            named,
        ));
        assert(services_declare(prefix, services.take(0), s) == some_item(
            services.take(0),
            named,
        ));
    }
    assert(a =~= b);
    assert(c =~= d);
    assert(services_symbols(prefix, services.take(0)) =~= Set::<Seq<char>>::empty());
    assert(service_names(prefix, services.take(0)) =~= Set::<Seq<char>>::empty());
}

pub(crate) proof fn lemma_messages_step(prefix: Seq<char>, messages: Seq<DescriptorProto>, i: int)
    requires
        0 <= i < messages.len(),
    ensures
        messages_symbols(prefix, messages.take(i + 1)) == messages_symbols(
            prefix,
            messages.take(i),
        ).union(message_symbols(prefix, messages[i])),
        messages_symbols(prefix, messages.take(0)) == Set::<Seq<char>>::empty(),
{
    let a = messages_symbols(prefix, messages.take(i + 1));
    let b = messages_symbols(prefix, messages.take(i)).union(message_symbols(prefix, messages[i]));
    assert forall|s: Seq<char>| a.contains(s) == b.contains(s) && !messages_symbols(
        prefix,
        messages.take(0),
    ).contains(s) by {
        let holds = |m: DescriptorProto| message_defines(prefix, m, s);
        lemma_one_more(messages, i, holds);
        assert(messages_define(prefix, messages.take(i + 1), s) == some_item(
            messages.take(i + 1),
            holds,
        ));
        assert(messages_define(prefix, messages.take(i), s) == some_item(messages.take(i), holds));
        assert(messages_define(prefix, messages.take(0), s) == some_item(messages.take(0), holds));
    }
    assert(a =~= b);
    assert(messages_symbols(prefix, messages.take(0)) =~= Set::<Seq<char>>::empty());
}

pub(crate) proof fn lemma_names_step(names: Seq<String>, i: int)
    requires
        0 <= i < names.len(),
    ensures
        name_set(names.take(i + 1)) == name_set(names.take(i)).insert(names[i]@),
        name_set(names.take(0)) == Set::<Seq<char>>::empty(),
{
    let a = name_set(names.take(i + 1));
    let b = name_set(names.take(i)).insert(names[i]@);
    assert forall|s: Seq<char>| a.contains(s) == b.contains(s) && !name_set(
        names.take(0),
    ).contains(s) by {
        let holds = |n: String| s == n@;
        lemma_one_more(names, i, holds);
        assert(names_hold(names.take(i + 1), s) == some_item(names.take(i + 1), holds));
        assert(names_hold(names.take(i), s) == some_item(names.take(i), holds));
        assert(names_hold(names.take(0), s) == some_item(names.take(0), holds));
    }
    assert(a =~= b);
    assert(name_set(names.take(0)) =~= Set::<Seq<char>>::empty());
}

/// The symbols of a message are its own name and the symbols of each kind of
/// thing declared inside it.
pub(crate) proof fn lemma_message_symbols(prefix: Seq<char>, msg: DescriptorProto)
    ensures
        message_symbols(prefix, msg) == Set::<Seq<char>>::empty().insert(
            fqn_spec(prefix, msg.name_spec()),
        ).union(messages_symbols(fqn_spec(prefix, msg.name_spec()), msg.nested_type@)).union(
            enums_symbols(fqn_spec(prefix, msg.name_spec()), msg.enum_type@),
        ).union(field_symbols(fqn_spec(prefix, msg.name_spec()), msg.extension@)).union(
            field_symbols(fqn_spec(prefix, msg.name_spec()), msg.field@),
        ).union(oneof_symbols(fqn_spec(prefix, msg.name_spec()), msg.oneof_decl@)),
{
    let own = fqn_spec(prefix, msg.name_spec());
    let parts = Set::<Seq<char>>::empty().insert(own).union(
        messages_symbols(own, msg.nested_type@),
    ).union(enums_symbols(own, msg.enum_type@)).union(field_symbols(own, msg.extension@)).union(
        field_symbols(own, msg.field@),
    ).union(oneof_symbols(own, msg.oneof_decl@));
    assert forall|s: Seq<char>| message_symbols(prefix, msg).contains(s) <==> parts.contains(
        s,
    ) by {
        let nested = messages_define(own, msg.nested_type@, s);
        let enums = enums_define(own, msg.enum_type@, s);
        let extensions = fields_define(own, msg.extension@, s);
        let fields = fields_define(own, msg.field@, s);
        let oneofs = oneofs_define(own, msg.oneof_decl@, s);
        assert(message_defines(prefix, msg, s) == (s == own || nested || enums || extensions
            || fields || oneofs));
        assert(parts.contains(s) == (s == own || nested || enums || extensions || fields
            || oneofs));
    }
    assert(message_symbols(prefix, msg) =~= parts);
}

} // verus!
