//! The symbol index: from every fully-qualified symbol of a set of schema
//! files to the file that defines it, with the set of services and the check
//! that the set of files is closed under its dependency lists.

use vstd::prelude::*;
use vstd::string::*;
use crate::descriptor::{
    file_dependencies, file_services, file_symbols, DescriptorProto, EnumDescriptorProto,
    FieldDescriptorProto, FileDescriptorProto, ServiceDescriptorProto,
};
use crate::fqn::{fqn, fqn_spec};
use crate::lexical::{str_before, strictly_sorted};
use crate::str_map::{names_of, StrMap, StrSet};
use crate::symbol_sets::{
    enum_symbols, enums_symbols, field_symbols, lemma_all_taken, lemma_enums_step,
    lemma_fields_step, lemma_message_symbols, lemma_messages_step, lemma_methods_step,
    lemma_names_step, lemma_oneofs_step, lemma_register_more, lemma_register_none,
    lemma_register_one, lemma_services_step, lemma_values_step, message_symbols, messages_symbols,
    method_symbols, name_set, oneof_symbols, register, service_names, service_symbols,
    services_symbols, value_symbols,
};

verus! {

/// A map to strings, read as a map to their views.
pub open spec fn texts(m: Map<Seq<char>, String>) -> Map<Seq<char>, Seq<char>> {
    Map::new(|k: Seq<char>| m.contains_key(k), |k: Seq<char>| m[k]@)
}

/// What a symbol map holds.
pub struct IndexState {
    /// From each symbol to the name of the file that defines it.
    pub index: Map<Seq<char>, Seq<char>>,
    /// The symbols that name services.
    pub services: Set<Seq<char>>,
    /// The names of the files put in.
    pub processed: Set<Seq<char>>,
    /// The names read in dependency lists.
    pub dependencies: Set<Seq<char>>,
}

/// The state of a new symbol map.
pub open spec fn empty_state() -> IndexState {
    IndexState {
        index: Map::empty(),
        services: Set::empty(),
        processed: Set::empty(),
        dependencies: Set::empty(),
    }
}

/// The state after `file` is put in under `filename`: unchanged where a file
/// of that name was put in before.
pub open spec fn insert_spec(
    state: IndexState,
    filename: Seq<char>,
    file: FileDescriptorProto,
) -> IndexState {
    if state.processed.contains(filename) {
        state
    } else {
        IndexState {
            index: register(state.index, file_symbols(file), filename),
            services: state.services.union(file_services(file)),
            processed: state.processed.insert(filename),
            dependencies: state.dependencies.union(file_dependencies(file)),
        }
    }
}

/// The state after the first `n` of `files` are put in, each under its own
/// name, in their order.
pub open spec fn build_spec(files: Seq<FileDescriptorProto>, n: nat) -> IndexState
    decreases n,
{
    if n == 0 || n > files.len() {
        empty_state()
    } else {
        insert_spec(
            build_spec(files, (n - 1) as nat),
            files[n - 1].name_spec(),
            files[n - 1],
        )
    }
}

/// Every name read in a dependency list is the name of a file put in.
pub open spec fn closed_under_dependencies(state: IndexState) -> bool {
    state.dependencies.subset_of(state.processed)
}

/// `name` was read in a dependency list and is no file put in.
pub open spec fn is_missing(state: IndexState, name: Seq<char>) -> bool {
    state.dependencies.contains(name) && !state.processed.contains(name)
}

/// `name` is the first missing dependency in the order of strings.
pub open spec fn is_first_missing(state: IndexState, name: Seq<char>) -> bool {
    &&& is_missing(state, name)
    &&& forall|other: Seq<char>| #[trigger]
        is_missing(state, other) ==> other == name || str_before(name, other)
}

/// A dependency list names a file that was never put in.
#[derive(Debug)]
pub struct MissingDependency {
    /// The name of that file.
    pub filename: String,
}

impl MissingDependency {
    /// The error as a sentence that names the file.
    pub fn message(&self) -> (text: String)
        ensures
            text@ == "dependency "@ + self.filename@ + " was not found"@,
    {
        let mut text = String::from_str("dependency ");
        text.append(self.filename.as_str());
        text.append(" was not found");
        text
    }
}

/// The symbol index under construction.
pub struct SymbolMap {
    inner: StrMap<String>,
    services: StrSet,
    processed: StrSet,
    dependencies: StrSet,
}

impl SymbolMap {
    /// From each symbol to the name of the file that defines it.
    pub closed spec fn index(&self) -> Map<Seq<char>, Seq<char>> {
        texts(self.inner@)
    }

    /// The symbols that name services.
    pub closed spec fn service_set(&self) -> Set<Seq<char>> {
        self.services@
    }

    /// The names of the files put in.
    pub closed spec fn processed(&self) -> Set<Seq<char>> {
        self.processed@
    }

    /// The names read in dependency lists.
    pub closed spec fn dependencies(&self) -> Set<Seq<char>> {
        self.dependencies@
    }

    /// All that the map holds.
    pub open spec fn state(&self) -> IndexState {
        IndexState {
            index: self.index(),
            services: self.service_set(),
            processed: self.processed(),
            dependencies: self.dependencies(),
        }
    }

    /// The tables inside are in order.
    pub closed spec fn wf(&self) -> bool {
        &&& self.inner.wf()
        &&& self.services.wf()
        &&& self.processed.wf()
        &&& self.dependencies.wf()
    }

    /// `self` differs from `other` in the index at most.
    pub open spec fn same_sets(&self, other: &SymbolMap) -> bool {
        &&& self.service_set() == other.service_set()
        &&& self.processed() == other.processed()
        &&& self.dependencies() == other.dependencies()
    }

    /// A symbol map that holds nothing.
    pub fn new() -> (m: Self)
        ensures
            m.wf(),
            m.state() == empty_state(),
    {
        let m = SymbolMap {
            inner: StrMap::new(),
            services: StrSet::new(),
            processed: StrSet::new(),
            dependencies: StrSet::new(),
        };
        assert(m.index() =~= Map::<Seq<char>, Seq<char>>::empty());
        m
    }

    /// The index itself.
    pub fn as_inner(&self) -> (inner: &StrMap<String>)
        requires
            self.wf(),
        ensures
            inner.wf(),
            texts(inner@) == self.index(),
    {
        &self.inner
    }

    /// The names of the services, in rising order.
    pub fn services(&self) -> (names: Vec<String>)
        requires
            self.wf(),
        ensures
            strictly_sorted(names_of(names@)),
            names_of(names@).to_set() == self.service_set(),
    {
        self.services.names()
    }

    /// Puts `symbol` into the index under `filename`.
    pub fn insert_symbol(&mut self, symbol: String, filename: &str)
        requires
            old(self).wf(),
        ensures
            final(self).wf(),
            final(self).index() == old(self).index().insert(symbol@, filename@),
            final(self).same_sets(old(self)),
    {
        let ghost before = self.inner@;
        self.inner.insert(symbol, String::from_str(filename));
        assert(texts(self.inner@) =~= texts(before).insert(symbol@, filename@));
    }

    /// Puts the field or extension `fld`, declared under `prefix`, into the
    /// index.
    pub fn insert_field(&mut self, fld: &FieldDescriptorProto, filename: &str, prefix: &str)
        requires
            old(self).wf(),
        ensures
            final(self).wf(),
            final(self).index() == old(self).index().insert(
                fqn_spec(prefix@, fld.name_spec()),
                filename@,
            ),
            final(self).same_sets(old(self)),
    {
        let fld_name = fqn(prefix, fld.name());
        self.insert_symbol(fld_name, filename);
    }

    /// Puts the enum `en`, declared under `prefix`, and its values into the
    /// index.
    pub fn insert_enum(&mut self, en: &EnumDescriptorProto, filename: &str, prefix: &str)
        requires
            old(self).wf(),
        ensures
            final(self).wf(),
            final(self).index() == register(
                old(self).index(),
                enum_symbols(prefix@, *en),
                filename@,
            ),
            final(self).same_sets(old(self)),
    {
        let ghost before = *self;
        let en_name = fqn(prefix, en.name());
        self.insert_symbol(en_name.clone(), filename);
        proof {
            lemma_register_none(before.index(), filename@);
            lemma_register_one(before.index(), Set::empty(), en_name@, filename@);
            assert(value_symbols(en_name@, en.value@.take(0)) =~= Set::<Seq<char>>::empty());
        }
        let mut i: usize = 0;
        while i < en.value.len()
            invariant
                self.wf(),
                i <= en.value@.len(),
                en_name@ == fqn_spec(prefix@, en.name_spec()),
                self.index() == register(
                    before.index(),
                    value_symbols(en_name@, en.value@.take(i as int)).insert(en_name@),
                    filename@,
                ),
                self.same_sets(&before),
            decreases en.value@.len() - i,
        {
            let v_name = fqn(en_name.as_str(), en.value[i].name());
            proof {
                lemma_values_step(en_name@, en.value@, i as int);
                lemma_register_one(
                    before.index(),
                    value_symbols(en_name@, en.value@.take(i as int)).insert(en_name@),
                    v_name@,
                    filename@,
                );
                assert(value_symbols(en_name@, en.value@.take(i as int)).insert(en_name@).insert(
                    v_name@,
                ) =~= value_symbols(en_name@, en.value@.take(i + 1)).insert(en_name@));
            }
            self.insert_symbol(v_name, filename);
            i = i + 1;
        }
        proof {
            assert(en.value@.take(en.value@.len() as int) =~= en.value@);
            assert(value_symbols(en_name@, en.value@).insert(en_name@) =~= enum_symbols(
                prefix@,
                *en,
            ));
        }
    }

    /// Puts the service `service`, declared under `prefix`, and its methods
    /// into the index, and its name into the set of services.
    pub fn insert_service(&mut self, service: &ServiceDescriptorProto, prefix: &str, filename: &str)
        requires
            old(self).wf(),
        ensures
            final(self).wf(),
            final(self).index() == register(
                old(self).index(),
                service_symbols(prefix@, *service),
                filename@,
            ),
            final(self).service_set() == old(self).service_set().insert(
                fqn_spec(prefix@, service.name_spec()),
            ),
            final(self).processed() == old(self).processed(),
            final(self).dependencies() == old(self).dependencies(),
    {
        let ghost before = *self;
        let service_name = fqn(prefix, service.name());
        self.insert_symbol(service_name.clone(), filename);
        self.services.insert(service_name.clone());
        proof {
            lemma_register_none(before.index(), filename@);
            lemma_register_one(before.index(), Set::empty(), service_name@, filename@);
            assert(method_symbols(service_name@, service.method@.take(0)) =~= Set::<
                Seq<char>,
            >::empty());
        }
        let mut i: usize = 0;
        while i < service.method.len()
            invariant
                self.wf(),
                i <= service.method@.len(),
                service_name@ == fqn_spec(prefix@, service.name_spec()),
                self.index() == register(
                    before.index(),
                    method_symbols(service_name@, service.method@.take(i as int)).insert(
                        service_name@,
                    ),
                    filename@,
                ),
                self.service_set() == before.service_set().insert(service_name@),
                self.processed() == before.processed(),
                self.dependencies() == before.dependencies(),
            decreases service.method@.len() - i,
        {
            let method_name = fqn(service_name.as_str(), service.method[i].name());
            proof {
                lemma_methods_step(service_name@, service.method@, i as int);
                lemma_register_one(
                    before.index(),
                    method_symbols(service_name@, service.method@.take(i as int)).insert(
                        service_name@,
                    ),
                    method_name@,
                    filename@,
                );
                assert(method_symbols(service_name@, service.method@.take(i as int)).insert(
                    service_name@,
                ).insert(method_name@) =~= method_symbols(
                    service_name@,
                    service.method@.take(i + 1),
                ).insert(service_name@));
            }
            self.insert_symbol(method_name, filename);
            i = i + 1;
        }
        proof {
            assert(service.method@.take(service.method@.len() as int) =~= service.method@);
            assert(method_symbols(service_name@, service.method@).insert(service_name@)
                =~= service_symbols(prefix@, *service));
        }
    }

    /// Puts the message `desc`, declared under `prefix`, into the index, with
    /// all that is declared inside it: nested messages, enums, extensions,
    /// fields and oneof declarations, each under the message's own name.
    pub fn insert_message(&mut self, desc: &DescriptorProto, filename: &str, prefix: &str)
        requires
            old(self).wf(),
        ensures
            final(self).wf(),
            final(self).index() == register(
                old(self).index(),
                message_symbols(prefix@, *desc),
                filename@,
            ),
            final(self).same_sets(old(self)),
        decreases desc,
    {
        let ghost before = *self;
        let msg_name = fqn(prefix, desc.name());
        let ghost own = msg_name@;
        self.insert_symbol(msg_name.clone(), filename);
        let ghost done = Set::<Seq<char>>::empty().insert(own);
        proof {
            lemma_register_none(before.index(), filename@);
            lemma_register_one(before.index(), Set::empty(), own, filename@);
        }

        let mut i: usize = 0;
        proof {
            assert(messages_symbols(own, desc.nested_type@.take(0)) =~= Set::<Seq<char>>::empty());
            assert(done.union(Set::empty()) =~= done);
        }
        while i < desc.nested_type.len()
            invariant
                self.wf(),
                i <= desc.nested_type@.len(),
                msg_name@ == own,
                self.index() == register(
                    before.index(),
                    done.union(messages_symbols(own, desc.nested_type@.take(i as int))),
                    filename@,
                ),
                self.same_sets(&before),
            decreases desc.nested_type@.len() - i,
        {
            proof {
                lemma_messages_step(own, desc.nested_type@, i as int);
                lemma_register_more(
                    before.index(),
                    done.union(messages_symbols(own, desc.nested_type@.take(i as int))),
                    message_symbols(own, desc.nested_type@[i as int]),
                    filename@,
                );
                assert(done.union(messages_symbols(own, desc.nested_type@.take(i as int))).union(
                    message_symbols(own, desc.nested_type@[i as int]),
                ) =~= done.union(messages_symbols(own, desc.nested_type@.take(i + 1))));
            }
            self.insert_message(&desc.nested_type[i], filename, msg_name.as_str());
            i = i + 1;
        }
        proof {
            lemma_all_taken(desc.nested_type@);
        }
        let ghost done = done.union(messages_symbols(own, desc.nested_type@));

        let mut i: usize = 0;
        proof {
            assert(enums_symbols(own, desc.enum_type@.take(0)) =~= Set::<Seq<char>>::empty());
            assert(done.union(Set::empty()) =~= done);
        }
        while i < desc.enum_type.len()
            invariant
                self.wf(),
                i <= desc.enum_type@.len(),
                msg_name@ == own,
                self.index() == register(
                    before.index(),
                    done.union(enums_symbols(own, desc.enum_type@.take(i as int))),
                    filename@,
                ),
                self.same_sets(&before),
            decreases desc.enum_type@.len() - i,
        {
            proof {
                lemma_enums_step(own, desc.enum_type@, i as int);
                lemma_register_more(
                    before.index(),
                    done.union(enums_symbols(own, desc.enum_type@.take(i as int))),
                    enum_symbols(own, desc.enum_type@[i as int]),
                    filename@,
                );
                assert(done.union(enums_symbols(own, desc.enum_type@.take(i as int))).union(
                    enum_symbols(own, desc.enum_type@[i as int]),
                ) =~= done.union(enums_symbols(own, desc.enum_type@.take(i + 1))));
            }
            self.insert_enum(&desc.enum_type[i], filename, msg_name.as_str());
            i = i + 1;
        }
        proof {
            lemma_all_taken(desc.enum_type@);
        }
        let ghost done = done.union(enums_symbols(own, desc.enum_type@));

        let mut i: usize = 0;
        proof {
            assert(field_symbols(own, desc.extension@.take(0)) =~= Set::<Seq<char>>::empty());
            assert(done.union(Set::empty()) =~= done);
        }
        while i < desc.extension.len()
            invariant
                self.wf(),
                i <= desc.extension@.len(),
                msg_name@ == own,
                self.index() == register(
                    before.index(),
                    done.union(field_symbols(own, desc.extension@.take(i as int))),
                    filename@,
                ),
                self.same_sets(&before),
            decreases desc.extension@.len() - i,
        {
            proof {
                lemma_fields_step(own, desc.extension@, i as int);
                lemma_register_one(
                    before.index(),
                    done.union(field_symbols(own, desc.extension@.take(i as int))),
                    fqn_spec(own, desc.extension@[i as int].name_spec()),
                    filename@,
                );
                assert(done.union(field_symbols(own, desc.extension@.take(i as int))).insert(
                    fqn_spec(own, desc.extension@[i as int].name_spec()),
                ) =~= done.union(field_symbols(own, desc.extension@.take(i + 1))));
            }
            self.insert_field(&desc.extension[i], filename, msg_name.as_str());
            i = i + 1;
        }
        proof {
            lemma_all_taken(desc.extension@);
        }
        let ghost done = done.union(field_symbols(own, desc.extension@));

        let mut i: usize = 0;
        proof {
            assert(field_symbols(own, desc.field@.take(0)) =~= Set::<Seq<char>>::empty());
            assert(done.union(Set::empty()) =~= done);
        }
        while i < desc.field.len()
            invariant
                self.wf(),
                i <= desc.field@.len(),
                msg_name@ == own,
                self.index() == register(
                    before.index(),
                    done.union(field_symbols(own, desc.field@.take(i as int))),
                    filename@,
                ),
                self.same_sets(&before),
            decreases desc.field@.len() - i,
        {
            proof {
                lemma_fields_step(own, desc.field@, i as int);
                lemma_register_one(
                    before.index(),
                    done.union(field_symbols(own, desc.field@.take(i as int))),
                    fqn_spec(own, desc.field@[i as int].name_spec()),
                    filename@,
                );
                assert(done.union(field_symbols(own, desc.field@.take(i as int))).insert(
                    fqn_spec(own, desc.field@[i as int].name_spec()),
                ) =~= done.union(field_symbols(own, desc.field@.take(i + 1))));
            }
            self.insert_field(&desc.field[i], filename, msg_name.as_str());
            i = i + 1;
        }
        proof {
            lemma_all_taken(desc.field@);
        }
        let ghost done = done.union(field_symbols(own, desc.field@));

        let mut i: usize = 0;
        proof {
            assert(oneof_symbols(own, desc.oneof_decl@.take(0)) =~= Set::<Seq<char>>::empty());
            assert(done.union(Set::empty()) =~= done);
        }
        while i < desc.oneof_decl.len()
            invariant
                self.wf(),
                i <= desc.oneof_decl@.len(),
                msg_name@ == own,
                self.index() == register(
                    before.index(),
                    done.union(oneof_symbols(own, desc.oneof_decl@.take(i as int))),
                    filename@,
                ),
                self.same_sets(&before),
            decreases desc.oneof_decl@.len() - i,
        {
            let one_of_name = fqn(msg_name.as_str(), desc.oneof_decl[i].name());
            proof {
                lemma_oneofs_step(own, desc.oneof_decl@, i as int);
                lemma_register_one(
                    before.index(),
                    done.union(oneof_symbols(own, desc.oneof_decl@.take(i as int))),
                    one_of_name@,
                    filename@,
                );
                assert(done.union(oneof_symbols(own, desc.oneof_decl@.take(i as int))).insert(
                    one_of_name@,
                ) =~= done.union(oneof_symbols(own, desc.oneof_decl@.take(i + 1))));
            }
            self.insert_symbol(one_of_name, filename);
            i = i + 1;
        }
        proof {
            lemma_all_taken(desc.oneof_decl@);
            lemma_message_symbols(prefix@, *desc);
        }
    }

    /// Puts the file `proto` in under `filename`, unless a file of that name
    /// was put in before: its messages, enums, extensions and services go
    /// into the index under the file's package, the services into the set of
    /// services, and the names of its dependency list into the set of
    /// dependencies.
    pub fn insert(&mut self, filename: &str, proto: &FileDescriptorProto)
        requires
            old(self).wf(),
        ensures
            final(self).wf(),
            final(self).state() == insert_spec(old(self).state(), filename@, *proto),
    {
        if self.processed.contains(filename) {
            return ;
        }
        let ghost before = *self;
        self.processed.insert(String::from_str(filename));
        let prefix = proto.package();
        let ghost package = prefix@;
        let ghost done = Set::<Seq<char>>::empty();
        proof {
            lemma_register_none(before.index(), filename@);
        }

        let mut i: usize = 0;
        proof {
            assert(messages_symbols(package, proto.message_type@.take(0)) =~= Set::<
                Seq<char>,
            >::empty());
            assert(done.union(Set::empty()) =~= done);
        }
        while i < proto.message_type.len()
            invariant
                self.wf(),
                i <= proto.message_type@.len(),
                prefix@ == package,
                self.index() == register(
                    before.index(),
                    done.union(messages_symbols(package, proto.message_type@.take(i as int))),
                    filename@,
                ),
                self.service_set() == before.service_set(),
                self.processed() == before.processed().insert(filename@),
                self.dependencies() == before.dependencies(),
            decreases proto.message_type@.len() - i,
        {
            proof {
                lemma_messages_step(package, proto.message_type@, i as int);
                lemma_register_more(
                    before.index(),
                    done.union(messages_symbols(package, proto.message_type@.take(i as int))),
                    message_symbols(package, proto.message_type@[i as int]),
                    filename@,
                );
                assert(done.union(
                    messages_symbols(package, proto.message_type@.take(i as int)),
                ).union(message_symbols(package, proto.message_type@[i as int])) =~= done.union(
                    messages_symbols(package, proto.message_type@.take(i + 1)),
                ));
            }
            self.insert_message(&proto.message_type[i], filename, prefix);
            i = i + 1;
        }
        proof {
            lemma_all_taken(proto.message_type@);
        }
        let ghost done = done.union(messages_symbols(package, proto.message_type@));

        let mut i: usize = 0;
        proof {
            assert(enums_symbols(package, proto.enum_type@.take(0)) =~= Set::<Seq<char>>::empty());
            assert(done.union(Set::empty()) =~= done);
        }
        while i < proto.enum_type.len()
            invariant
                self.wf(),
                i <= proto.enum_type@.len(),
                prefix@ == package,
                self.index() == register(
                    before.index(),
                    done.union(enums_symbols(package, proto.enum_type@.take(i as int))),
                    filename@,
                ),
                self.service_set() == before.service_set(),
                self.processed() == before.processed().insert(filename@),
                self.dependencies() == before.dependencies(),
            decreases proto.enum_type@.len() - i,
        {
            proof {
                lemma_enums_step(package, proto.enum_type@, i as int);
                lemma_register_more(
                    before.index(),
                    done.union(enums_symbols(package, proto.enum_type@.take(i as int))),
                    enum_symbols(package, proto.enum_type@[i as int]),
                    filename@,
                );
                assert(done.union(enums_symbols(package, proto.enum_type@.take(i as int))).union(
                    enum_symbols(package, proto.enum_type@[i as int]),
                ) =~= done.union(enums_symbols(package, proto.enum_type@.take(i + 1))));
            }
            self.insert_enum(&proto.enum_type[i], filename, prefix);
            i = i + 1;
        }
        proof {
            lemma_all_taken(proto.enum_type@);
        }
        let ghost done = done.union(enums_symbols(package, proto.enum_type@));

        let mut i: usize = 0;
        proof {
            assert(field_symbols(package, proto.extension@.take(0)) =~= Set::<Seq<char>>::empty());
            assert(done.union(Set::empty()) =~= done);
        }
        while i < proto.extension.len()
            invariant
                self.wf(),
                i <= proto.extension@.len(),
                prefix@ == package,
                self.index() == register(
                    before.index(),
                    done.union(field_symbols(package, proto.extension@.take(i as int))),
                    filename@,
                ),
                self.service_set() == before.service_set(),
                self.processed() == before.processed().insert(filename@),
                self.dependencies() == before.dependencies(),
            decreases proto.extension@.len() - i,
        {
            proof {
                lemma_fields_step(package, proto.extension@, i as int);
                lemma_register_one(
                    before.index(),
                    done.union(field_symbols(package, proto.extension@.take(i as int))),
                    fqn_spec(package, proto.extension@[i as int].name_spec()),
                    filename@,
                );
                assert(done.union(field_symbols(package, proto.extension@.take(i as int))).insert(
                    fqn_spec(package, proto.extension@[i as int].name_spec()),
                ) =~= done.union(field_symbols(package, proto.extension@.take(i + 1))));
            }
            self.insert_field(&proto.extension[i], filename, prefix);
            i = i + 1;
        }
        proof {
            lemma_all_taken(proto.extension@);
        }
        let ghost done = done.union(field_symbols(package, proto.extension@));

        let mut i: usize = 0;
        proof {
            assert(services_symbols(package, proto.service@.take(0)) =~= Set::<
                Seq<char>,
            >::empty());
            assert(service_names(package, proto.service@.take(0)) =~= Set::<Seq<char>>::empty());
            assert(done.union(Set::empty()) =~= done);
            assert(before.service_set().union(Set::empty()) =~= before.service_set());
        }
        while i < proto.service.len()
            invariant
                self.wf(),
                i <= proto.service@.len(),
                prefix@ == package,
                self.index() == register(
                    before.index(),
                    done.union(services_symbols(package, proto.service@.take(i as int))),
                    filename@,
                ),
                self.service_set() == before.service_set().union(
                    service_names(package, proto.service@.take(i as int)),
                ),
                self.processed() == before.processed().insert(filename@),
                self.dependencies() == before.dependencies(),
            decreases proto.service@.len() - i,
        {
            proof {
                lemma_services_step(package, proto.service@, i as int);
                lemma_register_more(
                    before.index(),
                    done.union(services_symbols(package, proto.service@.take(i as int))),
                    service_symbols(package, proto.service@[i as int]),
                    filename@,
                );
                assert(done.union(services_symbols(package, proto.service@.take(i as int))).union(
                    service_symbols(package, proto.service@[i as int]),
                ) =~= done.union(services_symbols(package, proto.service@.take(i + 1))));
                assert(before.service_set().union(
                    service_names(package, proto.service@.take(i as int)),
                ).insert(fqn_spec(package, proto.service@[i as int].name_spec()))
                    =~= before.service_set().union(
                    service_names(package, proto.service@.take(i + 1)),
                ));
            }
            self.insert_service(&proto.service[i], prefix, filename);
            i = i + 1;
        }
        proof {
            lemma_all_taken(proto.service@);
            assert(done.union(services_symbols(package, proto.service@)) =~= file_symbols(*proto));
            assert(service_names(package, proto.service@) =~= file_services(*proto));
        }

        let mut i: usize = 0;
        proof {
            assert(name_set(proto.dependency@.take(0)) =~= Set::<Seq<char>>::empty());
            assert(before.dependencies().union(Set::empty()) =~= before.dependencies());
        }
        while i < proto.dependency.len()
            invariant
                self.wf(),
                i <= proto.dependency@.len(),
                self.index() == register(before.index(), file_symbols(*proto), filename@),
                self.service_set() == before.service_set().union(file_services(*proto)),
                self.processed() == before.processed().insert(filename@),
                self.dependencies() == before.dependencies().union(
                    name_set(proto.dependency@.take(i as int)),
                ),
            decreases proto.dependency@.len() - i,
        {
            proof {
                lemma_names_step(proto.dependency@, i as int);
                assert(before.dependencies().union(
                    name_set(proto.dependency@.take(i as int)),
                ).insert(proto.dependency@[i as int]@) =~= before.dependencies().union(
                    name_set(proto.dependency@.take(i + 1)),
                ));
            }
            self.dependencies.insert(proto.dependency[i].clone());
            i = i + 1;
        }
        proof {
            lemma_all_taken(proto.dependency@);
            assert(name_set(proto.dependency@) =~= file_dependencies(*proto));
        }
    }

    /// Checks that every name read in a dependency list is the name of a
    /// file put in, and names the first that is not.
    pub fn validate(&self) -> (r: Result<(), MissingDependency>)
        requires
            self.wf(),
        ensures
            r is Ok <==> closed_under_dependencies(self.state()),
            match r {
                Ok(_) => closed_under_dependencies(self.state()),
                Err(e) => is_first_missing(self.state(), e.filename@),
            },
    {
        proof {
            self.dependencies.lemma_members();
        }
        let n = self.dependencies.len();
        let mut i: usize = 0;
        while i < n
            invariant
                self.wf(),
                n == self.dependencies.members().len(),
                i <= n,
                strictly_sorted(self.dependencies.members()),
                self.dependencies.members().to_set() == self.dependencies@,
                forall|j: int|
                    0 <= j < i ==> self.processed@.contains(
                        #[trigger] self.dependencies.members()[j],
                    ),
            decreases n - i,
        {
            let dep = self.dependencies.member_at(i);
            if !self.processed.contains(dep) {
                let missing = MissingDependency { filename: String::from_str(dep) };
                proof {
                    let members = self.dependencies.members();
                    assert forall|other: Seq<char>| #[trigger]
                        is_missing(self.state(), other) implies other == dep@ || str_before(
                        dep@,
                        other,
                    ) by {
                        assert(members.to_set().contains(other));
                        let j = choose|j: int| 0 <= j < members.len() && members[j] == other;
                        if j < i {
                            assert(self.processed@.contains(members[j]));
                        }
                    }
                }
                return Err(missing);
            }
            i = i + 1;
        }
        proof {
            let members = self.dependencies.members();
            assert forall|name: Seq<char>| self.dependencies@.contains(name) implies self.processed@.contains(
                name,
            ) by {
                assert(members.to_set().contains(name));
                let j = choose|j: int| 0 <= j < members.len() && members[j] == name;
                assert(self.processed@.contains(members[j]));
            }
        }
        Ok(())
    }

    /// Builds the index of `files`, each put in under its own name in the
    /// order given, and checks that the set is closed under its dependency
    /// lists.
    pub fn from_descriptors(files: &Vec<FileDescriptorProto>) -> (r: Result<
        SymbolMap,
        MissingDependency,
    >)
        ensures
            r is Ok <==> closed_under_dependencies(build_spec(files@, files@.len())),
            match r {
                Ok(m) => m.wf() && m.state() == build_spec(files@, files@.len())
                    && closed_under_dependencies(m.state()),
                Err(e) => is_first_missing(build_spec(files@, files@.len()), e.filename@),
            },
    {
        let mut map = SymbolMap::new();
        let mut i: usize = 0;
        while i < files.len()
            invariant
                map.wf(),
                i <= files@.len(),
                map.state() == build_spec(files@, i as nat),
            decreases files@.len() - i,
        {
            map.insert(files[i].name(), &files[i]);
            i = i + 1;
        }
        match map.validate() {
            Ok(_) => Ok(map),
            Err(e) => Err(e),
        }
    }
}

} // verus!
