//! Descriptors of compiled schema files, as far as the symbol index reads
//! them, and the symbols that each of them defines.

use vstd::prelude::*;
use vstd::string::*;
use crate::fqn::fqn_spec;

verus! {

/// A field of a message, or an extension.
#[derive(Clone, Debug, Default)]
pub struct FieldDescriptorProto {
    pub name: Option<String>,
    pub number: Option<i32>,
}

/// A oneof declaration of a message.
#[derive(Clone, Debug, Default)]
pub struct OneofDescriptorProto {
    pub name: Option<String>,
}

/// A value of an enum.
#[derive(Clone, Debug, Default)]
pub struct EnumValueDescriptorProto {
    pub name: Option<String>,
    pub number: Option<i32>,
}

/// An enum with its values.
#[derive(Clone, Debug, Default)]
pub struct EnumDescriptorProto {
    pub name: Option<String>,
    pub value: Vec<EnumValueDescriptorProto>,
}

/// A method of a service.
#[derive(Clone, Debug, Default)]
pub struct MethodDescriptorProto {
    pub name: Option<String>,
    pub input_type: Option<String>,
    pub output_type: Option<String>,
}

/// A service with its methods.
#[derive(Clone, Debug, Default)]
pub struct ServiceDescriptorProto {
    pub name: Option<String>,
    pub method: Vec<MethodDescriptorProto>,
}

/// A message with what is declared inside it.
#[derive(Debug, Default)]
pub struct DescriptorProto {
    pub name: Option<String>,
    pub field: Vec<FieldDescriptorProto>,
    pub extension: Vec<FieldDescriptorProto>,
    pub nested_type: Vec<DescriptorProto>,
    pub enum_type: Vec<EnumDescriptorProto>,
    pub oneof_decl: Vec<OneofDescriptorProto>,
}

/// One compiled schema file.
#[derive(Debug, Default)]
pub struct FileDescriptorProto {
    pub name: Option<String>,
    pub package: Option<String>,
    pub dependency: Vec<String>,
    pub message_type: Vec<DescriptorProto>,
    pub enum_type: Vec<EnumDescriptorProto>,
    pub service: Vec<ServiceDescriptorProto>,
    pub extension: Vec<FieldDescriptorProto>,
}

/// What an optional string reads as: the empty string when it is absent.
pub open spec fn text_of(s: Option<String>) -> Seq<char> {
    match s {
        Some(t) => t@,
        None => Seq::<char>::empty(),
    }
}

/// Reads an optional string, the empty string when it is absent.
pub fn text(s: &Option<String>) -> (t: &str)
    ensures
        t@ == text_of(*s),
{
    match s {
        Some(t) => t.as_str(),
        None => {
            proof {
                reveal_strlit("");
            }
            let empty: &'static str = "";
            assert(empty@ =~= Seq::<char>::empty());
            empty
        },
    }
}

impl FieldDescriptorProto {
    pub open spec fn name_spec(&self) -> Seq<char> {
        text_of(self.name)
    }

    /// The field's name, empty when it has none.
    pub fn name(&self) -> (n: &str)
        ensures
            n@ == self.name_spec(),
    {
        text(&self.name)
    }
}

impl OneofDescriptorProto {
    pub open spec fn name_spec(&self) -> Seq<char> {
        text_of(self.name)
    }

    /// The declaration's name, empty when it has none.
    pub fn name(&self) -> (n: &str)
        ensures
            n@ == self.name_spec(),
    {
        text(&self.name)
    }
}

impl EnumValueDescriptorProto {
    pub open spec fn name_spec(&self) -> Seq<char> {
        text_of(self.name)
    }

    /// The value's name, empty when it has none.
    pub fn name(&self) -> (n: &str)
        ensures
            n@ == self.name_spec(),
    {
        text(&self.name)
    }
}

impl EnumDescriptorProto {
    pub open spec fn name_spec(&self) -> Seq<char> {
        text_of(self.name)
    }

    /// The enum's name, empty when it has none.
    pub fn name(&self) -> (n: &str)
        ensures
            n@ == self.name_spec(),
    {
        text(&self.name)
    }
}

impl MethodDescriptorProto {
    pub open spec fn name_spec(&self) -> Seq<char> {
        text_of(self.name)
    }

    /// The method's name, empty when it has none.
    pub fn name(&self) -> (n: &str)
        ensures
            n@ == self.name_spec(),
    {
        text(&self.name)
    }
}

impl ServiceDescriptorProto {
    pub open spec fn name_spec(&self) -> Seq<char> {
        text_of(self.name)
    }

    /// The service's name, empty when it has none.
    pub fn name(&self) -> (n: &str)
        ensures
            n@ == self.name_spec(),
    {
        text(&self.name)
    }
}

impl DescriptorProto {
    pub open spec fn name_spec(&self) -> Seq<char> {
        text_of(self.name)
    }

    /// The message's name, empty when it has none.
    pub fn name(&self) -> (n: &str)
        ensures
            n@ == self.name_spec(),
    {
        text(&self.name)
    }
}

impl FileDescriptorProto {
    pub open spec fn name_spec(&self) -> Seq<char> {
        text_of(self.name)
    }

    pub open spec fn package_spec(&self) -> Seq<char> {
        text_of(self.package)
    }

    /// The file's name, empty when it has none.
    pub fn name(&self) -> (n: &str)
        ensures
            n@ == self.name_spec(),
    {
        text(&self.name)
    }

    /// The file's package, empty when it has none.
    pub fn package(&self) -> (p: &str)
        ensures
            p@ == self.package_spec(),
    {
        text(&self.package)
    }
}

/// `symbol` names one of `fields` declared under `prefix`.
pub open spec fn fields_define(
    prefix: Seq<char>,
    fields: Seq<FieldDescriptorProto>,
    symbol: Seq<char>,
) -> bool {
    exists|i: int| 0 <= i < fields.len() && symbol == fqn_spec(prefix, #[trigger] fields[i].name_spec())
}

/// `symbol` names one of the oneof declarations `decls` under `prefix`.
pub open spec fn oneofs_define(
    prefix: Seq<char>,
    decls: Seq<OneofDescriptorProto>,
    symbol: Seq<char>,
) -> bool {
    exists|i: int| 0 <= i < decls.len() && symbol == fqn_spec(prefix, #[trigger] decls[i].name_spec())
}

/// `symbol` names one of the enum values `values` under `prefix`.
pub open spec fn values_define(
    prefix: Seq<char>,
    values: Seq<EnumValueDescriptorProto>,
    symbol: Seq<char>,
) -> bool {
    exists|i: int| 0 <= i < values.len() && symbol == fqn_spec(prefix, #[trigger] values[i].name_spec())
}

/// `symbol` names the enum `en` declared under `prefix`, or one of its values.
pub open spec fn enum_defines(prefix: Seq<char>, en: EnumDescriptorProto, symbol: Seq<char>) -> bool {
    let own = fqn_spec(prefix, en.name_spec());
    symbol == own || values_define(own, en.value@, symbol)
}

/// `symbol` names one of `enums` declared under `prefix`, or a value of one.
pub open spec fn enums_define(
    prefix: Seq<char>,
    enums: Seq<EnumDescriptorProto>,
    symbol: Seq<char>,
) -> bool {
    exists|i: int| 0 <= i < enums.len() && #[trigger] enum_defines(prefix, enums[i], symbol)
}

/// `symbol` names one of the methods `methods` under `prefix`.
pub open spec fn methods_define(
    prefix: Seq<char>,
    methods: Seq<MethodDescriptorProto>,
    symbol: Seq<char>,
) -> bool {
    exists|i: int| 0 <= i < methods.len() && symbol == fqn_spec(prefix, #[trigger] methods[i].name_spec())
}

/// `symbol` names the service `svc` declared under `prefix`, or one of its
/// methods.
pub open spec fn service_defines(
    prefix: Seq<char>,
    svc: ServiceDescriptorProto,
    symbol: Seq<char>,
) -> bool {
    let own = fqn_spec(prefix, svc.name_spec());
    symbol == own || methods_define(own, svc.method@, symbol)
}

/// `symbol` names one of `services` declared under `prefix`, or a method of
/// one.
pub open spec fn services_define(
    prefix: Seq<char>,
    services: Seq<ServiceDescriptorProto>,
    symbol: Seq<char>,
) -> bool {
    exists|i: int| 0 <= i < services.len() && #[trigger] service_defines(prefix, services[i], symbol)
}

/// `symbol` names the message `msg` declared under `prefix`, or something
/// declared inside it at any depth: a nested message, an enum or one of its
/// values, an extension, a field, a oneof declaration.
pub open spec fn message_defines(prefix: Seq<char>, msg: DescriptorProto, symbol: Seq<char>) -> bool
    decreases msg,
{
    let own = fqn_spec(prefix, msg.name_spec());
    ||| symbol == own
    ||| (exists|i: int|
        0 <= i < msg.nested_type@.len() && message_defines(own, #[trigger] msg.nested_type@[i], symbol))
    ||| enums_define(own, msg.enum_type@, symbol)
    ||| fields_define(own, msg.extension@, symbol)
    ||| fields_define(own, msg.field@, symbol)
    ||| oneofs_define(own, msg.oneof_decl@, symbol)
}

/// `symbol` names one of `messages` declared under `prefix`, or something
/// inside one.
pub open spec fn messages_define(
    prefix: Seq<char>,
    messages: Seq<DescriptorProto>,
    symbol: Seq<char>,
) -> bool {
    exists|i: int| 0 <= i < messages.len() && message_defines(prefix, #[trigger] messages[i], symbol)
}

/// `symbol` is the fully-qualified name of something that `file` defines.
pub open spec fn file_defines(file: FileDescriptorProto, symbol: Seq<char>) -> bool {
    let package = file.package_spec();
    ||| messages_define(package, file.message_type@, symbol)
    ||| enums_define(package, file.enum_type@, symbol)
    ||| fields_define(package, file.extension@, symbol)
    ||| services_define(package, file.service@, symbol)
}

/// `symbol` is the fully-qualified name of one of `services` under `prefix`.
pub open spec fn services_declare(
    prefix: Seq<char>,
    services: Seq<ServiceDescriptorProto>,
    symbol: Seq<char>,
) -> bool {
    exists|i: int| 0 <= i < services.len() && symbol == fqn_spec(prefix, #[trigger] services[i].name_spec())
}

/// `symbol` is the fully-qualified name of a service of `file`.
pub open spec fn file_declares_service(file: FileDescriptorProto, symbol: Seq<char>) -> bool {
    services_declare(file.package_spec(), file.service@, symbol)
}

/// `name` is one of `names`.
pub open spec fn names_hold(names: Seq<String>, name: Seq<char>) -> bool {
    exists|i: int| 0 <= i < names.len() && name == (#[trigger] names[i])@
}

/// `name` stands in the dependency list of `file`.
pub open spec fn file_depends_on(file: FileDescriptorProto, name: Seq<char>) -> bool {
    names_hold(file.dependency@, name)
}

/// The fully-qualified names of all that `file` defines.
pub open spec fn file_symbols(file: FileDescriptorProto) -> Set<Seq<char>> {
    Set::new(|s: Seq<char>| file_defines(file, s))
}

/// The fully-qualified names of the services of `file`.
pub open spec fn file_services(file: FileDescriptorProto) -> Set<Seq<char>> {
    Set::new(|s: Seq<char>| file_declares_service(file, s))
}

/// The names in the dependency list of `file`.
pub open spec fn file_dependencies(file: FileDescriptorProto) -> Set<Seq<char>> {
    Set::new(|n: Seq<char>| file_depends_on(file, n))
}

} // verus!
