use mrbig::descriptor::{
    DescriptorProto, EnumDescriptorProto, EnumValueDescriptorProto, FieldDescriptorProto,
    FileDescriptorProto, MethodDescriptorProto, OneofDescriptorProto, ServiceDescriptorProto,
};
use mrbig::fqn::fqn;
use mrbig::symbol_map::SymbolMap;

fn isolated_file() -> FileDescriptorProto {
    FileDescriptorProto {
        name: Some("helloworld.proto".into()),
        package: Some("helloworld".into()),
        message_type: vec![DescriptorProto {
            name: Some("HelloRequest".into()),
            field: vec![FieldDescriptorProto {
                name: Some("name".into()),
                ..Default::default()
            }],
            ..Default::default()
        }],
        ..Default::default()
    }
}

fn another_isolated_file() -> FileDescriptorProto {
    FileDescriptorProto {
        name: Some("void.proto".into()),
        package: Some("void".into()),
        message_type: vec![DescriptorProto {
            name: Some("VoidRequest".into()),
            field: vec![FieldDescriptorProto {
                name: Some("name".into()),
                ..Default::default()
            }],
            ..Default::default()
        }],
        ..Default::default()
    }
}

fn with_service() -> FileDescriptorProto {
    let mut fdp = isolated_file();
    fdp.service = vec![ServiceDescriptorProto {
        name: Some("Greeter".into()),
        method: vec![MethodDescriptorProto {
            name: Some("SayHello".into()),
            input_type: Some("HelloRequest".into()),
            ..Default::default()
        }],
        ..Default::default()
    }];
    fdp
}

fn with_dependency() -> FileDescriptorProto {
    let mut fdp = another_isolated_file();
    fdp.dependency = vec!["helloworld.proto".into()];
    fdp
}

#[test]
fn test_isolated() {
    let isol = isolated_file();
    let mut sym = SymbolMap::new();
    sym.insert(isol.name(), &isol);

    // no services
    assert_eq!(sym.services().len(), 0);

    let map = sym.as_inner();

    // fully qualified name of message type
    assert!(map.get("helloworld.HelloRequest").is_some());
}

#[test]
fn test_with_service() {
    let with_srv = with_service();

    let mut sym = SymbolMap::new();
    sym.insert(with_srv.name(), &with_srv);

    // one service
    assert_eq!(sym.services().into_iter().nth(0).unwrap(), "helloworld.Greeter");

    let map = sym.as_inner();

    // fully qualified name of service method
    assert!(map.get("helloworld.Greeter.SayHello").is_some());
}

#[test]
fn test_ok_dependency() {
    let void = with_dependency();
    let hello = isolated_file();

    let mut sym = SymbolMap::new();
    sym.insert(void.name(), &void);
    sym.insert(hello.name(), &hello);

    // no services
    assert_eq!(sym.services().len(), 0);

    let map = sym.as_inner();

    // fully qualified name of message type
    assert!(map.get("helloworld.HelloRequest").is_some());
    // every dependency was put in
    assert!(sym.validate().is_ok());
}

#[test]
#[should_panic(expected = "dependency helloworld.proto was not found")]
fn test_broken_dependency() {
    let void = with_dependency();

    let mut sym = SymbolMap::new();
    sym.insert(void.name(), &void);
    if let Err(missing) = sym.validate() {
        panic!("{}", missing.message());
    }
}

#[test]
fn fqn_joins_with_a_dot() {
    assert_eq!(fqn("", "HelloRequest"), "HelloRequest");
    assert_eq!(fqn("helloworld", "HelloRequest"), "helloworld.HelloRequest");
    assert_eq!(fqn("a.b", ""), "a.b.");
    assert_eq!(fqn("", ""), "");
}

#[test]
fn isolated_file_indexes_message_and_field() {
    let isol = isolated_file();
    let mut sym = SymbolMap::new();
    sym.insert(isol.name(), &isol);
    let map = sym.as_inner();
    assert_eq!(map.len(), 2);
    assert_eq!(map.get("helloworld.HelloRequest").unwrap(), "helloworld.proto");
    assert_eq!(map.get("helloworld.HelloRequest.name").unwrap(), "helloworld.proto");
    assert!(map.get("HelloRequest").is_none());
    assert!(sym.services().is_empty());
}

#[test]
fn service_and_method_are_indexed() {
    let with_srv = with_service();
    let mut sym = SymbolMap::new();
    sym.insert(with_srv.name(), &with_srv);
    assert_eq!(sym.services(), vec!["helloworld.Greeter".to_string()]);
    let map = sym.as_inner();
    assert_eq!(map.get("helloworld.Greeter").unwrap(), "helloworld.proto");
    assert_eq!(map.get("helloworld.Greeter.SayHello").unwrap(), "helloworld.proto");
    assert_eq!(map.len(), 4);
}

#[test]
fn dependency_supplied_in_either_order() {
    let first = SymbolMap::from_descriptors(&vec![with_dependency(), isolated_file()]);
    let second = SymbolMap::from_descriptors(&vec![isolated_file(), with_dependency()]);
    let first = first.expect("closed set");
    let second = second.expect("closed set");
    assert!(first.as_inner().get("helloworld.HelloRequest").is_some());
    assert!(second.as_inner().get("helloworld.HelloRequest").is_some());
    assert_eq!(first.as_inner().names(), second.as_inner().names());
    assert_eq!(first.services(), second.services());
}

#[test]
fn missing_dependency_is_named() {
    let built = SymbolMap::from_descriptors(&vec![with_dependency()]);
    let missing = built.err().expect("not closed");
    assert_eq!(missing.filename, "helloworld.proto");
    assert_eq!(missing.message(), "dependency helloworld.proto was not found");
}

#[test]
fn first_missing_dependency_in_string_order() {
    let mut file = another_isolated_file();
    file.dependency = vec!["z.proto".into(), "b.proto".into(), "void.proto".into(), "a.proto".into()];
    let mut sym = SymbolMap::new();
    sym.insert(file.name(), &file);
    let a = FileDescriptorProto { name: Some("a.proto".into()), ..Default::default() };
    sym.insert(a.name(), &a);
    assert_eq!(sym.validate().err().unwrap().filename, "b.proto");
}

#[test]
fn same_file_twice_is_read_once() {
    let hello = with_service();
    let mut once = SymbolMap::new();
    once.insert(hello.name(), &hello);
    let mut twice = SymbolMap::new();
    twice.insert(hello.name(), &hello);
    // a second file under the same name is not read, whatever it holds
    twice.insert(hello.name(), &another_isolated_file());
    assert_eq!(once.as_inner().names(), twice.as_inner().names());
    assert_eq!(once.services(), twice.services());
    assert!(twice.as_inner().get("void.VoidRequest").is_none());
}

#[test]
fn same_message_name_in_two_packages() {
    let one = FileDescriptorProto {
        name: Some("one.proto".into()),
        package: Some("one".into()),
        message_type: vec![DescriptorProto { name: Some("Item".into()), ..Default::default() }],
        ..Default::default()
    };
    let two = FileDescriptorProto {
        name: Some("two.proto".into()),
        package: Some("two".into()),
        message_type: vec![DescriptorProto { name: Some("Item".into()), ..Default::default() }],
        ..Default::default()
    };
    let sym = SymbolMap::from_descriptors(&vec![one, two]).unwrap();
    let map = sym.as_inner();
    assert_eq!(map.get("one.Item").unwrap(), "one.proto");
    assert_eq!(map.get("two.Item").unwrap(), "two.proto");
    assert_eq!(map.len(), 2);
}

#[test]
fn every_kind_of_symbol_is_indexed() {
    let file = FileDescriptorProto {
        name: Some("all.proto".into()),
        package: Some("pkg".into()),
        message_type: vec![DescriptorProto {
            name: Some("Outer".into()),
            field: vec![FieldDescriptorProto { name: Some("id".into()), ..Default::default() }],
            extension: vec![FieldDescriptorProto {
                name: Some("inner_ext".into()),
                ..Default::default()
            }],
            nested_type: vec![DescriptorProto {
                name: Some("Inner".into()),
                field: vec![FieldDescriptorProto {
                    name: Some("deep".into()),
                    ..Default::default()
                }],
                nested_type: vec![DescriptorProto {
                    name: Some("Innermost".into()),
                    ..Default::default()
                }],
                ..Default::default()
            }],
            enum_type: vec![EnumDescriptorProto {
                name: Some("Kind".into()),
                value: vec![
                    EnumValueDescriptorProto { name: Some("A".into()), number: Some(0) },
                    EnumValueDescriptorProto { name: Some("B".into()), number: Some(1) },
                ],
            }],
            oneof_decl: vec![OneofDescriptorProto { name: Some("choice".into()) }],
        }],
        enum_type: vec![EnumDescriptorProto {
            name: Some("Top".into()),
            value: vec![EnumValueDescriptorProto { name: Some("X".into()), number: Some(0) }],
        }],
        extension: vec![FieldDescriptorProto { name: Some("top_ext".into()), ..Default::default() }],
        service: vec![ServiceDescriptorProto {
            name: Some("Svc".into()),
            method: vec![
                MethodDescriptorProto { name: Some("Get".into()), ..Default::default() },
                MethodDescriptorProto { name: Some("Put".into()), ..Default::default() },
            ],
        }],
        ..Default::default()
    };
    let mut sym = SymbolMap::new();
    sym.insert(file.name(), &file);
    let expected = vec![
        "pkg.Outer",
        "pkg.Outer.Inner",
        "pkg.Outer.Inner.Innermost",
        "pkg.Outer.Inner.deep",
        "pkg.Outer.Kind",
        "pkg.Outer.Kind.A",
        "pkg.Outer.Kind.B",
        "pkg.Outer.choice",
        "pkg.Outer.id",
        "pkg.Outer.inner_ext",
        "pkg.Svc",
        "pkg.Svc.Get",
        "pkg.Svc.Put",
        "pkg.Top",
        "pkg.Top.X",
        "pkg.top_ext",
    ];
    let names = sym.as_inner().names();
    assert_eq!(names, expected);
    for symbol in expected {
        assert_eq!(sym.as_inner().get(symbol).unwrap(), "all.proto");
    }
    assert_eq!(sym.services(), vec!["pkg.Svc".to_string()]);
}

#[test]
fn file_without_package_or_names() {
    let file = FileDescriptorProto {
        name: None,
        package: None,
        message_type: vec![DescriptorProto {
            name: Some("M".into()),
            field: vec![FieldDescriptorProto { name: None, ..Default::default() }],
            ..Default::default()
        }],
        ..Default::default()
    };
    assert_eq!(file.name(), "");
    assert_eq!(file.package(), "");
    let mut sym = SymbolMap::new();
    sym.insert(file.name(), &file);
    assert_eq!(sym.as_inner().names(), vec!["M".to_string(), "M.".to_string()]);
    assert_eq!(sym.as_inner().get("M").unwrap(), "");
}

#[test]
fn services_come_out_sorted() {
    let file = FileDescriptorProto {
        name: Some("s.proto".into()),
        package: Some("p".into()),
        service: vec![
            ServiceDescriptorProto { name: Some("Zeta".into()), ..Default::default() },
            ServiceDescriptorProto { name: Some("Alpha".into()), ..Default::default() },
            ServiceDescriptorProto { name: Some("Mid".into()), ..Default::default() },
            ServiceDescriptorProto { name: Some("Alpha".into()), ..Default::default() },
        ],
        ..Default::default()
    };
    let mut sym = SymbolMap::new();
    sym.insert(file.name(), &file);
    assert_eq!(
        sym.services(),
        vec!["p.Alpha".to_string(), "p.Mid".to_string(), "p.Zeta".to_string()]
    );
}

#[test]
fn last_write_wins_on_duplicate_symbol() {
    let one = FileDescriptorProto {
        name: Some("one.proto".into()),
        package: Some("p".into()),
        message_type: vec![DescriptorProto { name: Some("M".into()), ..Default::default() }],
        ..Default::default()
    };
    let two = FileDescriptorProto {
        name: Some("two.proto".into()),
        package: Some("p".into()),
        message_type: vec![DescriptorProto { name: Some("M".into()), ..Default::default() }],
        ..Default::default()
    };
    let sym = SymbolMap::from_descriptors(&vec![one, two]).unwrap();
    assert_eq!(sym.as_inner().get("p.M").unwrap(), "two.proto");
    assert_eq!(sym.as_inner().len(), 1);
}
