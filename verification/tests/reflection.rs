use mrbig::closure::closure_order;
use mrbig::descriptor::{
    DescriptorProto, FieldDescriptorProto, FileDescriptorProto, MethodDescriptorProto,
    ServiceDescriptorProto,
};
use mrbig::info_handler::{
    DescriptorMap, ExtensionRequest, InfoHandler, MessageRequest, MessageResponse, UNIMPLEMENTED,
};
use mrbig::lazy::{EncodedFile, LazyDescriptorMap};

fn message(name: &str) -> DescriptorProto {
    DescriptorProto {
        name: Some(name.into()),
        field: vec![FieldDescriptorProto { name: Some("name".into()), ..Default::default() }],
        ..Default::default()
    }
}

fn file(name: &str, package: &str, messages: &[&str], deps: &[&str]) -> EncodedFile {
    EncodedFile {
        descriptor: FileDescriptorProto {
            name: Some(name.into()),
            package: Some(package.into()),
            dependency: deps.iter().map(|d| d.to_string()).collect(),
            message_type: messages.iter().map(|m| message(m)).collect(),
            ..Default::default()
        },
        bytes: format!("<{}>", name).into_bytes(),
    }
}

fn types_file() -> EncodedFile {
    file("types.proto", "helloworld", &["HelloRequest", "HelloReply"], &[])
}

fn greeter_file() -> EncodedFile {
    let mut greeter = file("helloworld.proto", "helloworld", &[], &["types.proto"]);
    greeter.descriptor.service = vec![ServiceDescriptorProto {
        name: Some("Greeter".into()),
        method: vec![MethodDescriptorProto {
            name: Some("SayHello".into()),
            input_type: Some("HelloRequest".into()),
            ..Default::default()
        }],
    }];
    greeter
}

fn bytes_of(names: &[&str]) -> Vec<Vec<u8>> {
    names.iter().map(|n| format!("<{}>", n).into_bytes()).collect()
}

#[test]
fn by_symbol_returns_dependency_before_dependent() {
    let map = LazyDescriptorMap::from_descriptors(&vec![greeter_file(), types_file()]).unwrap();
    assert_eq!(
        map.by_symbol("helloworld.Greeter.SayHello"),
        bytes_of(&["types.proto", "helloworld.proto"])
    );
    let map = LazyDescriptorMap::from_descriptors(&vec![types_file(), greeter_file()]).unwrap();
    assert_eq!(
        map.by_symbol("helloworld.Greeter.SayHello"),
        bytes_of(&["types.proto", "helloworld.proto"])
    );
    assert_eq!(map.by_symbol("helloworld.Greeter"), bytes_of(&["types.proto", "helloworld.proto"]));
    assert_eq!(map.by_symbol("helloworld.HelloRequest"), bytes_of(&["types.proto"]));
    assert_eq!(map.by_symbol("helloworld.HelloRequest.name"), bytes_of(&["types.proto"]));
}

#[test]
fn by_filename_returns_closure() {
    let map = LazyDescriptorMap::from_descriptors(&vec![greeter_file(), types_file()]).unwrap();
    assert_eq!(map.len(), 2);
    assert_eq!(map.by_filename("helloworld.proto"), bytes_of(&["types.proto", "helloworld.proto"]));
    assert_eq!(map.by_filename("types.proto"), bytes_of(&["types.proto"]));
}

#[test]
fn unknown_keys_give_an_empty_result() {
    let map = LazyDescriptorMap::from_descriptors(&vec![greeter_file(), types_file()]).unwrap();
    assert!(map.by_symbol("helloworld.Nothing").is_empty());
    assert!(map.by_symbol("").is_empty());
    assert!(map.by_filename("nothing.proto").is_empty());
    assert!(map.by_filename("helloworld").is_empty());
    let empty = LazyDescriptorMap::from_descriptors(&vec![]).unwrap();
    assert_eq!(empty.len(), 0);
    assert!(empty.by_filename("helloworld.proto").is_empty());
    assert!(empty.services().is_empty());
}

#[test]
fn lookup_fails_on_missing_dependency() {
    let missing = LazyDescriptorMap::from_descriptors(&vec![greeter_file()]).err().unwrap();
    assert_eq!(missing.filename, "types.proto");
    assert_eq!(missing.message(), "dependency types.proto was not found");
}

#[test]
fn closure_is_transitive_and_holds_each_file_once() {
    // a depends on b and c; b and c depend on d; e stands alone
    let files = vec![
        file("a.proto", "a", &["A"], &["b.proto", "c.proto"]),
        file("b.proto", "b", &["B"], &["d.proto"]),
        file("c.proto", "c", &["C"], &["d.proto"]),
        file("d.proto", "d", &["D"], &[]),
        file("e.proto", "e", &["E"], &[]),
    ];
    let map = LazyDescriptorMap::from_descriptors(&files).unwrap();
    assert_eq!(
        map.by_filename("a.proto"),
        bytes_of(&["d.proto", "b.proto", "c.proto", "a.proto"])
    );
    assert_eq!(map.by_symbol("b.B"), bytes_of(&["d.proto", "b.proto"]));
    assert_eq!(map.by_symbol("c.C.name"), bytes_of(&["d.proto", "c.proto"]));
    assert_eq!(map.by_filename("e.proto"), bytes_of(&["e.proto"]));
}

#[test]
fn closure_ends_on_a_cycle() {
    let files = vec![
        file("a.proto", "a", &["A"], &["b.proto"]),
        file("b.proto", "b", &["B"], &["a.proto", "b.proto"]),
    ];
    let map = LazyDescriptorMap::from_descriptors(&files).unwrap();
    assert_eq!(map.by_filename("a.proto"), bytes_of(&["b.proto", "a.proto"]));
    assert_eq!(map.by_filename("b.proto"), bytes_of(&["a.proto", "b.proto"]));
}

#[test]
fn repeated_file_is_kept_once() {
    let mut again = types_file();
    again.bytes = b"other".to_vec();
    let map =
        LazyDescriptorMap::from_descriptors(&vec![types_file(), greeter_file(), again]).unwrap();
    assert_eq!(map.len(), 2);
    assert_eq!(map.by_filename("types.proto"), bytes_of(&["types.proto"]));
}

#[test]
fn closure_order_on_a_graph() {
    let lists: Vec<Vec<usize>> = vec![vec![1, 2], vec![3], vec![3, 1], vec![], vec![0]];
    assert_eq!(closure_order(&lists, 0), vec![3, 1, 2, 0]);
    assert_eq!(closure_order(&lists, 3), vec![3]);
    assert_eq!(closure_order(&lists, 4), vec![3, 1, 2, 0, 4]);
    let looped: Vec<Vec<usize>> = vec![vec![0, 1], vec![0]];
    assert_eq!(closure_order(&looped, 0), vec![1, 0]);
}

#[test]
fn lookup_lists_services_sorted() {
    let mut other = file("z.proto", "a", &[], &[]);
    other.descriptor.service =
        vec![ServiceDescriptorProto { name: Some("Early".into()), ..Default::default() }];
    let map = LazyDescriptorMap::from_descriptors(&vec![greeter_file(), types_file(), other]).unwrap();
    assert_eq!(map.services(), vec!["a.Early".to_string(), "helloworld.Greeter".to_string()]);
}

fn handler() -> InfoHandler<LazyDescriptorMap> {
    let map = LazyDescriptorMap::from_descriptors(&vec![greeter_file(), types_file()]).unwrap();
    InfoHandler::new(map.services(), map)
}

fn descriptors(response: MessageResponse) -> Vec<Vec<u8>> {
    match response {
        MessageResponse::FileDescriptorResponse(f) => f.file_descriptor_proto,
        other => panic!("no file descriptor response: {:?}", other),
    }
}

fn error(response: MessageResponse) -> (i32, String) {
    match response {
        MessageResponse::ErrorResponse(e) => (e.error_code, e.error_message),
        other => panic!("no error response: {:?}", other),
    }
}

fn listed(response: MessageResponse) -> Vec<String> {
    match response {
        MessageResponse::ListServicesResponse(l) => l.service.into_iter().map(|s| s.name).collect(),
        other => panic!("no list of services: {:?}", other),
    }
}

#[test]
fn handler_lists_services() {
    let handler = handler();
    assert_eq!(listed(handler.list_services("")), vec!["helloworld.Greeter".to_string()]);
    // the host that the client names does not filter the list
    assert_eq!(listed(handler.list_services("example.com")), vec!["helloworld.Greeter".to_string()]);
    let map = LazyDescriptorMap::from_descriptors(&vec![]).unwrap();
    let given = vec!["b.Two".to_string(), "a.One".to_string()];
    let handler = InfoHandler::new(given, map);
    assert_eq!(
        listed(handler.list_services("*")),
        vec!["a.One".to_string(), "b.Two".to_string()]
    );
}

#[test]
fn handler_lists_services_in_rising_order() {
    let names = ["rate.Rate", "hotel.Hotel", "", "profile.Profile", "hotel.Hotel", "Zed", "hotel"];
    let given: Vec<String> = names.iter().map(|n| n.to_string()).collect();
    let mut expected = given.clone();
    expected.sort();
    let handler = InfoHandler::new(given, Fixed);
    assert_eq!(listed(handler.list_services("")), expected);
    assert_eq!(
        listed(handler.handle(&MessageRequest::ListServices("host".into()))),
        vec!["", "Zed", "hotel", "hotel.Hotel", "hotel.Hotel", "profile.Profile", "rate.Rate"]
    );
}

#[test]
fn same_query_has_the_same_answer() {
    let files = vec![
        file("a.proto", "a", &["A"], &["c.proto", "b.proto"]),
        file("b.proto", "b", &["B"], &[]),
        file("c.proto", "c", &["C"], &[]),
    ];
    let map = LazyDescriptorMap::from_descriptors(&files).unwrap();
    // what a file depends on comes in the order of its list
    let expected = bytes_of(&["c.proto", "b.proto", "a.proto"]);
    assert_eq!(map.by_filename("a.proto"), expected);
    assert_eq!(map.by_filename("a.proto"), expected);
    assert_eq!(map.by_symbol("a.A"), expected);
    assert_eq!(map.by_symbol("a.A.name"), expected);
}

#[test]
fn handler_wraps_descriptor_lookups() {
    let handler = handler();
    assert_eq!(
        descriptors(handler.file_containing_symbol("helloworld.Greeter.SayHello")),
        bytes_of(&["types.proto", "helloworld.proto"])
    );
    assert_eq!(
        descriptors(handler.file_by_filename("helloworld.proto")),
        bytes_of(&["types.proto", "helloworld.proto"])
    );
    assert!(descriptors(handler.file_containing_symbol("unknown.Symbol")).is_empty());
    assert!(descriptors(handler.file_by_filename("unknown.proto")).is_empty());
}

#[test]
fn extensions_are_not_supported() {
    let handler = handler();
    for (ext_typ, ext_num) in [("helloworld.HelloRequest", 1), ("", 0), ("x", -5), ("y", i32::MAX)] {
        let (code, text) = error(handler.file_containing_extension(ext_typ, ext_num));
        assert_eq!(code, 12);
        assert_eq!(text, "extensions not supported");
    }
    for ty in ["helloworld.HelloRequest", "", "unknown"] {
        let (code, text) = error(handler.extension_numbers_of_type(ty));
        assert_eq!(code, UNIMPLEMENTED);
        assert_eq!(text, "extensions not supported");
    }
}

#[test]
fn handler_answers_each_kind_of_request() {
    let handler = handler();
    assert_eq!(
        descriptors(handler.handle(&MessageRequest::FileByFilename("types.proto".into()))),
        bytes_of(&["types.proto"])
    );
    assert_eq!(
        descriptors(
            handler.handle(&MessageRequest::FileContainingSymbol("helloworld.Greeter".into()))
        ),
        bytes_of(&["types.proto", "helloworld.proto"])
    );
    let request = MessageRequest::FileContainingExtension(ExtensionRequest {
        containing_type: "helloworld.HelloRequest".into(),
        extension_number: 7,
    });
    assert_eq!(error(handler.handle(&request)), (12, "extensions not supported".to_string()));
    let request = MessageRequest::AllExtensionNumbersOfType("helloworld.HelloRequest".into());
    assert_eq!(error(handler.handle(&request)), (12, "extensions not supported".to_string()));
    assert_eq!(
        listed(handler.handle(&MessageRequest::ListServices("".into()))),
        vec!["helloworld.Greeter".to_string()]
    );
}

struct Fixed;

impl DescriptorMap for Fixed {
    fn by_symbol(&self, symbol: &str) -> Vec<Vec<u8>> {
        vec![symbol.as_bytes().to_vec()]
    }

    fn by_filename(&self, _filename: &str) -> Vec<Vec<u8>> {
        vec![vec![]]
    }
}

#[test]
fn handler_serves_any_descriptor_source() {
    let handler = InfoHandler::new(vec![], Fixed);
    assert_eq!(descriptors(handler.file_containing_symbol("abc")), vec![b"abc".to_vec()]);
    assert_eq!(descriptors(handler.file_by_filename("abc")), vec![Vec::<u8>::new()]);
    assert!(listed(handler.list_services("")).is_empty());
}
