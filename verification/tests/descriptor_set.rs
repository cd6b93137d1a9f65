use mrbig::command::format_command_duration;
use mrbig::descriptor::{DescriptorProto, FileDescriptorProto, ServiceDescriptorProto};
use mrbig::info_handler::DescriptorMap;
use mrbig::lazy::{sort_by_name, EncodedFile, LazyDescriptorMap};
use mrbig::registry::{reflected_services, services_with_health, Registration};

fn named(name: &str, tag: u8, deps: &[&str]) -> EncodedFile {
    EncodedFile {
        descriptor: FileDescriptorProto {
            name: Some(name.into()),
            package: Some(name.trim_end_matches(".proto").into()),
            dependency: deps.iter().map(|d| d.to_string()).collect(),
            message_type: vec![DescriptorProto { name: Some("M".into()), ..Default::default() }],
            service: vec![ServiceDescriptorProto { name: Some("S".into()), ..Default::default() }],
            ..Default::default()
        },
        bytes: vec![tag],
    }
}

fn tags(files: &[EncodedFile]) -> Vec<u8> {
    files.iter().map(|f| f.bytes[0]).collect()
}

#[test]
fn files_are_sorted_by_name_and_stay_in_order() {
    let files = vec![
        named("rate.proto", 1, &[]),
        named("hotel.proto", 2, &[]),
        named("reflection.proto", 3, &[]),
        named("hotel.proto", 4, &[]),
        named("profile.proto", 5, &[]),
        named("", 6, &[]),
        named("hotel.proto", 7, &[]),
    ];
    let sorted = sort_by_name(files);
    assert_eq!(tags(&sorted), vec![6, 2, 4, 7, 5, 1, 3]);
    let names: Vec<&str> = sorted.iter().map(|f| f.descriptor.name()).collect();
    let mut expected = names.clone();
    expected.sort();
    assert_eq!(names, expected);
    assert!(sort_by_name(vec![]).is_empty());
    assert_eq!(tags(&sort_by_name(vec![named("a", 9, &[])])), vec![9]);
}

#[test]
fn descriptor_set_is_built_in_name_order() {
    let files = vec![
        named("hotel.proto", 1, &["rate.proto", "profile.proto"]),
        named("rate.proto", 2, &[]),
        named("profile.proto", 3, &[]),
        named("rate.proto", 4, &[]),
    ];
    let map = LazyDescriptorMap::from_descriptor_set(files).unwrap();
    assert_eq!(map.len(), 3);
    assert_eq!(map.by_filename("hotel.proto"), vec![vec![2], vec![3], vec![1]]);
    assert_eq!(map.by_symbol("hotel.S"), vec![vec![2], vec![3], vec![1]]);
    assert_eq!(map.by_symbol("rate.M"), vec![vec![2]]);
    assert_eq!(
        map.services(),
        vec!["hotel.S".to_string(), "profile.S".to_string(), "rate.S".to_string()]
    );
    let missing = LazyDescriptorMap::from_descriptor_set(vec![
        named("hotel.proto", 1, &["rate.proto", "profile.proto"]),
        named("zz.proto", 2, &["aa.proto"]),
    ])
    .err()
    .unwrap();
    assert_eq!(missing.filename, "aa.proto");
}

fn registration(name: &str, reflect: bool, health: bool) -> Registration {
    Registration { service_fqn: name.into(), reflect, health }
}

fn strings(names: &[&str]) -> Vec<String> {
    names.iter().map(|n| n.to_string()).collect()
}

#[test]
fn reflection_lists_registered_and_builtin_services() {
    let available = strings(&[
        "grpc.health.v1.Health",
        "grpc.reflection.v1alpha.ServerReflection",
        "hotel.Hotel",
        "profile.Profile",
        "rate.Rate",
    ]);
    let registered = vec![
        registration("rate.Rate", true, true),
        registration("profile.Profile", false, true),
        registration("absent.Service", true, false),
    ];
    assert_eq!(
        reflected_services(&available, &registered, true),
        strings(&["grpc.health.v1.Health", "grpc.reflection.v1alpha.ServerReflection", "rate.Rate"])
    );
    assert_eq!(
        reflected_services(&available, &registered, false),
        strings(&["grpc.reflection.v1alpha.ServerReflection", "rate.Rate"])
    );
    assert_eq!(
        reflected_services(&available, &vec![], false),
        strings(&["grpc.reflection.v1alpha.ServerReflection"])
    );
    assert!(reflected_services(&vec![], &registered, true).is_empty());
}

#[test]
fn health_reports_on_registered_services_and_the_server() {
    let registered = vec![
        registration("rate.Rate", true, true),
        registration("profile.Profile", true, false),
        registration("hotel.Hotel", false, true),
    ];
    assert_eq!(
        services_with_health(&registered, true),
        strings(&["rate.Rate", "hotel.Hotel", "grpc.reflection.v1alpha", ""])
    );
    assert_eq!(services_with_health(&registered, false), strings(&["rate.Rate", "hotel.Hotel", ""]));
    assert_eq!(services_with_health(&vec![], false), strings(&[""]));
}

#[test]
fn command_duration_reads_as_minutes_or_seconds() {
    assert_eq!(format_command_duration(0, 0), "0.00s");
    assert_eq!(format_command_duration(59, 250_000_000), "59.25s");
    assert_eq!(format_command_duration(3, 999_999_999), "3.99s");
    assert_eq!(format_command_duration(7, 50_000_000), "7.05s");
    assert_eq!(format_command_duration(60, 0), "1m 00s");
    assert_eq!(format_command_duration(187, 900_000_000), "3m 07s");
    assert_eq!(format_command_duration(3599, 0), "59m 59s");
    assert_eq!(format_command_duration(36_000, 0), "600m 00s");
    for (seconds, nanos) in [
        (0u64, 9_999_999u32),
        (1, 10_000_000),
        (12, 345_678_901),
        (59, 999_999_999),
        (61, 1),
        (119, 0),
        (100_000, 5),
        (u64::MAX, u32::MAX),
        (5, u32::MAX),
    ] {
        let expected = if seconds >= 60 {
            format!("{}m {:02}s", seconds / 60, seconds % 60)
        } else {
            format!("{}.{:02}s", seconds, nanos / 10_000_000)
        };
        assert_eq!(format_command_duration(seconds, nanos), expected);
    }
}
