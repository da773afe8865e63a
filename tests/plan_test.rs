use loader_api::{
    image_load_path, parse_hex, parse_number, plan_load, process_channels, process_memory_regions,
    process_protection_domains, stack_size_in_range, strip_hex_prefix, Attribute, ChannelDecl,
    ChannelEndDecl, Declaration, Element, LoadError, MapDecl, MemoryRegionDecl, ProgramImageDecl,
    ProtectionDomainDecl, Step,
};

fn s(x: &str) -> Option<String> {
    Some(x.to_string())
}

fn region(name: &str, size: &str) -> MemoryRegionDecl {
    MemoryRegionDecl { name: s(name), size: s(size) }
}

fn domain(name: &str) -> ProtectionDomainDecl {
    ProtectionDomainDecl { name: s(name), stack_size: None, program_image: None, map: None }
}

fn end(pd: &str, id: &str) -> ChannelEndDecl {
    ChannelEndDecl { pd: s(pd), id: s(id) }
}

fn decl(
    memory_regions: Vec<MemoryRegionDecl>,
    protection_domains: Vec<ProtectionDomainDecl>,
    channels: Vec<ChannelDecl>,
) -> Declaration {
    Declaration { memory_regions, protection_domains, channels }
}

fn with_stack(size: &str) -> Declaration {
    let mut pd = domain("pd");
    pd.stack_size = s(size);
    decl(vec![], vec![pd], vec![])
}

fn describe(steps: &[Step]) -> Vec<String> {
    steps.iter().map(|st| format!("{:?}", st)).collect()
}

#[test]
fn stack_size_bounds() {
    assert!(!stack_size_in_range(0x0FFF));
    assert!(stack_size_in_range(0x1000));
    assert!(stack_size_in_range(0x1000000));
    assert!(!stack_size_in_range(0x1000001));
}

#[test]
fn stack_size_bounds_in_a_declaration() {
    match process_protection_domains(&with_stack("0x0FFF")) {
        Err(LoadError::StackSizeOutOfRange { process, stack_size }) => {
            assert_eq!((process.as_str(), stack_size), ("pd", 0x0FFF))
        }
        other => panic!("unexpected {:?}", other),
    }
    assert!(process_protection_domains(&with_stack("0x1000")).is_ok());
    assert!(process_protection_domains(&with_stack("0x1000000")).is_ok());
    match process_protection_domains(&with_stack("0x1000001")) {
        Err(LoadError::StackSizeOutOfRange { stack_size, .. }) => assert_eq!(stack_size, 0x1000001),
        other => panic!("unexpected {:?}", other),
    }
}

#[test]
fn stack_size_defaults_to_four_kib_without_padding() {
    let steps = process_protection_domains(&decl(vec![], vec![domain("pd")], vec![])).unwrap();
    assert_eq!(describe(&steps), vec!["CreateProcess { name: \"pd\", stack_size: 4096 }"]);
    let steps = process_protection_domains(&with_stack("2000")).unwrap();
    assert_eq!(describe(&steps), vec!["CreateProcess { name: \"pd\", stack_size: 8192 }"]);
}

#[test]
fn stack_size_that_does_not_fit_is_malformed() {
    assert!(matches!(
        process_protection_domains(&with_stack("0x100000000")),
        Err(LoadError::MalformedNumber { element: Element::ProtectionDomain, attribute: Attribute::StackSize })
    ));
    assert!(matches!(
        process_protection_domains(&with_stack("0xzz")),
        Err(LoadError::MalformedNumber { element: Element::ProtectionDomain, attribute: Attribute::StackSize })
    ));
}

#[test]
fn full_declaration_plans_all_phases_in_order() {
    let mut client = domain("client");
    client.stack_size = s("0x2000");
    client.program_image = Some(ProgramImageDecl { path: s("client.elf") });
    client.map = Some(MapDecl { mr: s("buffer"), setvar_vaddr: s("buf_vaddr") });
    let server = domain("server");
    let d = decl(
        vec![region("buffer", "0x1000")],
        vec![client, server],
        vec![ChannelDecl { ends: vec![end("client", "42"), end("server", "7")] }],
    );
    let steps = plan_load(&d).unwrap();
    assert_eq!(
        describe(&steps),
        vec![
            "CreateMemory { name: \"buffer\", size: 4096 }",
            "CreateProcess { name: \"client\", stack_size: 8192 }",
            "SetImage { process: \"client\", path: \"./build/client.so\" }",
            "Attach { process: \"client\", region: \"buffer\", varname: \"buf_vaddr\" }",
            "CreateProcess { name: \"server\", stack_size: 4096 }",
            "Connect { from: \"client\", to: \"server\", id: 42 }",
            "Connect { from: \"server\", to: \"client\", id: 7 }",
            "LaunchAll",
        ]
    );
}

#[test]
fn empty_declaration_only_launches() {
    let steps = plan_load(&decl(vec![], vec![], vec![])).unwrap();
    assert_eq!(describe(&steps), vec!["LaunchAll"]);
}

#[test]
fn channel_with_one_or_three_ends_is_rejected() {
    let pds = || vec![domain("a"), domain("b"), domain("c")];
    let one = decl(vec![], pds(), vec![ChannelDecl { ends: vec![end("a", "1")] }]);
    assert!(matches!(plan_load(&one), Err(LoadError::ChannelEndCount { ends: 1 })));
    let three = decl(
        vec![],
        pds(),
        vec![ChannelDecl { ends: vec![end("a", "1"), end("b", "2"), end("c", "3")] }],
    );
    assert!(matches!(plan_load(&three), Err(LoadError::ChannelEndCount { ends: 3 })));
    let none = decl(vec![], pds(), vec![ChannelDecl { ends: vec![] }]);
    assert!(matches!(process_channels(&none), Err(LoadError::ChannelEndCount { ends: 0 })));
}

#[test]
fn channel_end_errors() {
    let pds = || vec![domain("a"), domain("b")];
    let missing_pd = decl(
        vec![],
        pds(),
        vec![ChannelDecl { ends: vec![end("a", "1"), ChannelEndDecl { pd: None, id: s("2") }] }],
    );
    assert!(matches!(
        plan_load(&missing_pd),
        Err(LoadError::MissingAttribute { element: Element::ChannelEnd, attribute: Attribute::Pd })
    ));
    let missing_id = decl(
        vec![],
        pds(),
        vec![ChannelDecl { ends: vec![ChannelEndDecl { pd: s("a"), id: None }, end("b", "2")] }],
    );
    assert!(matches!(
        plan_load(&missing_id),
        Err(LoadError::MissingAttribute { element: Element::ChannelEnd, attribute: Attribute::Id })
    ));
    let bad_id = decl(vec![], pds(), vec![ChannelDecl { ends: vec![end("a", "0x1"), end("b", "2")] }]);
    assert!(matches!(
        plan_load(&bad_id),
        Err(LoadError::MalformedNumber { element: Element::ChannelEnd, attribute: Attribute::Id })
    ));
    let unknown = decl(vec![], pds(), vec![ChannelDecl { ends: vec![end("a", "1"), end("zz", "2")] }]);
    match plan_load(&unknown) {
        Err(LoadError::UnknownProcess { name }) => assert_eq!(name, "zz"),
        other => panic!("unexpected {:?}", other),
    }
}

#[test]
fn mapping_to_undeclared_region_aborts_the_load() {
    let mut pd = domain("pd");
    pd.map = Some(MapDecl { mr: s("nowhere"), setvar_vaddr: s("v") });
    let d = decl(vec![region("somewhere", "0x1000")], vec![pd], vec![]);
    match plan_load(&d) {
        Err(LoadError::UnknownMemoryRegion { name }) => assert_eq!(name, "nowhere"),
        other => panic!("unexpected {:?}", other),
    }
}

#[test]
fn missing_attributes_are_named() {
    let d = decl(vec![MemoryRegionDecl { name: None, size: s("0x1000") }], vec![], vec![]);
    assert!(matches!(
        plan_load(&d),
        Err(LoadError::MissingAttribute { element: Element::MemoryRegion, attribute: Attribute::Name })
    ));
    let d = decl(vec![MemoryRegionDecl { name: s("r"), size: None }], vec![], vec![]);
    assert!(matches!(
        process_memory_regions(&d),
        Err(LoadError::MissingAttribute { element: Element::MemoryRegion, attribute: Attribute::Size })
    ));
    let d = decl(vec![], vec![ProtectionDomainDecl { name: None, stack_size: None, program_image: None, map: None }], vec![]);
    assert!(matches!(
        plan_load(&d),
        Err(LoadError::MissingAttribute { element: Element::ProtectionDomain, attribute: Attribute::Name })
    ));
    let mut pd = domain("pd");
    pd.program_image = Some(ProgramImageDecl { path: None });
    assert!(matches!(
        plan_load(&decl(vec![], vec![pd], vec![])),
        Err(LoadError::MissingAttribute { element: Element::ProgramImage, attribute: Attribute::Path })
    ));
    let mut pd = domain("pd");
    pd.map = Some(MapDecl { mr: None, setvar_vaddr: s("v") });
    assert!(matches!(
        plan_load(&decl(vec![], vec![pd], vec![])),
        Err(LoadError::MissingAttribute { element: Element::Mapping, attribute: Attribute::Mr })
    ));
    let mut pd = domain("pd");
    pd.map = Some(MapDecl { mr: s("r"), setvar_vaddr: None });
    assert!(matches!(
        plan_load(&decl(vec![region("r", "1000")], vec![pd], vec![])),
        Err(LoadError::MissingAttribute { element: Element::Mapping, attribute: Attribute::SetvarVaddr })
    ));
}

#[test]
fn malformed_region_size_and_duplicates() {
    let d = decl(vec![region("r", "0x12g")], vec![], vec![]);
    assert!(matches!(
        plan_load(&d),
        Err(LoadError::MalformedNumber { element: Element::MemoryRegion, attribute: Attribute::Size })
    ));
    let d = decl(vec![region("r", "0x1000"), region("r", "0x2000")], vec![], vec![]);
    match plan_load(&d) {
        Err(LoadError::DuplicateMemoryRegion { name }) => assert_eq!(name, "r"),
        other => panic!("unexpected {:?}", other),
    }
    let d = decl(vec![], vec![domain("p"), domain("q"), domain("p")], vec![]);
    match plan_load(&d) {
        Err(LoadError::DuplicateProcess { name }) => assert_eq!(name, "p"),
        other => panic!("unexpected {:?}", other),
    }
    // a region and a process may share a name
    let d = decl(vec![region("x", "0x1000")], vec![domain("x")], vec![]);
    assert!(plan_load(&d).is_ok());
}

#[test]
fn earliest_phase_error_wins() {
    let d = decl(
        vec![region("r", "bad!")],
        vec![ProtectionDomainDecl { name: None, stack_size: None, program_image: None, map: None }],
        vec![ChannelDecl { ends: vec![] }],
    );
    assert!(matches!(
        plan_load(&d),
        Err(LoadError::MalformedNumber { element: Element::MemoryRegion, attribute: Attribute::Size })
    ));
}

#[test]
fn image_path_rewrites_extension() {
    assert_eq!(image_load_path("hello.elf"), "./build/hello.so");
    assert_eq!(image_load_path("dir/x.elf"), "./build/dir/x.so");
    assert_eq!(image_load_path("abc"), "./build/so");
    let mut pd = domain("pd");
    pd.program_image = Some(ProgramImageDecl { path: s("ab") });
    match plan_load(&decl(vec![], vec![pd], vec![])) {
        Err(LoadError::ImagePathTooShort { process }) => assert_eq!(process, "pd"),
        other => panic!("unexpected {:?}", other),
    }
}

#[test]
fn hex_and_decimal_parsing() {
    assert_eq!(parse_hex("0x1000", u64::MAX), Some(0x1000));
    assert_eq!(parse_hex("1000", u64::MAX), Some(0x1000));
    assert_eq!(parse_hex("0x0x10", u64::MAX), Some(0x10));
    assert_eq!(parse_hex("0xFFff", u64::MAX), Some(0xffff));
    assert_eq!(parse_hex("+ff", u64::MAX), Some(0xff));
    assert_eq!(parse_hex("0x", u64::MAX), None);
    assert_eq!(parse_hex("+", u64::MAX), None);
    assert_eq!(parse_hex("-1", u64::MAX), None);
    assert_eq!(parse_hex("0X10", u64::MAX), None);
    assert_eq!(parse_hex("ffffffffffffffff", u64::MAX), Some(u64::MAX));
    assert_eq!(parse_hex("10000000000000000", u64::MAX), None);
    assert_eq!(parse_hex("ffffffff", u32::MAX as u64), Some(0xffff_ffff));
    assert_eq!(parse_hex("100000000", u32::MAX as u64), None);
    assert_eq!(parse_number("42", 10, u64::MAX), Some(42));
    assert_eq!(parse_number("18446744073709551615", 10, u64::MAX), Some(u64::MAX));
    assert_eq!(parse_number("18446744073709551616", 10, u64::MAX), None);
    assert_eq!(parse_number("4a", 10, u64::MAX), None);
    assert_eq!(parse_number("", 10, u64::MAX), None);
    assert_eq!(parse_number(" 1", 10, u64::MAX), None);
    assert_eq!(strip_hex_prefix("0x0xab"), "ab");
    assert_eq!(strip_hex_prefix("0ab"), "0ab");
}
