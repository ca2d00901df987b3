use mu_config::blocks::{process_component_table, process_library_table};
use mu_config::layers::Config;
use mu_config::source::{parse_source, ParseError, SourceValue};
use mu_config::types::{Architecture, Module};
use mu_config::ComponentInstance;

fn text(s: &str) -> SourceValue {
    SourceValue::Text(s.to_string())
}

fn list(items: &[&str]) -> SourceValue {
    SourceValue::List(items.iter().map(|s| text(s)).collect())
}

fn entry(key: &str, value: SourceValue) -> (String, SourceValue) {
    (key.to_string(), value)
}

#[test]
fn a_block_declares_the_product_of_its_scopes_and_libraries() {
    let block = vec![
        entry("arch", list(&["X64", "Common"])),
        entry("module", list(&["Std", "dxe_driver", "Runtime"])),
        entry("DebugLib", text("DebugLibBase")),
        entry("PrintLib", text("PrintLibBase<DebugLib>")),
    ];
    let table = process_library_table(&block).unwrap();
    let entries = table.entries();
    assert_eq!(entries.len(), 12);
    for arch in [Architecture::X64, Architecture::Common] {
        for module in [Module::Std, Module::DxeDriver, Module::Custom("runtime".to_string())] {
            let debug = table.lookup_key(&"debuglib".to_string(), &arch, &module).unwrap();
            assert_eq!(debug.name, "debuglib");
            assert_eq!(debug.path, "DebugLibBase");
            let print = table.lookup_key(&"printlib".to_string(), &arch, &module).unwrap();
            assert_eq!(print.path, "PrintLibBase<DebugLib>");
        }
    }
    assert!(table.lookup_key(&"debuglib".to_string(), &Architecture::X64, &Module::Common).is_none());
}

#[test]
fn a_block_without_scopes_declares_for_the_common_scope() {
    let block = vec![entry("DebugLib", text("DebugLibBase"))];
    let table = process_library_table(&block).unwrap();
    let entries = table.entries();
    assert_eq!(entries.len(), 1);
    assert_eq!(entries[0].0.name, "debuglib");
    assert_eq!(entries[0].0.arch, Architecture::Common);
    assert_eq!(entries[0].0.module, Module::Common);
    assert_eq!(entries[0].1.path, "DebugLibBase");
}

#[test]
fn empty_scope_lists_stand_for_the_common_scope() {
    let block = vec![
        entry("arch", list(&[])),
        entry("module", list(&[])),
        entry("DebugLib", text("DebugLibBase")),
    ];
    let table = process_library_table(&block).unwrap();
    assert_eq!(table.entries().len(), 1);
    assert!(table.get("DebugLib", &Architecture::Common, &Module::Common).is_some());
}

#[test]
fn an_empty_block_declares_nothing() {
    let table = process_library_table(&vec![]).unwrap();
    assert_eq!(table.entries().len(), 0);
}

#[test]
fn scope_keys_are_read_whatever_their_case_and_the_last_stands() {
    let block = vec![
        entry("ARCH", list(&["X64"])),
        entry("DebugLib", text("DebugLibBase")),
        entry("Arch", list(&["AArch64"])),
        entry("Module", list(&["std"])),
    ];
    let table = process_library_table(&block).unwrap();
    let entries = table.entries();
    assert_eq!(entries.len(), 1);
    assert_eq!(entries[0].0.arch, Architecture::Custom("aarch64".to_string()));
    assert_eq!(entries[0].0.module, Module::Std);
}

#[test]
fn a_later_library_of_a_block_replaces_an_earlier_one() {
    let block = vec![
        entry("DebugLib", text("First")),
        entry("debuglib", text("Second")),
    ];
    let table = process_library_table(&block).unwrap();
    assert_eq!(table.entries().len(), 1);
    assert_eq!(
        table.get("DebugLib", &Architecture::Common, &Module::Common).unwrap().path,
        "Second"
    );
}

#[test]
fn a_scalar_architecture_list_is_refused() {
    let block = vec![entry("arch", text("X64")), entry("DebugLib", text("DebugLibBase"))];
    assert_eq!(process_library_table(&block).err(), Some(ParseError::ArchitecturesNotList));
}

#[test]
fn a_scalar_module_list_is_refused() {
    let block = vec![entry("module", SourceValue::Integer(3))];
    assert_eq!(process_library_table(&block).err(), Some(ParseError::ModulesNotList));
}

#[test]
fn an_architecture_that_is_no_string_is_refused() {
    let block = vec![entry(
        "arch",
        SourceValue::List(vec![text("X64"), SourceValue::Boolean(true)]),
    )];
    assert_eq!(process_library_table(&block).err(), Some(ParseError::ArchitectureNotText));
}

#[test]
fn a_module_kind_that_is_no_string_is_refused() {
    let block = vec![entry("module", SourceValue::List(vec![SourceValue::Float]))];
    assert_eq!(process_library_table(&block).err(), Some(ParseError::ModuleNotText));
}

#[test]
fn an_instance_that_is_no_string_is_refused() {
    let block = vec![
        entry("DebugLib", text("DebugLibBase")),
        entry("PrintLib", SourceValue::Integer(1)),
        entry("arch", text("X64")),
    ];
    assert_eq!(
        process_library_table(&block).err(),
        Some(ParseError::InstanceNotText("PrintLib".to_string()))
    );
}

#[test]
fn a_component_block_binds_its_names_to_its_scope() {
    let block = vec![
        entry("MyDriver", SourceValue::Boolean(true)),
        entry("arch", text("X64")),
        entry("module", text("dxe_driver")),
        entry("OtherDriver", SourceValue::Table(vec![])),
    ];
    let table = process_component_table(&block).unwrap();
    let scope = ComponentInstance { arch: Architecture::X64, module: Module::DxeDriver };
    assert_eq!(table.get("mydriver"), Some(scope.clone()));
    assert_eq!(table.get("OtherDriver"), Some(scope));
    assert_eq!(table.entries().len(), 2);
}

#[test]
fn a_component_block_without_scope_is_common() {
    let block = vec![entry("MyDriver", SourceValue::Boolean(true))];
    let table = process_component_table(&block).unwrap();
    assert_eq!(
        table.get("MyDriver"),
        Some(ComponentInstance { arch: Architecture::Common, module: Module::Common })
    );
}

#[test]
fn a_component_scope_that_is_no_string_is_refused() {
    let arch = vec![entry("arch", list(&["X64"])), entry("MyDriver", SourceValue::Boolean(true))];
    assert_eq!(process_component_table(&arch).err(), Some(ParseError::ArchitectureNotText));
    let module = vec![entry("MyDriver", SourceValue::Boolean(true)), entry("module", SourceValue::Datetime)];
    assert_eq!(process_component_table(&module).err(), Some(ParseError::ModuleNotText));
}

#[test]
fn try_from_reads_strings_only() {
    assert_eq!(Architecture::try_from(&text("x64")), Ok(Architecture::X64));
    assert_eq!(Architecture::try_from(&SourceValue::Integer(64)), Err(ParseError::ArchitectureNotText));
    assert_eq!(Module::try_from(&text("Std")), Ok(Module::Std));
    assert_eq!(Module::try_from(&list(&["Std"])), Err(ParseError::ModuleNotText));
}

#[test]
fn a_source_is_parsed_into_its_document() {
    let document = parse_source("title = \"x\"\nn = 3\nflag = true\nratio = 1.5\nwhen = 1979-05-27\nitems = [\"a\", \"b\"]\n[table]\nkey = \"value\"\n").unwrap();
    let expected = SourceValue::Table(vec![
        entry("flag", SourceValue::Boolean(true)),
        entry("items", list(&["a", "b"])),
        entry("n", SourceValue::Integer(3)),
        entry("ratio", SourceValue::Float),
        entry("table", SourceValue::Table(vec![entry("key", text("value"))])),
        entry("title", text("x")),
        entry("when", SourceValue::Datetime),
    ]);
    assert_eq!(document, expected);
}

#[test]
fn a_text_that_is_no_source_is_refused() {
    assert_eq!(parse_source("this is = = not toml").err(), Some(ParseError::Syntax));
    assert_eq!(Config::from_toml("[[libraries").err(), Some(ParseError::Syntax));
}

#[test]
fn a_document_that_is_no_table_is_refused() {
    assert_eq!(Config::from_source(&text("x")).err(), Some(ParseError::DocumentNotTable));
}

#[test]
fn a_section_under_two_names_is_refused() {
    let source = "[[libraries]]\nA = \"ImplA\"\n[[libraryinstances]]\nB = \"ImplB\"\n";
    assert_eq!(
        Config::from_toml(source).err(),
        Some(ParseError::DuplicateSection("libraryinstances".to_string()))
    );
    let document = SourceValue::Table(vec![
        entry("Components", SourceValue::List(vec![])),
        entry("components", SourceValue::List(vec![])),
    ]);
    assert_eq!(
        Config::from_source(&document).err(),
        Some(ParseError::DuplicateSection("components".to_string()))
    );
}

#[test]
fn a_section_that_is_no_list_is_refused() {
    assert_eq!(
        Config::from_toml("libraries = \"x\"\n").err(),
        Some(ParseError::SectionNotList("libraries".to_string()))
    );
    assert_eq!(
        Config::from_toml("[components]\nMyDriver = true\n").err(),
        Some(ParseError::SectionNotList("components".to_string()))
    );
}

#[test]
fn a_block_that_is_no_table_is_refused() {
    assert_eq!(
        Config::from_toml("LibraryInstances = [\"x\"]\n").err(),
        Some(ParseError::BlockNotTable("LibraryInstances".to_string()))
    );
    assert_eq!(
        Config::from_toml("Components = [1]\n").err(),
        Some(ParseError::BlockNotTable("Components".to_string()))
    );
}

#[test]
fn errors_inside_blocks_come_out_of_the_layer() {
    assert_eq!(
        Config::from_toml("[[libraries]]\narch = \"X64\"\n").err(),
        Some(ParseError::ArchitecturesNotList)
    );
    assert_eq!(
        Config::from_toml("[[components]]\nmodule = 4\n").err(),
        Some(ParseError::ModuleNotText)
    );
}

#[test]
fn a_missing_section_declares_nothing_and_other_keys_are_passed_over() {
    let config = Config::from_toml("title = \"platform\"\n[[libraries]]\nA = \"ImplA\"\n").unwrap();
    assert_eq!(config.libraries.entries().len(), 1);
    assert_eq!(config.components.entries().len(), 0);
    let empty = Config::from_toml("").unwrap();
    assert_eq!(empty.libraries.entries().len(), 0);
    assert_eq!(empty.components.entries().len(), 0);
}

#[test]
fn later_blocks_of_a_layer_stand_over_earlier_ones() {
    let source = r#"
[[libraries]]
DebugLib = "First"
PrintLib = "PrintLibBase"

[[libraries]]
DebugLib = "Second"

[[components]]
arch = "X64"
MyDriver = true

[[components]]
module = "std"
MYDRIVER = true
"#;
    let config = Config::from_toml(source).unwrap();
    assert_eq!(
        config.libraries.get("DebugLib", &Architecture::Common, &Module::Common).unwrap().path,
        "Second"
    );
    assert_eq!(
        config.libraries.get("PrintLib", &Architecture::Common, &Module::Common).unwrap().path,
        "PrintLibBase"
    );
    assert_eq!(
        config.components.get("MyDriver"),
        Some(ComponentInstance { arch: Architecture::Common, module: Module::Std })
    );
}

#[test]
fn declarations_make_a_layer_for_every_scope() {
    let layer = Config::from_declarations(&vec![
        ("DebugLib".to_string(), "First".to_string()),
        ("PrintLib".to_string(), "PrintLibBase".to_string()),
        ("debuglib".to_string(), "Second".to_string()),
    ]);
    assert_eq!(layer.libraries.entries().len(), 2);
    assert_eq!(layer.components.entries().len(), 0);
    assert_eq!(
        layer.libraries.get("DebugLib", &Architecture::X64, &Module::DxeDriver).unwrap().path,
        "Second"
    );
}
