use mu_config::layers::Config;
use mu_config::types::{Architecture, Module};
use mu_config::{ComponentInstance, ComponentInstances, LibraryInstance, LibraryInstances};

const CONFIG: &str = r#"
[[libraries]]
AdvLib = "pkg1::library::AdvLibBase"
TestLib = "pkg1::library::TestLibBase"

[[libraries]]
arch = ["X64"]
AdvLib = "pkg1::library::AdvLibX64"

[[libraries]]
arch = ["X64"]
module = ["DXE_DRIVER"]
AdvLib = "pkg1::library::AdvLibDxeOpt"
TestLib = "pkg1::library::TestLibDxeOpt<AdvLib>"

[[components]]
arch = "X64"
module = "DXE_DRIVER"
MyDriver = true
"#;

#[test]
fn test_config() {
    let config = Config::from_toml(CONFIG).unwrap();

    assert_eq!(
        config.libraries.get("AdvLib", &Architecture::Common, &Module::Common).unwrap().path,
        "pkg1::library::AdvLibBase"
    );

    assert_eq!(
        config.libraries.get("AdvLib", &Architecture::X64, &Module::Common).unwrap().path,
        "pkg1::library::AdvLibX64"
    );

    assert_eq!(
        config.libraries.get("AdvLib", &Architecture::X64, &Module::DxeDriver).unwrap().path,
        "pkg1::library::AdvLibDxeOpt"
    );

    assert_eq!(
        config.libraries.get("TestLib", &Architecture::X64, &Module::DxeDriver).unwrap().path,
        "pkg1::library::TestLibDxeOpt<AdvLib>"
    );

    assert_eq!(config.components.get("MyDriver").unwrap().arch, Architecture::X64);

    assert_eq!(config.components.get("MyDriver").unwrap().module, Module::DxeDriver);
}

fn table(entries: &[(&str, Architecture, Module, &str)]) -> LibraryInstances {
    let mut out = LibraryInstances::new();
    for (name, arch, module, path) in entries {
        out.declare(name, arch.clone(), module.clone(), path.to_string());
    }
    out
}

fn path_of(found: Option<LibraryInstance>) -> Option<String> {
    found.map(|instance| instance.path)
}

#[test]
fn lookup_prefers_the_exact_scope() {
    let t = table(&[
        ("AdvLib", Architecture::Common, Module::Common, "AdvLibBase"),
        ("AdvLib", Architecture::Common, Module::DxeDriver, "AdvLibDxe"),
        ("AdvLib", Architecture::X64, Module::Common, "AdvLibX64"),
        ("AdvLib", Architecture::X64, Module::DxeDriver, "AdvLibDxeOpt"),
    ]);
    assert_eq!(
        path_of(t.get("AdvLib", &Architecture::X64, &Module::DxeDriver)),
        Some("AdvLibDxeOpt".to_string())
    );
}

#[test]
fn lookup_falls_back_to_the_architecture() {
    let t = table(&[
        ("AdvLib", Architecture::Common, Module::Common, "AdvLibBase"),
        ("AdvLib", Architecture::Common, Module::DxeDriver, "AdvLibDxe"),
        ("AdvLib", Architecture::X64, Module::Common, "AdvLibX64"),
    ]);
    assert_eq!(
        path_of(t.get("AdvLib", &Architecture::X64, &Module::DxeDriver)),
        Some("AdvLibX64".to_string())
    );
}

#[test]
fn lookup_falls_back_to_the_module_kind() {
    let t = table(&[
        ("AdvLib", Architecture::Common, Module::Common, "AdvLibBase"),
        ("AdvLib", Architecture::Common, Module::DxeDriver, "AdvLibDxe"),
    ]);
    assert_eq!(
        path_of(t.get("AdvLib", &Architecture::X64, &Module::DxeDriver)),
        Some("AdvLibDxe".to_string())
    );
}

#[test]
fn lookup_falls_back_to_the_common_scope() {
    let t = table(&[("AdvLib", Architecture::Common, Module::Common, "AdvLibBase")]);
    assert_eq!(
        path_of(t.get("AdvLib", &Architecture::X64, &Module::DxeDriver)),
        Some("AdvLibBase".to_string())
    );
}

#[test]
fn lookup_finds_nothing_outside_the_fallbacks() {
    let t = table(&[
        ("AdvLib", Architecture::X64, Module::Std, "AdvLibStd"),
        ("AdvLib", Architecture::Custom("aarch64".to_string()), Module::Common, "AdvLibArm"),
    ]);
    assert_eq!(path_of(t.get("AdvLib", &Architecture::X64, &Module::DxeDriver)), None);
    assert_eq!(path_of(t.get("OtherLib", &Architecture::X64, &Module::Std)), None);
}

#[test]
fn lookup_in_an_empty_table_finds_nothing() {
    let t = LibraryInstances::new();
    assert_eq!(path_of(t.get("AdvLib", &Architecture::Common, &Module::Common)), None);
}

#[test]
fn names_are_matched_whatever_their_case() {
    let t = table(&[("AdvLib", Architecture::Common, Module::Common, "AdvLibBase")]);
    let found = t.get("ADVLIB", &Architecture::Common, &Module::Common).unwrap();
    assert_eq!(found.name, "advlib");
    assert_eq!(found.path, "AdvLibBase");
    assert_eq!(
        path_of(t.get("advlib", &Architecture::Common, &Module::Common)),
        Some("AdvLibBase".to_string())
    );
}

#[test]
fn find_takes_the_name_as_it_is() {
    let t = table(&[("AdvLib", Architecture::Common, Module::Common, "AdvLibBase")]);
    assert!(t.find(&"advlib".to_string(), &Architecture::Common, &Module::Common).is_some());
    assert!(t.find(&"AdvLib".to_string(), &Architecture::Common, &Module::Common).is_none());
}

#[test]
fn a_later_declaration_replaces_an_earlier_one() {
    let mut t = table(&[("AdvLib", Architecture::Common, Module::Common, "First")]);
    t.declare("advlib", Architecture::Common, Module::Common, "Second".to_string());
    assert_eq!(t.entries().len(), 1);
    assert_eq!(
        path_of(t.get("AdvLib", &Architecture::Common, &Module::Common)),
        Some("Second".to_string())
    );
}

#[test]
fn merge_lets_the_other_table_win() {
    let mut ours = table(&[
        ("A", Architecture::Common, Module::Common, "OursA"),
        ("B", Architecture::Common, Module::Common, "OursB"),
    ]);
    let theirs = table(&[
        ("B", Architecture::Common, Module::Common, "TheirsB"),
        ("C", Architecture::Common, Module::Common, "TheirsC"),
    ]);
    ours.merge(theirs);
    assert_eq!(path_of(ours.get("A", &Architecture::Common, &Module::Common)), Some("OursA".to_string()));
    assert_eq!(path_of(ours.get("B", &Architecture::Common, &Module::Common)), Some("TheirsB".to_string()));
    assert_eq!(path_of(ours.get("C", &Architecture::Common, &Module::Common)), Some("TheirsC".to_string()));
    assert_eq!(ours.entries().len(), 3);
}

#[test]
fn fill_keeps_what_is_declared() {
    let mut ours = table(&[
        ("A", Architecture::Common, Module::Common, "OursA"),
        ("B", Architecture::Common, Module::Common, "OursB"),
    ]);
    let lower = table(&[
        ("B", Architecture::Common, Module::Common, "LowerB"),
        ("B", Architecture::X64, Module::Common, "LowerBX64"),
        ("C", Architecture::Common, Module::Common, "LowerC"),
    ]);
    ours.fill(&lower);
    assert_eq!(path_of(ours.get("A", &Architecture::Common, &Module::Common)), Some("OursA".to_string()));
    assert_eq!(path_of(ours.get("B", &Architecture::Common, &Module::Common)), Some("OursB".to_string()));
    assert_eq!(path_of(ours.get("B", &Architecture::X64, &Module::Common)), Some("LowerBX64".to_string()));
    assert_eq!(path_of(ours.get("C", &Architecture::Common, &Module::Common)), Some("LowerC".to_string()));
    assert_eq!(ours.entries().len(), 4);
}

#[test]
fn components_are_found_whatever_their_case() {
    let mut components = ComponentInstances::new();
    components.bind(
        "MyDriver",
        ComponentInstance { arch: Architecture::X64, module: Module::DxeDriver },
    );
    assert_eq!(
        components.get("MYDRIVER"),
        Some(ComponentInstance { arch: Architecture::X64, module: Module::DxeDriver })
    );
    assert_eq!(components.get("OtherDriver"), None);
    let entries = components.entries();
    assert_eq!(entries.len(), 1);
    assert_eq!(entries[0].0, "mydriver");
}

#[test]
fn component_tables_merge_and_fill() {
    let x64 = ComponentInstance { arch: Architecture::X64, module: Module::Common };
    let std = ComponentInstance { arch: Architecture::Common, module: Module::Std };
    let mut ours = ComponentInstances::new();
    ours.bind("A", x64.clone());
    let mut theirs = ComponentInstances::new();
    theirs.bind("a", std.clone());
    theirs.bind("B", std.clone());

    let mut merged = ours.clone_entries();
    merged.merge(theirs.clone_entries());
    assert_eq!(merged.get("A"), Some(std.clone()));
    assert_eq!(merged.get("B"), Some(std.clone()));

    ours.fill(&theirs);
    assert_eq!(ours.get("A"), Some(x64));
    assert_eq!(ours.get("B"), Some(std));
}

trait CloneEntries {
    fn clone_entries(&self) -> ComponentInstances;
}

impl CloneEntries for ComponentInstances {
    fn clone_entries(&self) -> ComponentInstances {
        let mut out = ComponentInstances::new();
        for (name, instance) in self.entries() {
            out.insert(name, instance);
        }
        out
    }
}

fn layer(entries: &[(&str, Architecture, Module, &str)], components: &[(&str, Architecture, Module)]) -> Config {
    let mut out = Config::default();
    out.libraries = table(entries);
    for (name, arch, module) in components {
        out.components.bind(name, ComponentInstance { arch: arch.clone(), module: module.clone() });
    }
    out
}

#[test]
fn the_first_layer_is_never_overridden() {
    let top = || layer(&[("K", Architecture::Common, Module::Common, "Top")], &[("Drv", Architecture::X64, Module::Std)]);
    let mid = || layer(
        &[("K", Architecture::Common, Module::Common, "Mid"), ("L", Architecture::Common, Module::Common, "MidL")],
        &[("Drv", Architecture::Common, Module::Common), ("Other", Architecture::X64, Module::Common)],
    );
    let low = || layer(
        &[("K", Architecture::Common, Module::Common, "Low"), ("L", Architecture::Common, Module::Common, "LowL"), ("M", Architecture::X64, Module::Common, "LowM")],
        &[("Other", Architecture::Common, Module::Std)],
    );

    let one = Config::compose(&vec![top(), mid(), low()]);
    let other = Config::compose(&vec![top(), low(), mid()]);
    for effective in [&one, &other] {
        assert_eq!(
            path_of(effective.libraries.get("K", &Architecture::Common, &Module::Common)),
            Some("Top".to_string())
        );
        assert_eq!(
            effective.components.get("Drv"),
            Some(ComponentInstance { arch: Architecture::X64, module: Module::Std })
        );
        assert_eq!(
            path_of(effective.libraries.lookup_key(&"m".to_string(), &Architecture::X64, &Module::Common)),
            Some("LowM".to_string())
        );
    }
    assert_eq!(path_of(one.libraries.get("L", &Architecture::Common, &Module::Common)), Some("MidL".to_string()));
    assert_eq!(path_of(other.libraries.get("L", &Architecture::Common, &Module::Common)), Some("LowL".to_string()));
    assert_eq!(
        one.components.get("Other"),
        Some(ComponentInstance { arch: Architecture::X64, module: Module::Common })
    );
    assert_eq!(
        other.components.get("Other"),
        Some(ComponentInstance { arch: Architecture::Common, module: Module::Std })
    );
}

#[test]
fn composing_no_layers_declares_nothing() {
    let effective = Config::compose(&vec![]);
    assert_eq!(effective.libraries.entries().len(), 0);
    assert_eq!(effective.components.entries().len(), 0);
}

#[test]
fn tokens_name_architectures_and_module_kinds() {
    assert_eq!(Architecture::from_token("common"), Architecture::Common);
    assert_eq!(Architecture::from_token("X64"), Architecture::X64);
    assert_eq!(Architecture::from_token("AArch64"), Architecture::Custom("aarch64".to_string()));
    assert_eq!(Module::from_token("Common"), Module::Common);
    assert_eq!(Module::from_token("STD"), Module::Std);
    assert_eq!(Module::from_token("Dxe_Driver"), Module::DxeDriver);
    assert_eq!(Module::from_token("PeiCore"), Module::Custom("peicore".to_string()));
}

#[test]
fn architectures_and_module_kinds_compare_by_value() {
    assert!(Architecture::X64.same(&Architecture::X64));
    assert!(!Architecture::X64.same(&Architecture::Common));
    assert!(Architecture::Custom("a".to_string()).same(&Architecture::Custom("a".to_string())));
    assert!(!Architecture::Custom("a".to_string()).same(&Architecture::Custom("b".to_string())));
    assert!(Module::DxeDriver.same(&Module::DxeDriver));
    assert!(!Module::Std.same(&Module::Common));
    assert!(!Module::Custom("a".to_string()).same(&Module::Custom("b".to_string())));
    assert_eq!(Architecture::Custom("a".to_string()).clone(), Architecture::Custom("a".to_string()));
    assert_eq!(Module::Custom("m".to_string()).clone(), Module::Custom("m".to_string()));
}
