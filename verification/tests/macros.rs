use mu_config::expand::{expand, ExpandError};
use mu_config::layers::Config;
use mu_config::request::{parse_request, parse_statements, Component, Request, RequestError};
use mu_config::resolver::{ResolutionError, ResolvedNode};
use mu_config::source::ParseError;
use mu_config::{from_macro, from_path, LibraryInstance};

fn spell(stream: proc_macro2::TokenStream, out: &mut Vec<String>) {
    for tree in stream {
        match tree {
            proc_macro2::TokenTree::Group(group) => {
                out.push(format!("{:?}", group.delimiter()));
                spell(group.stream(), out);
                out.push("End".to_string());
            }
            proc_macro2::TokenTree::Ident(ident) => out.push(ident.to_string()),
            proc_macro2::TokenTree::Punct(punct) => out.push(punct.as_char().to_string()),
            proc_macro2::TokenTree::Literal(literal) => out.push(literal.to_string()),
        }
    }
}

/// The tokens of `text`, one by one, whatever the blanks between them.
fn tokens(text: &str) -> Vec<String> {
    let mut out = Vec::new();
    spell(text.parse::<proc_macro2::TokenStream>().unwrap(), &mut out);
    out
}

fn library(declaration: &str) -> LibraryInstance {
    let (name, path) = parse_statements(declaration).unwrap().remove(0);
    LibraryInstance { name: name.to_lowercase(), path }
}

fn resolved(declaration: &str, children: Vec<ResolvedNode>) -> ResolvedNode {
    ResolvedNode { concrete_id: library(declaration).concrete_id(), children }
}

#[test]
fn from_macro_test_full_parse1() {
    let expected = "MyDriver<DebugLibBase>";

    let input = "MyDriver<DebugLib>; DebugLib=DebugLibBase";

    let actual = from_macro::parse(input).unwrap();
    assert_eq!(tokens(&actual), tokens(expected));
}

#[test]
fn from_macro_test_full_parse2() {
    let expected_output = "MyDriver < DebugLibBase < PrintLibBase > >";

    let input = "
        MyDriver<DebugLib>;
        DebugLib=DebugLibBase<PrintLib>;
        PrintLib=PrintLibBase;
    ";

    let actual = from_macro::parse(input).unwrap();
    assert_eq!(tokens(&actual), tokens(expected_output));
}

#[test]
fn from_macro_test_full_parse3() {
    let expected_output = "MyDriver < DebugLibBase < PrintLibBase >, AdvLibBase < PrintLibBase> >";

    let input = "
        MyDriver<DebugLib, AdvLib>;
        DebugLib=DebugLibBase<PrintLib>;
        AdvLib=AdvLibBase<PrintLib>;
        PrintLib=PrintLibBase;
    ";

    let actual = from_macro::parse(input).unwrap();
    assert_eq!(tokens(&actual), tokens(expected_output));
}

#[test]
fn from_macro_test_full_parse4() {
    let expected_output =
        "MyDriver < DebugLibBase < PrintLibBase >, AdvLibBase < PrintLibBase, WriteLibBase > >";

    let input = "
        MyDriver<DebugLib, AdvLib>;
        DebugLib=DebugLibBase<PrintLib>;
        AdvLib=AdvLibBase<PrintLib, WriteLib>;
        PrintLib=PrintLibBase;
        WriteLib=WriteLibBase;
    ";

    let actual = from_macro::parse(input).unwrap();
    assert_eq!(tokens(&actual), tokens(expected_output));
}

#[test]
fn from_macro_test_full_parse5() {
    let expected_output = "MyDriver < pk1::library::DebugLibBase, pk1::library::AdvLibSpecial < pk2::library::WriteLibBase, pk1::library::DebugLibBase > >";

    let input = "
        MyDriver<DebugLib, AdvLib>;
        DebugLib=pk1::library::DebugLibBase;
        AdvLib=pk1::library::AdvLibSpecial < WriteLib, DebugLib >;
        WriteLib=pk2::library::WriteLibBase;
    ";

    let actual = from_macro::parse(input).unwrap();
    assert_eq!(tokens(&actual), tokens(expected_output));
}

const TEST_CONFIG1: &str = r#"
[[libraries]]
DebugLib = "DebugLibBase"

[[components]]
MyDriver = true
"#;

const TEST_CONFIG2: &str = r#"
[[libraries]]
DebugLib = "DebugLibBase<PrintLib>"
AdvLib = "AdvLibBase<PrintLib>"
PrintLib = "PrintLibBase"

[[components]]
MyDriver = true
"#;

const TEST_CONFIG3: &str = r#"
[[libraries]]
DebugLib = "DebugLibBase<PrintLib>"
AdvLib = "AdvLibBase<PrintLib, WriteLib>"
PrintLib = "PrintLibBase"
WriteLib = "WriteLibBase"

[[components]]
MyDriver = true
"#;

const TEST_CONFIG4: &str = r#"
[[libraries]]
DebugLib = "pk1::library::DebugLibBase"
AdvLib = "pk1::library::AdvLibSpecial<WriteLib, DebugLib>"
WriteLib = "pk2::library::WriteLibBase"

[[components]]
MyDriver = true
"#;

#[test]
fn from_path_test_full_parse1() {
    let expected = "MyDriver<DebugLibBase>";

    let input = "
        MyDriver<DebugLib>;
        Path = \"tests/data/test_config1.toml\";
    ";

    let request = parse_request(input).unwrap();
    assert_eq!(
        from_path::source(&request),
        Ok(from_path::Source::Path("tests/data/test_config1.toml".to_string()))
    );
    let actual = from_path::parse(input, TEST_CONFIG1).unwrap();
    assert_eq!(tokens(&actual), tokens(expected));
}

#[test]
fn from_path_test_full_parse2() {
    let expected_output = "MyDriver < DebugLibBase < PrintLibBase > >";

    let input = "
        MyDriver<DebugLib>;
        Path = \"tests/data/test_config2.toml\";
    ";

    let actual = from_path::parse(input, TEST_CONFIG2).unwrap();
    assert_eq!(tokens(&actual), tokens(expected_output));
}

#[test]
fn from_path_test_full_parse3() {
    let expected_output = "MyDriver < DebugLibBase < PrintLibBase >, AdvLibBase < PrintLibBase> >";

    let input = "
        MyDriver<DebugLib, AdvLib>;
        Path = \"tests/data/test_config2.toml\";
    ";

    let actual = from_path::parse(input, TEST_CONFIG2).unwrap();
    assert_eq!(tokens(&actual), tokens(expected_output));
}

#[test]
fn from_path_test_full_parse4() {
    let expected_output =
        "MyDriver < DebugLibBase < PrintLibBase >, AdvLibBase < PrintLibBase, WriteLibBase > >";

    let input = "
        MyDriver<DebugLib, AdvLib>;
        Path = \"tests/data/test_config3.toml\";
    ";

    let actual = from_path::parse(input, TEST_CONFIG3).unwrap();
    assert_eq!(tokens(&actual), tokens(expected_output));
}

#[test]
fn from_path_test_full_parse5() {
    let expected_output = "MyDriver < pk1::library::DebugLibBase, pk1::library::AdvLibSpecial < pk2::library::WriteLibBase, pk1::library::DebugLibBase > >";

    let input = "
        MyDriver<DebugLib, AdvLib>;
        Path = \"tests/data/test_config4.toml\";
    ";

    let actual = from_path::parse(input, TEST_CONFIG4).unwrap();
    assert_eq!(tokens(&actual), tokens(expected_output));
}

#[test]
fn test_library_parse1() {
    let input = "DebugLib=DebugLibBase";
    let expected = "DebugLibBase";

    let parsed = resolved(input, vec![]);
    assert_eq!(tokens(&parsed.render()), tokens(expected));
}

#[test]
fn test_library_parse2() {
    let input = "DebugLib=DebugLibBase<PrintLib>";
    let expected = "DebugLibBase<PrintLibBase>";
    assert_eq!(library(input).required_interfaces(), vec!["PrintLib".to_string()]);
    // Manually resolve for testing purposes
    let parsed = resolved(input, vec![resolved("PrintLib=PrintLibBase", vec![])]);

    assert_eq!(tokens(&parsed.render()), tokens(expected));
}

#[test]
fn test_library_parse3() {
    let input = "DebugLib=DebugLibBase<PrintLib, WriteLib>";
    let expected = "DebugLibBase<PrintLibBase, WriteLibBase>";
    assert_eq!(
        library(input).required_interfaces(),
        vec!["PrintLib".to_string(), "WriteLib".to_string()]
    );
    // Manually resolve for testing purposes
    let parsed = resolved(
        input,
        vec![
            resolved("PrintLib=PrintLibBase", vec![]),
            resolved("WriteLib=WriteLibBase", vec![]),
        ],
    );

    assert_eq!(tokens(&parsed.render()), tokens(expected));
}

#[test]
fn test_library_parse4() {
    let input = "DebugLib=DebugLibBase<PrintLib, WriteLib>";
    let expected = "DebugLibBase<PrintLibBase<WriteLibBase>, WriteLibBase>";
    let parsed = resolved(
        input,
        vec![
            resolved(
                "PrintLib=PrintLibBase<WriteLib>",
                vec![resolved("WriteLib=WriteLibBase", vec![])],
            ),
            resolved("WriteLib=WriteLibBase", vec![]),
        ],
    );
    assert_eq!(tokens(&parsed.render()), tokens(expected));
}

#[test]
fn test_library_parse5() {
    let input = "DebugLib=pkg1::library::DebugLibBase<PrintLib, WriteLib>";
    let expected = "pkg1::library::DebugLibBase<pkg1::library::PrintLibBase<pkg1::library::WriteLibBase>, pkg1::library::WriteLibBase>";
    let parsed = resolved(
        input,
        vec![
            resolved(
                "PrintLib=pkg1::library::PrintLibBase<WriteLib>",
                vec![resolved("WriteLib=pkg1::library::WriteLibBase", vec![])],
            ),
            resolved("WriteLib=pkg1::library::WriteLibBase", vec![]),
        ],
    );
    assert_eq!(tokens(&parsed.render()), tokens(expected));
}

#[test]
fn a_request_is_read_into_its_parts() {
    let request = parse_request(" MyDriver < DebugLib ,AdvLib > ;\n DebugLib = DebugLibBase<PrintLib> ;; PrintLib=PrintLibBase").unwrap();
    assert_eq!(
        request,
        Request {
            component: Component {
                name: "MyDriver".to_string(),
                library_list: vec!["DebugLib".to_string(), "AdvLib".to_string()],
            },
            statements: vec![
                ("DebugLib".to_string(), "DebugLibBase<PrintLib>".to_string()),
                ("PrintLib".to_string(), "PrintLibBase".to_string()),
            ],
        }
    );
    let bare = parse_request("MyDriver<DebugLib>;").unwrap();
    assert_eq!(bare.statements, vec![]);
}

#[test]
fn statements_are_read_on_their_own() {
    assert_eq!(
        parse_statements("A = ImplA<B>; B=ImplB"),
        Ok(vec![
            ("A".to_string(), "ImplA<B>".to_string()),
            ("B".to_string(), "ImplB".to_string()),
        ])
    );
    assert_eq!(parse_statements(" ; \n"), Ok(vec![]));
    assert_eq!(parse_statements(""), Ok(vec![]));
    assert_eq!(
        parse_statements("A = ImplA; B"),
        Err(RequestError::MissingEquals("B".to_string()))
    );
}

#[test]
fn malformed_requests_are_refused() {
    assert_eq!(parse_request("MyDriver<DebugLib>").err(), Some(RequestError::MissingSemicolon));
    assert_eq!(parse_request("").err(), Some(RequestError::MissingSemicolon));
    assert_eq!(parse_request("MyDriver;").err(), Some(RequestError::MissingOpen));
    assert_eq!(parse_request(" <DebugLib>;").err(), Some(RequestError::MissingName));
    assert_eq!(parse_request("MyDriver<DebugLib;").err(), Some(RequestError::MissingClose));
    assert_eq!(parse_request("MyDriver<DebugLib> extra;").err(), Some(RequestError::TrailingText));
    assert_eq!(parse_request("MyDriver< , >;").err(), Some(RequestError::NoRequirements));
    assert_eq!(
        parse_request("MyDriver<DebugLib>; DebugLib DebugLibBase ;").err(),
        Some(RequestError::MissingEquals("DebugLib DebugLibBase".to_string()))
    );
    assert_eq!(
        parse_request("MyDriver<DebugLib>; A=ImplA; = DebugLibBase;").err(),
        Some(RequestError::MissingKey("= DebugLibBase".to_string()))
    );
    assert_eq!(
        parse_request("MyDriver<DebugLib>; DebugLib = ;").err(),
        Some(RequestError::MissingValue("DebugLib".to_string()))
    );
}

#[test]
fn the_source_of_a_request_is_a_path_or_a_variable() {
    let of = |text: &str| from_path::source(&parse_request(text).unwrap());
    assert_eq!(of("D<L>; path = \"a/b.toml\";"), Ok(from_path::Source::Path("a/b.toml".to_string())));
    assert_eq!(of("D<L>; Env = \"PLATFORM_CONFIG\";"), Ok(from_path::Source::Env("PLATFORM_CONFIG".to_string())));
    assert_eq!(of("D<L>; env = \"\";"), Ok(from_path::Source::Env("".to_string())));
    assert_eq!(of("D<L>;"), Err(RequestError::MissingSource));
    assert_eq!(of("D<L>; File = \"a.toml\";"), Err(RequestError::UnknownSource("File".to_string())));
    assert_eq!(of("D<L>; Path = a.toml;"), Err(RequestError::NotAString("a.toml".to_string())));
    assert_eq!(of("D<L>; Path = \";"), Err(RequestError::NotAString("\"".to_string())));
}

#[test]
fn expansion_reports_what_went_wrong() {
    assert_eq!(
        from_macro::parse("MyDriver<DebugLib>"),
        Err(ExpandError::Request(RequestError::MissingSemicolon))
    );
    assert_eq!(
        from_macro::parse("MyDriver<DebugLib>; PrintLib=PrintLibBase;"),
        Err(ExpandError::Resolution(ResolutionError::UnresolvedInterface("DebugLib".to_string())))
    );
    assert_eq!(
        from_macro::parse("MyDriver<A>; A=ImplA<B>; B=ImplB<A>;"),
        Err(ExpandError::Resolution(ResolutionError::CircularDependency(vec![
            "A".to_string(),
            "B".to_string(),
            "A".to_string()
        ])))
    );
    assert_eq!(
        from_path::parse("MyDriver<DebugLib>; DebugLib=DebugLibBase;", TEST_CONFIG1),
        Err(ExpandError::Request(RequestError::UnknownSource("DebugLib".to_string())))
    );
    assert_eq!(
        from_path::parse("MyDriver<DebugLib>; Path = \"x.toml\";", "[[libraries"),
        Err(ExpandError::Source(ParseError::Syntax))
    );
    assert_eq!(
        from_path::parse("MyDriver<DebugLib>; Path = \"x.toml\";", "libraries = 1"),
        Err(ExpandError::Source(ParseError::SectionNotList("libraries".to_string())))
    );
    assert_eq!(
        from_path::parse("MyDriver<PrintLib>; Path = \"x.toml\";", TEST_CONFIG1),
        Err(ExpandError::Resolution(ResolutionError::UnresolvedInterface("PrintLib".to_string())))
    );
}

#[test]
fn a_component_expands_in_its_scope() {
    let config = Config::from_toml(
        r#"
[[libraries]]
DebugLib = "DebugLibBase"

[[libraries]]
arch = ["X64"]
module = ["dxe_driver"]
DebugLib = "DebugLibDxe<PrintLib>"
PrintLib = "PrintLibDxe"

[[components]]
arch = "x64"
module = "DXE_DRIVER"
MyDriver = true
"#,
    )
    .unwrap();
    let driver = Component { name: "MyDriver".to_string(), library_list: vec!["DebugLib".to_string()] };
    let other = Component { name: "Other".to_string(), library_list: vec!["DebugLib".to_string()] };
    let layers = vec![config];
    assert_eq!(expand(&driver, &layers), Ok("MyDriver<DebugLibDxe<PrintLibDxe>>".to_string()));
    assert_eq!(expand(&other, &layers), Ok("Other<DebugLibBase>".to_string()));
}

#[test]
fn declarations_are_split_into_identifier_and_requirements() {
    let of = |path: &str| LibraryInstance { name: "x".to_string(), path: path.to_string() };
    assert_eq!(of("DebugLibBase").concrete_id(), "DebugLibBase");
    assert_eq!(of("DebugLibBase").required_interfaces(), Vec::<String>::new());
    assert_eq!(of("  pkg1::library::TestLibDxeOpt <AdvLib> ").concrete_id(), "pkg1::library::TestLibDxeOpt");
    assert_eq!(of("pkg1::library::TestLibDxeOpt<AdvLib>").required_interfaces(), vec!["AdvLib".to_string()]);
    assert_eq!(
        of("A< B ,\tC,, D >").required_interfaces(),
        vec!["B".to_string(), "C".to_string(), "D".to_string()]
    );
    assert_eq!(of("A<>").required_interfaces(), Vec::<String>::new());
    assert_eq!(of("A<B, C").required_interfaces(), vec!["B".to_string(), "C".to_string()]);
    assert_eq!(of("A<B>C>").required_interfaces(), vec!["B".to_string()]);
    assert_eq!(of("").concrete_id(), "");
    assert_eq!(of("<B>").concrete_id(), "");
    assert_eq!(of("Größe<Ünit>").required_interfaces(), vec!["Ünit".to_string()]);
    assert_eq!(of("Größe<Ünit>").concrete_id(), "Größe");
}

#[test]
fn trees_are_rendered_as_generic_types() {
    let leaf = |id: &str| ResolvedNode { concrete_id: id.to_string(), children: vec![] };
    let tree = ResolvedNode {
        concrete_id: "A".to_string(),
        children: vec![
            ResolvedNode { concrete_id: "B".to_string(), children: vec![leaf("C")] },
            leaf("D"),
            leaf("E"),
        ],
    };
    assert_eq!(tree.render(), "A<B<C>, D, E>");
    assert_eq!(leaf("A").render(), "A");
    assert_eq!(mu_config::render::render_component("Drv", &vec![tree, leaf("F")]), "Drv<A<B<C>, D, E>, F>");
    assert_eq!(mu_config::render::render_component("Drv", &vec![]), "Drv<>");
}
