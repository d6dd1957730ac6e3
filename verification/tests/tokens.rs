use crabbucket::tokens::{Scheme, generate, ident, konst};

const DARK_FIRST: &str = r##"
    [color]
    surface = "#0b0d10"
    text = "#e7eaf0"

    [color.light]
    surface = "#ffffff"
    text = "#1a1f26"

    [space]
    md = "16px"
"##;

#[test]
fn a_constant_is_a_var_reference_with_the_base_value_as_its_fallback() {
    let module = generate(DARK_FIRST, Scheme::Dark).unwrap();

    assert!(module.contains("pub mod color {"));
    assert!(
        module.contains("pub const SURFACE: &str = \"var(--color-surface, #0b0d10)\";"),
        "got {module}"
    );
    assert!(module.contains("pub const MD: &str = \"var(--space-md, 16px)\";"));
}

#[test]
fn the_overrides_land_in_both_places_that_ask_for_them() {
    let module = generate(DARK_FIRST, Scheme::Dark).unwrap();

    assert!(module.contains("@media (prefers-color-scheme: light)"));
    assert!(module.contains(":root:not([data-theme=\\\"dark\\\"])"), "got {module}");
    assert!(module.contains(":root[data-theme=\\\"light\\\"]"), "got {module}");
    assert!(module.contains("color-scheme:dark"), "the base declares its own scheme");
}

#[test]
fn a_light_first_palette_works_the_same_way_round() {
    let source = r##"
        [color]
        paper = "#fdfdfb"

        [color.dark]
        paper = "#16161a"
    "##;

    let module = generate(source, Scheme::Light).unwrap();

    assert!(module.contains("var(--color-paper, #fdfdfb)"), "got {module}");
    assert!(module.contains("@media (prefers-color-scheme: dark)"));
    assert!(module.contains(":root:not([data-theme=\\\"light\\\"])"), "got {module}");
    assert!(module.contains(":root[data-theme=\\\"dark\\\"]"), "got {module}");
}

#[test]
fn a_palette_with_no_overrides_emits_no_scheme_blocks() {
    let module = generate("[color]\nink = \"#000\"\n", Scheme::Light).unwrap();

    assert!(module.contains("var(--color-ink, #000)"));
    assert!(!module.contains("prefers-color-scheme"), "got {module}");
}

#[test]
fn an_override_of_a_token_that_does_not_exist_is_an_error() {
    let source = "[color]\nink = \"#000\"\n\n[color.dark]\npaper = \"#fff\"\n";
    let err = generate(source, Scheme::Light).unwrap_err();

    assert!(err.to_string().contains("color.dark.paper"), "got {}", err.to_string());
    assert!(err.to_string().contains("no `color.paper`"), "got {}", err.to_string());
}

#[test]
fn a_sub_table_that_is_not_the_other_scheme_is_an_error() {
    let source = "[color]\nink = \"#000\"\n\n[color.sepia]\nink = \"#333\"\n";
    let err = generate(source, Scheme::Light).unwrap_err();

    assert!(err.to_string().contains("not a scheme"), "got {}", err.to_string());
    assert!(err.to_string().contains("`dark`"), "got {}", err.to_string());
}

#[test]
fn overriding_in_the_same_scheme_as_the_base_is_an_error() {
    let source = "[color]\nink = \"#000\"\n\n[color.light]\nink = \"#333\"\n";
    assert!(generate(source, Scheme::Light).is_err());
}

#[test]
fn a_token_name_becomes_a_usable_identifier() {
    let source = "[size]\nstep--1 = \"0.875rem\"\nstep-0 = \"1rem\"\n";
    let module = generate(source, Scheme::Light).unwrap();

    assert!(module.contains("pub const STEP__1"), "got {module}");
    assert!(module.contains("pub const STEP_0"), "got {module}");
}

#[test]
fn the_tables_a_contrast_test_reads_are_emitted() {
    let module = generate(DARK_FIRST, Scheme::Dark).unwrap();

    assert!(module.contains("pub const BASE: &[(&str, &str)]"));
    assert!(module.contains("pub const OVERRIDES: &[(&str, &str)]"));
    assert!(module.contains("pub const SCHEME: &str = \"dark\""));
}

#[test]
fn a_file_that_is_not_toml_says_so_rather_than_panicking() {
    assert!(generate("[color", Scheme::Light).is_err());
}

#[test]
fn an_override_that_is_not_a_string_is_an_error() {
    let source = "[color]\nink = \"#000\"\n\n[color.dark]\nink = 3\n";
    let err = generate(source, Scheme::Light).unwrap_err();
    assert_eq!(err.to_string(), "color.dark.ink must be a string");
}

#[test]
fn groups_come_out_in_name_order() {
    let module = generate("[zeta]\na = \"1\"\n[alpha]\nb = \"2\"\n", Scheme::Light).unwrap();
    let alpha = module.find("pub mod alpha").unwrap();
    let zeta = module.find("pub mod zeta").unwrap();
    assert!(alpha < zeta);
}

#[test]
fn names_become_identifiers() {
    assert_eq!(ident("font-size"), "font_size");
    assert_eq!(konst("step--1.5"), "STEP__1_5");
    assert_eq!(Scheme::Light.name(), "light");
    assert_eq!(Scheme::Dark.other(), Scheme::Light);
}

#[test]
fn the_stylesheet_lists_the_base_then_both_overrides() {
    let module = generate("[c]\na = \"1\"\n[c.dark]\na = \"2\"\n", Scheme::Light).unwrap();
    assert!(module.contains(
        "pub const CSS: &str = \":root{color-scheme:light;--c-a:1;}@media (prefers-color-scheme: dark){:root:not([data-theme=\\\"light\\\"]){color-scheme:dark;--c-a:2;}}:root[data-theme=\\\"dark\\\"]{color-scheme:dark;--c-a:2;}\";"
    ), "got {module}");
    assert!(module.contains("pub const BASE: &[(&str, &str)] = &[(\"--c-a\", \"1\"), ];"), "got {module}");
}

#[test]
fn a_value_that_is_not_a_string_is_an_error() {
    let err = crabbucket::tokens::generate("[space]\nmd = 16\n", crabbucket::tokens::Scheme::Light).unwrap_err();
    assert_eq!(err.to_string(), "space.md must be a string");
}

#[test]
fn a_parsed_table_generates_what_its_text_does() {
    let source = "[color]\nink = \"#000\"\n";
    let table: toml::Table = source.parse().unwrap();
    let scheme = crabbucket::tokens::Scheme::Light;
    assert_eq!(
        crabbucket::tokens::generate_table(&table, scheme).unwrap(),
        crabbucket::tokens::generate(source, scheme).unwrap()
    );
}
