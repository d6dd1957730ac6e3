use crabbucket::style::{Style, StyleSheet};

fn callout() -> Style {
    Style::new(
        "cb",
        "callout",
        ".& { color: red; }\n.&--warn { color: orange; }\n.&__body { margin: 0; }\n",
    )
}

#[test]
fn a_class_carries_its_namespace() {
    let callout = callout();
    assert_eq!(callout.class(), "cb-callout");
    assert_eq!(callout.element("body"), "cb-callout__body");
    assert_eq!(callout.modifier("warn"), "cb-callout--warn");
    assert_eq!(callout.with("warn"), "cb-callout cb-callout--warn");
}

#[test]
fn the_ampersand_resolves_everywhere_it_appears() {
    let css = callout().render();
    assert!(css.contains(".cb-callout {"));
    assert!(css.contains(".cb-callout--warn {"));
    assert!(css.contains(".cb-callout__body {"));
    assert!(!css.contains('&'));
}

#[test]
fn two_crates_may_both_have_a_card() {
    let theirs = Style::new("xy", "callout", ".& { color: blue; }");
    let mut sheet = StyleSheet::new();
    sheet.add(callout());
    sheet.add(theirs);

    assert_eq!(sheet.len(), 2);
    let css = sheet.render();
    assert!(css.contains(".cb-callout {"));
    assert!(css.contains(".xy-callout {"));
}

#[test]
fn the_same_component_added_twice_appears_once() {
    let mut sheet = StyleSheet::new();
    sheet.add(callout());
    sheet.add(callout());
    sheet.add(callout());
    assert_eq!(sheet.len(), 1);
}

#[test]
fn each_component_is_labelled_in_the_output() {
    let mut sheet = StyleSheet::new();
    sheet.add(callout());
    assert!(sheet.render().contains("/* cb/callout */"));
}

#[test]
fn a_stylesheet_holds_each_style_once_when_extended_twice() {
    let styles = [
        Style::new("t", "a", ".& { color: red; }\n"),
        Style::new("t", "b", ".& { color: red; }\n"),
        Style::new("t", "c", ".& { color: red; }\n"),
    ];
    let mut once = StyleSheet::new();
    once.extend(&styles);
    let mut twice = StyleSheet::new();
    twice.extend(&styles);
    twice.extend(&styles);
    assert_eq!(once.len(), 3);
    assert_eq!(twice.len(), 3);
    assert_eq!(once.render(), twice.render());
    assert!(!once.is_empty());
    assert!(StyleSheet::new().is_empty());
}

#[test]
fn a_sheet_renders_each_style_after_its_label() {
    let mut sheet = StyleSheet::new();
    sheet.add(Style::new("t", "a", ".&{}"));
    assert_eq!(sheet.render(), "\n/* t/a */\n.t-a{}");
}

#[test]
fn every_expanded_selector_carries_its_namespace() {
    let style = Style::new("ns", "part", ".& { color: red; }\n.&__part { color: blue; }\n");
    for selector in style.render().lines().filter(|line| line.starts_with('.')) {
        assert!(selector.starts_with(".ns-"), "{selector:?}");
    }
}
