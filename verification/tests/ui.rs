use crabbucket::ui::components::{self, tab_ids, Callout, Tab, TabCounter, Tabs};
use crabbucket::ui::{Kind, Layout, NS};

#[test]
fn each_layout_names_its_modifier() {
    assert_eq!(Layout::Page.slug(), "page");
    assert_eq!(Layout::Docs.slug(), "docs");
    assert_eq!(Layout::Landing.slug(), "landing");
    assert_eq!(Layout::default(), Layout::Page);
}

#[test]
fn each_kind_names_its_modifier() {
    assert_eq!(Kind::Note.slug(), "note");
    assert_eq!(Kind::Warn.slug(), "warn");
    assert_eq!(components::Kind::Warn.slug(), "warn");
    assert_eq!(NS, "cb");
}

#[test]
fn a_callout_is_a_note_unless_it_says_otherwise() {
    let c = Callout::default();
    assert_eq!(c.kind, components::Kind::Note);
    assert!(c.title.is_none());
}

#[test]
fn a_tab_group_is_remembered_by_its_name_or_as_tabs() {
    assert_eq!(Tabs::default().name(), "tabs");
    let named = Tabs { group: Some("os".to_string()) };
    assert_eq!(named.name(), "os");
}

#[test]
fn every_tab_in_a_group_shares_one_radio_name() {
    let props = Tab { label: "macOS".to_string(), selected: false };
    let mut counter = TabCounter::new();
    let (id0, index0) = counter.tab();
    let (id1, index1) = counter.tab();
    counter.close_group();
    let (id2, index2) = counter.tab();

    let first = tab_ids(&props, id0, index0);
    let second = tab_ids(&props, id1, index1);
    let next_group = tab_ids(&props, id2, index2);

    assert_eq!(first.element, "cb-tab-0");
    assert_eq!(second.element, "cb-tab-1");
    assert_eq!(first.group, "cb-tabs-0");
    assert_eq!(second.group, "cb-tabs-0");
    assert_eq!(next_group.element, "cb-tab-2");
    assert_eq!(next_group.group, "cb-tabs-2");
}

#[test]
fn only_the_first_tab_of_a_group_is_shown_unless_one_says_otherwise() {
    let plain = Tab { label: "a".to_string(), selected: false };
    let chosen = Tab { label: "b".to_string(), selected: true };
    assert!(tab_ids(&plain, 4, 0).checked);
    assert!(!tab_ids(&plain, 5, 1).checked);
    assert!(tab_ids(&chosen, 6, 2).checked);
}

#[test]
fn the_router_script_gets_the_navigation_selector_everywhere() {
    let script = crabbucket::ui::router_script(
        "document.querySelector('@NAV@'); all('@NAV@ a'); @NAV",
        ".cb-masthead__nav",
    );
    assert_eq!(
        script,
        "document.querySelector('.cb-masthead__nav'); all('.cb-masthead__nav a'); @NAV"
    );
}
