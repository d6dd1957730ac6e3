use crabbucket::plain::components::{Bare, Callout, Kind, Tabs};
use crabbucket::plain::{Extra, Layout, NS};

#[test]
fn plain_has_one_layout_and_its_own_namespace() {
    assert_eq!(Layout::default(), Layout::Page);
    assert_eq!(NS, "pl");
    assert!(Extra::default().summary.is_none());
}

#[test]
fn plain_accepts_the_same_attributes_with_the_same_defaults() {
    let c = Callout::default();
    assert_eq!(c.kind, Kind::Note);
    assert!(c.title.is_none());
    assert_eq!(Kind::Warn.slug(), "warn");
    assert!(Tabs::default().group.is_none());
    let _ = Bare::default();
}
