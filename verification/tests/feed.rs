use crabbucket::feed::Feed;

fn feed(collection: &str) -> Feed {
    Feed {
        collection: collection.to_string(),
        title: None,
        limit: 20,
    }
}

#[test]
fn a_feed_covers_the_pages_below_its_collection() {
    let notes = feed("notes");

    assert!(notes.covers("notes/one"));
    assert!(notes.covers("notes/deep/two"));
    assert!(!notes.covers("notes"), "the index is what the feed is for, not in");
    assert!(!notes.covers("docs/one"));
    assert!(!notes.covers(""));
    assert!(!notes.covers("notesy/one"), "a route that only shares letters is not below");
}

#[test]
fn a_feed_for_the_whole_site_covers_everything() {
    let all = feed("");

    assert!(all.covers("anything"));
    assert!(all.covers(""));
}

#[test]
fn a_feeds_files_sit_beside_the_collection_they_carry() {
    assert_eq!(
        feed("notes").paths(),
        ("notes/feed.xml".into(), "notes/atom.xml".into())
    );
    assert_eq!(feed("").paths(), ("feed.xml".into(), "atom.xml".into()));
    assert_eq!(
        feed("/notes/").paths(),
        ("notes/feed.xml".into(), "notes/atom.xml".into())
    );
}

use crabbucket::feed::{Date, Datetime, Item, Time, atom, escape, rfc2822, rfc3339, rss, weekday};

fn date(year: u16, month: u8, day: u8) -> Datetime {
    Datetime {
        date: Some(Date { year, month, day }),
        time: None,
    }
}

#[test]
fn the_weekday_maths_is_right() {
    assert_eq!(weekday(2026, 9, 8), 2, "2026-09-08 is a Tuesday");
    assert_eq!(weekday(1970, 1, 1), 4, "the epoch is a Thursday");
    assert_eq!(weekday(2024, 2, 29), 4, "2024-02-29 is a Thursday");
    assert_eq!(weekday(2000, 1, 1), 6, "2000-01-01 is a Saturday");
    assert_eq!(weekday(1900, 1, 1), 1, "1900 is not a leap year: a Monday");
}

#[test]
fn a_date_with_no_time_is_midnight_utc() {
    assert_eq!(rfc3339(&date(2026, 9, 8)), "2026-09-08T00:00:00Z");
    assert_eq!(rfc2822(&date(2026, 9, 8)), "Tue, 08 Sep 2026 00:00:00 +0000");
}

#[test]
fn a_date_with_a_time_keeps_it() {
    let when = Datetime {
        date: Some(Date { year: 2026, month: 9, day: 8 }),
        time: Some(Time { hour: 14, minute: 30, second: 0 }),
    };
    assert_eq!(rfc3339(&when), "2026-09-08T14:30:00Z");
    assert_eq!(rfc2822(&when), "Tue, 08 Sep 2026 14:30:00 +0000");
}

#[test]
fn no_date_at_all_is_the_epoch() {
    let when = Datetime { date: None, time: None };
    assert_eq!(rfc3339(&when), "1970-01-01T00:00:00Z");
    assert_eq!(rfc2822(&when), "Thu, 01 Jan 1970 00:00:00 +0000");
}

#[test]
fn xml_escaping_covers_what_a_title_can_contain() {
    assert_eq!(escape("Rust & <you>"), "Rust &amp; &lt;you&gt;");
    assert_eq!(escape("it's \"quoted\""), "it&apos;s &quot;quoted&quot;");
}

#[test]
fn both_feeds_carry_the_entries_and_say_where_they_are() {
    let when = date(2026, 9, 8);
    let items = [Item {
        title: "A note & a half",
        url: "https://example.com/notes/one/".into(),
        date: &when,
        html: "<p>body</p>",
    }];

    let feed = rss(
        "Notes",
        "Things",
        "https://example.com/",
        "https://example.com/notes/feed.xml",
        &items,
    );

    assert!(feed.starts_with("<?xml version=\"1.0\" encoding=\"UTF-8\"?>"));
    assert!(feed.contains("<title>A note &amp; a half</title>"), "got {feed}");
    assert!(feed.contains("<pubDate>Tue, 08 Sep 2026 00:00:00 +0000</pubDate>"));
    assert!(feed.contains("&lt;p&gt;body&lt;/p&gt;"), "the body is escaped: {feed}");
    assert!(feed.contains("rel=\"self\""));

    let feed = atom(
        "Notes",
        "https://example.com/",
        "https://example.com/notes/atom.xml",
        &items,
    );

    assert!(feed.contains("<updated>2026-09-08T00:00:00Z</updated>"), "got {feed}");
    assert!(feed.contains("<id>https://example.com/notes/one/</id>"));
    assert!(feed.matches("<updated>").count() == 2, "the feed and the entry: {feed}");
}

#[test]
fn an_empty_feed_is_still_well_formed() {
    let feed = atom("Notes", "https://example.com/", "https://example.com/atom.xml", &[]);

    assert!(feed.contains("<feed"), "got {feed}");
    assert!(feed.ends_with("</feed>\n"));
    assert!(!feed.contains("<updated>"), "no entries, so no timestamp to invent");
}
