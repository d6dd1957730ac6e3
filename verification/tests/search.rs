use crabbucket::markdown::Heading;
use crabbucket::search::{Document, SIZE_WARNING, index, is_inline, outgrown, plain, quote};

#[test]
fn markup_comes_out_and_words_stay_in() {
    let html = "<h1 id=\"a\">Title</h1>\n<p>Some <em>emphasised</em> words.</p>";
    assert_eq!(plain(html), "Title Some emphasised words.");
}

#[test]
fn entities_are_decoded_and_not_twice() {
    assert_eq!(plain("<p>a &lt; b &amp;&amp; c</p>"), "a < b && c");
    assert_eq!(plain("<p>&amp;lt;</p>"), "&lt;", "decoding ran twice");
}

#[test]
fn inline_markup_does_not_break_a_word_in_two() {
    let html = "<code><span class=\"tok-a\">serde</span>\
                <span class=\"tok-b\">::</span>\
                <span class=\"tok-c\">Deserialize</span></code>";

    assert_eq!(plain(html), "serde::Deserialize");
}

#[test]
fn block_markup_does_separate_words() {
    assert_eq!(plain("<p>one</p><p>two</p>"), "one two");
    assert_eq!(plain("<li>a</li><li>b</li>"), "a b");
}

#[test]
fn the_permalink_beside_a_heading_is_not_a_searchable_word() {
    let html = "<h2 id=\"a\">Title<a class=\"heading-anchor\" href=\"#a\">#</a></h2><p>body</p>";
    assert_eq!(plain(html), "Title body", "the permalink reached the index");
}

#[test]
fn an_unclosed_tag_does_not_run_away_with_the_rest() {
    assert_eq!(plain("<p>before<"), "before");
}

#[test]
fn whitespace_collapses_to_single_spaces() {
    assert_eq!(plain("<p>a\n\n  b\t\tc</p>"), "a b c");
}

#[test]
fn quoting_covers_what_json_requires_and_leaves_the_rest_alone() {
    assert_eq!(quote("plain"), "\"plain\"");
    assert_eq!(quote("a \"quoted\" word"), "\"a \\\"quoted\\\" word\"");
    assert_eq!(quote("back\\slash"), "\"back\\\\slash\"");
    assert_eq!(quote("line\nbreak"), "\"line\\nbreak\"");
    assert_eq!(quote("bell\u{7}"), "\"bell\\u0007\"");
    assert_eq!(quote("crab 🦀 é"), "\"crab 🦀 é\"", "UTF-8 needs no escaping");
}

#[test]
fn the_index_is_the_shape_the_client_reads() {
    let headings = [Heading {
        id: "one".into(),
        level: 2,
        text: "One".into(),
    }];
    let documents = [Document {
        url: "/repo/docs/",
        title: "Docs",
        headings: &headings,
        text: "body words".into(),
    }];

    assert_eq!(
        index(&documents),
        r#"[{"u":"/repo/docs/","t":"Docs","h":[["One","one"]],"b":"body words"}]"#
    );
}

#[test]
fn an_index_that_outgrows_this_design_says_so() {
    assert!(outgrown(SIZE_WARNING).is_none(), "the threshold itself is fine");
    assert!(outgrown(0).is_none());

    let complaint = outgrown(SIZE_WARNING + 1).expect("one byte over should warn");
    assert!(complaint.contains("300KB"), "got {complaint}");
    assert!(complaint.contains("a real index"), "got {complaint}");
}

#[test]
fn an_empty_site_is_an_empty_array() {
    assert_eq!(index(&[]), "[]");
}

#[test]
fn two_documents_are_separated_by_a_comma() {
    let documents = [
        Document { url: "/a/", title: "A", headings: &[], text: String::new() },
        Document { url: "/b/", title: "B\u{1f}", headings: &[], text: "x".into() },
    ];
    assert_eq!(
        index(&documents),
        r#"[{"u":"/a/","t":"A","h":[],"b":""},{"u":"/b/","t":"B\u001f","h":[],"b":"x"}]"#
    );
}

#[test]
fn inline_tags_are_recognised_whatever_their_case_and_side() {
    assert!(is_inline("<span class=\"x\">"));
    assert!(is_inline("</EM>"));
    assert!(is_inline("<a href=\"/\">"));
    assert!(!is_inline("<p>"));
    assert!(!is_inline("<h2 id=\"x\">"));
    assert!(!is_inline("<abbreviation>"));
}

#[test]
fn the_index_does_not_close_its_own_script_tag() {
    let headings = [Heading {
        id: "scr".to_string(),
        level: 2,
        text: "<script> and </scrip t".to_string(),
    }];
    let documents = [Document {
        url: "/",
        title: "a </ script\r\n\"</sc",
        headings: &headings,
        text: "ript</".to_string(),
    }];
    let built = index(&documents);
    assert!(built.starts_with('[') && built.ends_with(']'));
    assert!(!built.contains("</script"), "{built}");
}

#[test]
fn a_title_that_would_close_the_script_is_escaped() {
    let documents = [Document { url: "/", title: "</script>", headings: &[], text: String::new() }];
    let built = index(&documents);
    assert!(built.starts_with('[') && built.ends_with(']'));
    assert!(!built.contains("</script"), "{built}");
    assert!(built.contains("\\u003c/script>"), "{built}");
    assert_eq!(quote("a<b"), "\"a\\u003cb\"");
}

#[test]
fn strings_with_json_syntax_in_them_stay_inside_their_literals() {
    let headings = [
        Heading { id: "a,b".into(), level: 2, text: "[x]:{y}".into() },
        Heading { id: "q".into(), level: 3, text: "say \"hi\"\\".into() },
    ];
    let documents = [Document {
        url: "/a,b/",
        title: "\"u\":\"t\"",
        headings: &headings,
        text: "line\nnext\t<end>".into(),
    }];
    assert_eq!(
        index(&documents),
        r#"[{"u":"/a,b/","t":"\"u\":\"t\"","h":[["[x]:{y}","a,b"],["say \"hi\"\\","q"]],"b":"line\nnext\t\u003cend>"}]"#
    );
}
