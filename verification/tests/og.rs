use crabbucket::og::{Card, Palette, compose, fit, wrap};

fn card(title: &str) -> Card<'_> {
    Card {
        title,
        site: "crabbucket",
        palette: Palette {
            background: "#0b0d10",
            foreground: "#e7eaf0",
            muted: "#98a2b3",
            accent: "#e8623c",
        },
    }
}

#[test]
fn the_colours_come_from_the_palette_and_nowhere_else() {
    let svg = compose(&card("Routing"));

    assert!(svg.contains("fill=\"#0b0d10\""), "got {svg}");
    assert!(svg.contains("fill=\"#e8623c\""), "the accent rule: {svg}");
    assert!(svg.contains("fill=\"#e7eaf0\""), "the title: {svg}");
}

#[test]
fn a_title_is_escaped_rather_than_breaking_the_svg() {
    let svg = compose(&card("Rust & <you>"));
    assert!(svg.contains("Rust &amp; &lt;you&gt;"), "got {svg}");
}

#[test]
fn a_one_line_title_sits_on_the_floor() {
    let svg = compose(&card("Routing"));
    assert!(svg.contains(
        "<text x=\"96\" y=\"500\" font-family=\"Public Sans\" font-size=\"76\" font-weight=\"bold\" fill=\"#e7eaf0\">Routing</text></svg>"
    ), "got {svg}");
    assert!(svg.starts_with("<svg xmlns=\"http://www.w3.org/2000/svg\" width=\"1200\" height=\"630\" viewBox=\"0 0 1200 630\">"));
}

#[test]
fn a_short_title_gets_the_largest_type_and_one_line() {
    let fitted = fit("Routing");

    assert_eq!(fitted.lines, ["Routing"]);
    assert_eq!(fitted.size, 76);
    assert_eq!(fitted.leading, 91);
}

#[test]
fn a_longer_title_wraps_before_it_shrinks() {
    let fitted = fit("Why routes became a type and what that cost");

    assert!(fitted.lines.len() > 1, "it should wrap: {fitted:?}");
    assert!(fitted.lines.len() <= 3, "it should not need four lines: {fitted:?}");
}

#[test]
fn a_title_too_long_for_the_card_is_cut_rather_than_overflowing_it() {
    let fitted = fit(&"word ".repeat(200));

    assert_eq!(fitted.lines.len(), 4, "the last size allows four: {fitted:?}");
    assert!(fitted.lines.last().expect("no lines").ends_with('…'));
    assert_eq!(fitted.size, 50);
}

#[test]
fn wrapping_never_splits_a_word() {
    let lines = wrap("alpha beta gamma delta", 11);

    for line in &lines {
        assert!(line.len() <= 11 || !line.contains(' '), "{line:?} was split badly");
    }
    assert_eq!(lines.join(" "), "alpha beta gamma delta", "a word was lost");
}

#[test]
fn a_word_longer_than_a_line_is_left_whole() {
    let lines = wrap("supercalifragilistic", 5);
    assert_eq!(lines, ["supercalifragilistic"]);
}

#[test]
fn an_empty_title_is_one_empty_line() {
    assert_eq!(wrap("   ", 10), [""]);
    assert_eq!(fit("").lines, [""]);
}

#[test]
fn wrapped_lines_are_the_words_with_single_spaces() {
    let lines = wrap("  a   bb\tccc  dddddd ", 4);
    assert_eq!(lines, ["a bb", "ccc", "dddddd"]);
    assert_eq!(lines.join(" "), "a bb ccc dddddd");
}
