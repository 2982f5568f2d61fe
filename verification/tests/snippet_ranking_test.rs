use recoll_next::search::ranking::filename_match;
use recoll_next::search::snippet::SnippetBuilder;

#[test]
fn snippet_tags_are_replaced_and_text_cut() {
    let b = SnippetBuilder::new(200);
    assert_eq!(b.finish("the <b>rust</b> way"), "the <em>rust</em> way");
    let b = SnippetBuilder::new(5).with_highlights("[", "]");
    assert_eq!(b.finish("<b>rust</b> is"), "[rust");
    let b = SnippetBuilder::new(200).with_highlights("<b>", "</b>");
    assert_eq!(b.finish("x <b>y</b>"), "x <b>y</b>");
    assert_eq!(SnippetBuilder::new(0).finish("abc"), "");
}

#[test]
fn snippet_length_is_bounded() {
    let long = "word ".repeat(500);
    let b = SnippetBuilder::new(200);
    assert!(b.finish(&long).chars().count() <= 200);
}

#[test]
fn filename_match_counts_tokens_in_stem() {
    let m = filename_match(&["main"], "main.rs");
    assert_eq!((m.matched, m.total, m.exact), (1, 1, true));
    let m = filename_match(&["main"], "main_helper.rs");
    assert_eq!((m.matched, m.total, m.exact), (1, 1, false));
    let m = filename_match(&["xyz"], "main.rs");
    assert_eq!((m.matched, m.total, m.exact), (0, 1, false));
    let m = filename_match(&["MAIN", "rs"], "Main.rs");
    assert_eq!((m.matched, m.total, m.exact), (1, 2, false));
    let m = filename_match(&[], "a.txt");
    assert_eq!((m.matched, m.total, m.exact), (0, 0, false));
}
