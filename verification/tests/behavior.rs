use adoclite::html::{to_snake_case, underscore_spaces, ToHtml};
use adoclite::parser::{head, paragraph, paragraph_element, parse};
use adoclite::tree::{Element, Tag, Tree};

fn para(text: &str) -> Element {
    Element {
        tag: Tag::Paragraph,
        content: text.to_owned(),
        children: vec![],
    }
}

fn heading(level: usize, text: &str, children: Vec<Element>) -> Element {
    Element {
        tag: Tag::Heading(level),
        content: text.to_owned(),
        children,
    }
}

#[test]
fn empty_input_empty_tree() {
    assert_eq!(parse(""), Ok(("", Tree(vec![]))));
}

#[test]
fn heading_chain_nesting() {
    // Heading depths 1, 2, 3, 2, each opening one paragraph. The paragraph
    // after the depth-1 heading is the preamble; the depth-3 heading nests
    // under the first depth-2 heading; the second depth-2 heading closes
    // that scope and stands beside the first.
    let input = "= one\nalpha\n== two\nbeta\n=== three\ngamma\n== four\ndelta\n";
    let expected = Tree(vec![
        heading(1, "one", vec![]),
        para("alpha"),
        heading(2, "two", vec![para("beta"), heading(3, "three", vec![para("gamma")])]),
        heading(2, "four", vec![para("delta")]),
    ]);
    assert_eq!(parse(input).unwrap().1, expected);
}

#[test]
fn same_level_headings_are_siblings() {
    // A heading of the same depth closes the scope the first one opened:
    // the second stands beside the first, never under it.
    let input = "= t\nx\n== a\n== b\n";
    let expected = Tree(vec![
        heading(1, "t", vec![]),
        para("x"),
        heading(2, "a", vec![]),
        heading(2, "b", vec![]),
    ]);
    assert_eq!(parse(input).unwrap().1, expected);
}

#[test]
fn blank_lines_collapse_between_paragraphs() {
    let one = parse("first\n\nsecond\n").unwrap().1;
    let three = parse("first\n\n\n\nsecond\n").unwrap().1;
    assert_eq!(one, three);
    assert_eq!(one, Tree(vec![para("first"), para("second")]));
}

#[test]
fn blank_lines_collapse_between_blocks() {
    let one = parse("== title\n\nbody\n== next\n").unwrap().1;
    let three = parse("== title\n\n\n\nbody\n== next\n").unwrap().1;
    assert_eq!(one, three);
}

#[test]
fn blank_lines_collapse_deep_in_the_document() {
    // The run may sit at any boundary, here inside a nested scope.
    let one = parse("= t\np\n== a\nx\n\n=== b\ny\n").unwrap().1;
    let three = parse("= t\np\n== a\nx\n\n\n\n=== b\ny\n").unwrap().1;
    assert_eq!(one, three);
}

#[test]
fn paragraph_text_kept_verbatim() {
    let input = "a  b\tc ";
    assert_eq!(parse(input).unwrap().1, Tree(vec![para("a  b\tc ")]));
}

#[test]
fn tab_separates_heading() {
    // Any whitespace of the line may separate the sigil run from the text.
    assert_eq!(
        parse("=\tTab").unwrap().1,
        Tree(vec![heading(1, "Tab", vec![])])
    );
}

#[test]
fn sigil_before_line_ending_is_a_paragraph() {
    // The whitespace after the sigils must lie on the same line; a line
    // ending directly after the run leaves the line a paragraph.
    assert_eq!(parse("=\nplain").unwrap().1, Tree(vec![para("="), para("plain")]));
}

#[test]
fn separator_stops_at_line_ending() {
    // The separating whitespace run ends at the heading's own line ending:
    // the next line is never taken as the heading's text.
    assert_eq!(
        parse("= \nnext").unwrap().1,
        Tree(vec![heading(1, "", vec![]), para("next")])
    );
}

#[test]
fn line_starting_with_whitespace_is_rejected() {
    assert_eq!(parse(" indented"), Err(" indented"));
    assert_eq!(parse("ok\n  bad"), Err("  bad"));
}

#[test]
fn crlf_line_ending_accepted() {
    // The carriage return of a `\r\n` ending belongs to the terminator, not
    // to the stored text.
    assert_eq!(paragraph_element("one\r\ntwo"), Ok(("two", para("one"))));
    assert_eq!(parse("a\r\n\r\nb\r\n").unwrap().1, Tree(vec![para("a"), para("b")]));
}

#[test]
fn crlf_heading_text() {
    assert_eq!(head("== t\r\nx"), Ok(("x", heading(2, "t", vec![]))));
}

#[test]
fn lone_carriage_return_stays_in_text() {
    // A carriage return not followed by a line feed ends no line; it stays
    // in the paragraph's text.
    assert_eq!(parse("one\rtwo").unwrap().1, Tree(vec![para("one\rtwo")]));
}

#[test]
fn heading_consumes_whitespace_run() {
    assert_eq!(head("===   spaced out\n"), Ok(("", heading(3, "spaced out", vec![]))));
}

#[test]
fn paragraph_leaves_line_ending() {
    assert_eq!(
        paragraph("Hello Dolly\nJolene"),
        Ok(("\nJolene", "Hello Dolly".to_owned()))
    );
}

#[test]
fn shallower_heading_stays_unconsumed() {
    // A depth-1 heading after a deeper one closes every scope; the parse
    // returns it unconsumed.
    let (rest, tree) = parse("== deep\n= top\n").unwrap();
    assert_eq!(rest, "= top\n");
    assert_eq!(tree, Tree(vec![heading(2, "deep", vec![])]));
}

#[test]
fn get_depth_reads_heading_depth() {
    assert_eq!(Tag::Heading(3).get_depth(), 3);
    assert_eq!(Tag::UnordereList(2).get_depth(), 2);
}

#[test]
fn classifier_depth_counts_sigils() {
    assert_eq!(Tag::next("==== deep"), Tag::Heading(4));
    assert_eq!(Tag::next("plain"), Tag::Paragraph);
    assert_eq!(Tag::next("=nope"), Tag::Paragraph);
}

#[test]
fn tree_push_and_extend_keep_order() {
    let mut t = Tree::new();
    t.push(para("a"));
    let mut u = Tree::new();
    u.push(para("b"));
    u.push(para("c"));
    t.extend(u);
    assert_eq!(t, Tree(vec![para("a"), para("b"), para("c")]));
    let contents: Vec<&Element> = t.iter().collect();
    assert_eq!(contents.len(), 3);
    assert_eq!(contents[0], &para("a"));
}

#[test]
fn set_child_replaces_children() {
    let mut el = heading(2, "t", vec![para("old")]);
    el.set_child(Tree(vec![para("new")]));
    assert_eq!(el, heading(2, "t", vec![para("new")]));
}

#[test]
fn underscore_spaces_keeps_other_characters() {
    assert_eq!(underscore_spaces("a b C  d"), "a_b_C__d");
    assert_eq!(underscore_spaces(""), "");
    assert_eq!(to_snake_case("Mixed Case"), "mixed_case");
}

#[test]
fn slug_lowercases_and_underscores() {
    let input = heading(2, "MiXeD CaSe Title", vec![]);
    assert_eq!(
        input.to_html(),
        "<div class=\"sect1\"><h2 id=\"_mixed_case_title\">MiXeD CaSe Title</h2></div>"
    );
}

#[test]
fn deep_section_number_rendered() {
    let input = heading(12, "x", vec![]);
    assert_eq!(
        input.to_html(),
        "<div class=\"sect11\"><h12 id=\"_x\">x</h12></div>"
    );
}

#[test]
fn list_renders_as_stub() {
    let input = Element {
        tag: Tag::UnordereList(1),
        content: "item".to_owned(),
        children: vec![],
    };
    assert_eq!(input.to_html(), "todo");
}

#[test]
fn parse_then_render() {
    let tree = parse("= Top\nintro\n== Sub\ntext\n").unwrap().1;
    assert_eq!(
        tree.to_html(),
        "<h1>Top</h1>\
         <div class=\"paragraph\"><p>intro</p></div>\
         <div class=\"sect1\"><h2 id=\"_sub\">Sub</h2>\
         <div class=\"paragraph\"><p>text</p></div></div>"
    );
}
