use adoclite::parser::{
    head, heading_start, match_literal, new_line, not_whitespace_char, paragraph,
    paragraph_element, parse,
};
use adoclite::tree::{Element, Tag, Tree};

#[test]
fn parse_literal() {
    assert_eq!(
        Ok((" Once upon a time", ())),
        match_literal("=", "= Once upon a time")
    );
    assert_eq!(
        Ok((" Hello Robert!", ())),
        match_literal("=", "= Hello Robert!")
    );
    assert_eq!(Err("Hello Lucas!"), match_literal("=", "Hello Lucas!"));
}

#[test]
fn parse_new_line() {
    assert_eq!(
        new_line("\nJe suis le ténébreux, le voeuf, l'inconsolé"),
        Ok(("Je suis le ténébreux, le voeuf, l'inconsolé", ()))
    );
}

#[test]
fn parse_not_whitespace() {
    assert_eq!(
        not_whitespace_char("Je suis le ténébreux, le voeuf, l'inconsolé"),
        Ok(("e suis le ténébreux, le voeuf, l'inconsolé", 'J'))
    );
}

#[test]
fn parse_heading_start() {
    assert_eq!(
        heading_start("=== The return of the king"),
        Ok(("The return of the king", Tag::Heading(3)))
    );
    assert_eq!(
        heading_start("= The fellowship of the ring"),
        Ok(("The fellowship of the ring", Tag::Heading(1)))
    );
}

#[test]
fn parse_paragraph_content() {
    assert_eq!(
        paragraph("Hello Dolly\nJolene Jolen Jolene"),
        Ok(("\nJolene Jolen Jolene", "Hello Dolly".to_owned()))
    );

    assert_eq!(paragraph("Hello Mike"), Ok(("", "Hello Mike".to_owned())));
}

#[test]
fn parse_paragraph() {
    assert_eq!(
        paragraph_element("Hello Dolly\nJolene Jolen Jolene"),
        Ok((
            "Jolene Jolen Jolene",
            Element {
                tag: Tag::Paragraph,
                content: "Hello Dolly".to_owned(),
                children: vec![],
            }
        ))
    );
    assert_eq!(
        paragraph_element("Hello Mike"),
        Ok((
            "",
            Element {
                tag: Tag::Paragraph,
                content: "Hello Mike".to_owned(),
                children: vec![],
            }
        ))
    );
}

#[test]
fn parse_heading() {
    assert_eq!(
        head("= Hello Dolly\nJolene Jolen Jolene"),
        Ok((
            "Jolene Jolen Jolene",
            Element {
                tag: Tag::Heading(1),
                content: "Hello Dolly".to_owned(),
                children: vec![],
            }
        ))
    );
    assert_eq!(
        head("=== Hello Michel\n"),
        Ok((
            "",
            Element {
                tag: Tag::Heading(3),
                content: "Hello Michel".to_owned(),
                children: vec![],
            }
        ))
    );
}

#[test]
fn eof() {
    assert_eq!(Tag::next(""), Tag::EOF);
}

#[test]
fn single_element() {
    let expected = Tree {
        0: vec![Element {
            tag: Tag::Heading(2),
            content: "The message".to_owned(),
            children: vec![],
        }],
    };
    assert_eq!(parse("== The message").unwrap().1, expected);
}

#[test]
fn paragraph_and_heading() {
    let input = "= The message\nthis is a story that must be told\n== Another title\n";

    let expected = Tree {
        0: vec![
            Element {
                tag: Tag::Heading(1),
                content: "The message".to_owned(),
                children: vec![],
            },
            Element {
                tag: Tag::Paragraph,
                content: "this is a story that must be told".to_owned(),
                children: vec![],
            },
            Element {
                tag: Tag::Heading(2),
                content: "Another title".to_owned(),
                children: vec![],
            },
        ],
    };
    assert_eq!(parse(input).unwrap().1, expected);
}

#[test]
fn false_heading() {
    assert_eq!(
        parse("=Not a heading").unwrap().1,
        Tree {
            0: vec![Element {
                tag: Tag::Paragraph,
                content: "=Not a heading".to_owned(),
                children: vec![],
            }]
        }
    );
}

#[test]
fn nested_section() {
    let input = "= The message\nthis is a story that must be told\n== Another title\nwith nested content\n=== And deeper nesting\nwith some content\n== Up a level\nfinally!\n";

    assert_eq!(
        parse(input).unwrap().1,
        Tree {
            0: vec![
                Element {
                    tag: Tag::Heading(1),
                    content: "The message".to_owned(),
                    children: vec![]
                },
                // A paragraph following the leading depth-1 heading is a
                // preamble, a root-level sibling, not a child.
                Element {
                    tag: Tag::Paragraph,
                    content: "this is a story that must be told".to_owned(),
                    children: vec![]
                },
                Element {
                    tag: Tag::Heading(2),
                    content: "Another title".to_owned(),
                    children: vec![
                        Element {
                            tag: Tag::Paragraph,
                            content: "with nested content".to_owned(),
                            children: vec![],
                        },
                        Element {
                            tag: Tag::Heading(3),
                            content: "And deeper nesting".to_owned(),
                            children: vec![Element {
                                tag: Tag::Paragraph,
                                content: "with some content".to_owned(),
                                children: vec![]
                            }]
                        },
                    ]
                },
                Element {
                    tag: Tag::Heading(2),
                    content: "Up a level".to_owned(),
                    children: vec![Element {
                        tag: Tag::Paragraph,
                        content: "finally!".to_owned(),
                        children: vec![]
                    }]
                },
            ]
        }
    )
}
