use adoclite::html::ToHtml;
use adoclite::tree::{Element, Tag, Tree};

#[test]
fn title_to_html() {
    let input = Element {
        tag: Tag::Heading(1),
        content: "Hagakure Kikigaki".to_owned(),
        children: vec![],
    };

    assert_eq!(input.to_html(), "<h1>Hagakure Kikigaki</h1>".to_owned())
}

#[test]
fn heading_to_html() {
    let input = Element {
        tag: Tag::Heading(2),
        content: "Hagakure Kikigaki".to_owned(),
        children: vec![],
    };

    assert_eq!(
        input.to_html(),
        "<div class=\"sect1\"><h2 id=\"_hagakure_kikigaki\">Hagakure Kikigaki</h2></div>"
            .to_owned()
    )
}

#[test]
fn paragraph_to_html() {
    let input = Element {
        tag: Tag::Paragraph,
        content: "Although it stands to reason that a samurai should be mindful \
                  of the Way of the Samurai, it would seem that we are all negligent"
            .to_owned(),
        children: vec![],
    };

    assert_eq!(
        input.to_html(),
        "<div class=\"paragraph\"><p>Although it stands to reason that a samurai should be mindful \
        of the Way of the Samurai, it would seem that we are all negligent</p></div>".to_owned()
    )
}

#[test]
fn document() {
    let input = Tree {
        0: vec![
            Element {
                tag: Tag::Heading(1),
                content: "The message".to_owned(),
                children: vec![],
            },
            // A paragraph following the leading depth-1 heading is a
            // preamble, a root-level sibling, not a child.
            Element {
                tag: Tag::Paragraph,
                content: "this is a story that must be told".to_owned(),
                children: vec![],
            },
            Element {
                tag: Tag::Heading(2),
                content: "Another title".to_owned(),
                children: vec![
                    Element {
                        tag: Tag::Paragraph,
                        content: "with nested content".to_owned(),
                        children: vec![],
                    },
                    Element {
                        tag: Tag::Heading(3),
                        content: "And deeper nesting".to_owned(),
                        children: vec![Element {
                            tag: Tag::Paragraph,
                            content: "with some content".to_owned(),
                            children: vec![],
                        }],
                    },
                ],
            },
            Element {
                tag: Tag::Heading(2),
                content: "Up a level".to_owned(),
                children: vec![Element {
                    tag: Tag::Paragraph,
                    content: "finally!".to_owned(),
                    children: vec![],
                }],
            },
        ],
    };

    assert_eq!(
        input.to_html(),
        "<h1>The message</h1>\
         <div class=\"paragraph\">\
         <p>this is a story that must be told</p>\
         </div>\
         <div class=\"sect1\">\
         <h2 id=\"_another_title\">Another title</h2>\
         <div class=\"paragraph\">\
         <p>with nested content</p>\
         </div><div class=\"sect2\">\
         <h3 id=\"_and_deeper_nesting\">And deeper nesting</h3>\
         <div class=\"paragraph\">\
         <p>with some content</p>\
         </div>\
         </div>\
         </div>\
         <div class=\"sect1\">\
         <h2 id=\"_up_a_level\">Up a level</h2>\
         <div class=\"paragraph\">\
         <p>finally!</p>\
         </div>\
         </div>"
    )
}
