//! Rendering a document tree to HTML: a depth-1 heading becomes a bare
//! `<h1>`, a deeper heading a `sect` container holding a heading tag with a
//! slug identifier and the rendered children, a paragraph a `paragraph`
//! container.

use vstd::prelude::*;

use crate::tree::{lemma_wf_nodes_index, wf_node, wf_nodes, Element, Node, Tag, Tree};

verus! {

broadcast use
    vstd::std_specs::vec::axiom_vec_index_decreases,
    vstd::seq::axiom_seq_index_decreases,
    vstd::seq::axiom_seq_subrange_decreases,
;

/// The decimal digit `d` as a character; `d` must be below ten.
pub open spec fn digit_char(d: nat) -> char {
    if d == 0 {
        '0'
    } else if d == 1 {
        '1'
    } else if d == 2 {
        '2'
    } else if d == 3 {
        '3'
    } else if d == 4 {
        '4'
    } else if d == 5 {
        '5'
    } else if d == 6 {
        '6'
    } else if d == 7 {
        '7'
    } else if d == 8 {
        '8'
    } else {
        '9'
    }
}

/// `n` written in decimal, most significant digit first.
pub open spec fn dec_of(n: nat) -> Seq<char>
    decreases n,
{
    if n < 10 {
        seq![digit_char(n)]
    } else {
        dec_of(n / 10).push(digit_char(n % 10))
    }
}

/// What `str::to_lowercase` returns for the characters `s`: a function of
/// those characters alone.
pub uninterp spec fn lower_of(s: Seq<char>) -> Seq<char>;

/// A space turned into an underscore; anything else kept.
pub open spec fn snake_char(c: char) -> char {
    if c == ' ' {
        '_'
    } else {
        c
    }
}

/// [`snake_char`] applied to every character of `s`.
pub open spec fn map_snake(s: Seq<char>) -> Seq<char>
    decreases s.len(),
{
    if s.len() == 0 {
        Seq::empty()
    } else {
        map_snake(s.drop_last()).push(snake_char(s.last()))
    }
}

/// A heading text's identifier slug: lower-cased, spaces as underscores.
pub open spec fn snake_of(s: Seq<char>) -> Seq<char> {
    map_snake(lower_of(s))
}

/// The inner heading tag of a sectioned heading: `<hN id="_slug">text</hN>`.
pub open spec fn h_html(level: nat, text: Seq<char>) -> Seq<char> {
    "<h"@ + dec_of(level) + " id=\"_"@ + snake_of(text) + "\">"@ + text + "</h"@ + dec_of(level)
        + ">"@
}

/// The HTML of one block. A depth-1 heading is a bare `<h1>`; a deeper
/// heading is a `sect` container, classed with its depth less one, holding
/// the heading tag and the children's HTML; a paragraph is a `paragraph`
/// container; the unimplemented list variant renders as its stub text.
pub open spec fn elem_html(n: Node) -> Seq<char>
    decreases n, 1int,
{
    match n.tag {
        Tag::Paragraph => "<div class=\"paragraph\"><p>"@ + n.text + "</p></div>"@,
        Tag::Heading(level) => if level == 1 {
            "<h1>"@ + n.text + "</h1>"@
        } else {
            "<div class=\"sect"@ + dec_of((level - 1) as nat) + "\">"@ + h_html(
                level as nat,
                n.text,
            ) + children_html(n.children) + "</div>"@
        },
        Tag::UnordereList(_) => "todo"@,
        Tag::EOF => Seq::empty(),
    }
}

/// The HTML of a sequence of blocks, concatenated in order.
pub open spec fn children_html(ns: Seq<Node>) -> Seq<char>
    decreases ns, 0int,
{
    if ns.len() == 0 {
        Seq::empty()
    } else {
        elem_html(ns[0]) + children_html(ns.skip(1))
    }
}

/// Values that render to HTML.
pub trait ToHtml {
    /// The blocks below this value satisfy the tree invariants.
    spec fn html_wf(&self) -> bool;

    /// The HTML this value renders to.
    spec fn html_spec(&self) -> Seq<char>;

    /// Renders to HTML.
    fn to_html(&self) -> (r: String)
        requires
            self.html_wf(),
        ensures
            r@ == self.html_spec(),
    ;
}

impl ToHtml for Element {
    open spec fn html_wf(&self) -> bool {
        wf_node(self@)
    }

    open spec fn html_spec(&self) -> Seq<char> {
        elem_html(self@)
    }

    fn to_html(&self) -> (r: String) {
        element_html(self)
    }
}

impl ToHtml for Tree {
    open spec fn html_wf(&self) -> bool {
        wf_nodes(self@)
    }

    open spec fn html_spec(&self) -> Seq<char> {
        children_html(self@)
    }

    fn to_html(&self) -> (r: String) {
        let mut out = String::new();
        let len = self.0.len();
        let mut i: usize = 0;
        proof {
            crate::tree::lemma_nodes_of(self.0@);
            assert(self@.skip(0) =~= self@);
            assert(Seq::<char>::empty() + children_html(self@) =~= children_html(self@));
        }
        while i < len
            invariant
                i <= len,
                len == self.0.len(),
                wf_nodes(self@),
                self@.len() == len,
                children_html(self@) == out@ + children_html(self@.skip(i as int)),
            decreases len - i,
        {
            proof {
                lemma_wf_nodes_index(self@, i as int);
                crate::tree::lemma_nodes_of(self.0@);
                assert(self@[i as int] == self.0[i as int]@);
            }
            let piece = element_html(&self.0[i]);
            out.append(piece.as_str());
            proof {
                let tail = self@.skip(i as int);
                assert(tail[0] == self@[i as int]);
                assert(tail.skip(1) =~= self@.skip(i as int + 1));
                assert(out@ + children_html(self@.skip(i as int + 1)) =~= children_html(self@));
            }
            i += 1;
        }
        proof {
            assert(self@.skip(len as int) =~= Seq::<Node>::empty());
        }
        out
    }
}

/// Renders one block.
fn element_html(e: &Element) -> (r: String)
    requires
        wf_node(e@),
    ensures
        r@ == elem_html(e@),
    decreases *e, 3int,
{
    match e.tag {
        Tag::Paragraph => paragraph(e),
        Tag::Heading(1) => {
            let mut out = String::new();
            out.append("<h1>");
            out.append(e.content.as_str());
            out.append("</h1>");
            proof {
                assert(out@ =~= "<h1>"@ + e@.text + "</h1>"@);
            }
            out
        },
        Tag::Heading(level) => head(level, e),
        Tag::UnordereList(level) => list(level, e),
        Tag::EOF => {
            proof {
                assert(false);
            }
            String::new()
        },
    }
}

/// Renders a heading of depth 2 or more.
fn head(level: usize, element: &Element) -> (r: String)
    requires
        level >= 2,
        element@.tag == Tag::Heading(level),
        wf_nodes(element@.children),
    ensures
        r@ == elem_html(element@),
    decreases *element, 2int,
{
    section(level, element)
}

/// Renders the children of a block, concatenated in order.
fn element_child(element: &Element) -> (r: String)
    requires
        wf_nodes(element@.children),
    ensures
        r@ == children_html(element@.children),
    decreases *element, 0int,
{
    let mut out = String::new();
    let len = element.children.len();
    let ghost cs = element@.children;
    let mut i: usize = 0;
    proof {
        crate::tree::lemma_nodes_of(element.children@);
        assert(cs.skip(0) =~= cs);
        assert(Seq::<char>::empty() + children_html(cs) =~= children_html(cs));
    }
    while i < len
        invariant
            i <= len,
            len == element.children.len(),
            wf_nodes(cs),
            cs == element@.children,
            cs.len() == len,
            children_html(cs) == out@ + children_html(cs.skip(i as int)),
        decreases len - i,
    {
        proof {
            lemma_wf_nodes_index(cs, i as int);
            crate::tree::lemma_nodes_of(element.children@);
            assert(cs[i as int] == element.children[i as int]@);
        }
        let piece = element_html(&element.children[i]);
        out.append(piece.as_str());
        proof {
            let tail = cs.skip(i as int);
            assert(tail[0] == cs[i as int]);
            assert(tail.skip(1) =~= cs.skip(i as int + 1));
            assert(out@ + children_html(cs.skip(i as int + 1)) =~= children_html(cs));
        }
        i += 1;
    }
    proof {
        assert(cs.skip(len as int) =~= Seq::<Node>::empty());
    }
    out
}

/// Renders the `sect` container of a heading: the classed `div`, the inner
/// heading tag, and the children.
fn section(level: usize, element: &Element) -> (r: String)
    requires
        level >= 2,
        element@.tag == Tag::Heading(level),
        wf_nodes(element@.children),
    ensures
        r@ == elem_html(element@),
    decreases *element, 1int,
{
    let mut out = String::new();
    out.append("<div class=\"sect");
    let num = usize_to_string(level - 1);
    out.append(num.as_str());
    out.append("\">");
    let inner = h(level, element);
    out.append(inner.as_str());
    let kids = element_child(element);
    out.append(kids.as_str());
    out.append("</div>");
    proof {
        assert(out@ =~= "<div class=\"sect"@ + dec_of((level - 1) as nat) + "\">"@ + h_html(
            level as nat,
            element@.text,
        ) + children_html(element@.children) + "</div>"@);
    }
    out
}

/// Renders the body container of a section: the children wrapped in a
/// `sectionbody` `div`.
#[allow(dead_code)]
fn section_body(level: usize, element: &Element) -> (r: String)
    requires
        wf_nodes(element@.children),
    ensures
        r@ == "<div class=\"sectionbody\">"@ + children_html(element@.children) + "</div>"@,
{
    let _ = level;
    let mut out = String::new();
    out.append("<div class=\"sectionbody\">");
    let kids = element_child(element);
    out.append(kids.as_str());
    out.append("</div>");
    proof {
        assert(out@ =~= "<div class=\"sectionbody\">"@ + children_html(element@.children)
            + "</div>"@);
    }
    out
}

/// Renders the inner heading tag: `<hN id="_slug">text</hN>`.
fn h(level: usize, element: &Element) -> (r: String)
    ensures
        r@ == h_html(level as nat, element@.text),
{
    let mut out = String::new();
    out.append("<h");
    let num = usize_to_string(level);
    out.append(num.as_str());
    out.append(" id=\"_");
    let slug = to_snake_case(element.content.as_str());
    out.append(slug.as_str());
    out.append("\">");
    out.append(element.content.as_str());
    out.append("</h");
    out.append(num.as_str());
    out.append(">");
    proof {
        assert(out@ =~= h_html(level as nat, element@.text));
    }
    out
}

/// Rendering of list blocks: not implemented, a fixed stub text.
fn list(level: usize, element: &Element) -> (r: String)
    ensures
        r@ == "todo"@,
{
    let _ = level;
    let _ = element;
    "todo".to_owned()
}

/// Renders a paragraph: its text in a `paragraph` container.
fn paragraph(element: &Element) -> (r: String)
    ensures
        r@ == "<div class=\"paragraph\"><p>"@ + element@.text + "</p></div>"@,
{
    let mut out = String::new();
    out.append("<div class=\"paragraph\"><p>");
    out.append(element.content.as_str());
    out.append("</p></div>");
    proof {
        assert(out@ =~= "<div class=\"paragraph\"><p>"@ + element@.text + "</p></div>"@);
    }
    out
}

/// Turns every space into an underscore and keeps every other character:
/// the verified half of the slug, after the lower-casing.
pub fn underscore_spaces(input: &str) -> (r: String)
    ensures
        r@ == map_snake(input@),
{
    let n = input.unicode_len();
    let mut out = String::new();
    let mut i: usize = 0;
    proof {
        assert(input@.subrange(0, 0) =~= Seq::<char>::empty());
    }
    while i < n
        invariant
            i <= n,
            n == input@.len(),
            out@ == map_snake(input@.subrange(0, i as int)),
        decreases n - i,
    {
        let c = input.get_char(i);
        let mapped = if c == ' ' {
            '_'
        } else {
            c
        };
        push_char(&mut out, mapped);
        proof {
            let pre = input@.subrange(0, i as int + 1);
            assert(pre.drop_last() =~= input@.subrange(0, i as int));
            assert(pre.last() == input@[i as int]);
        }
        i += 1;
    }
    proof {
        assert(input@.subrange(0, n as int) =~= input@);
    }
    out
}

/// The identifier slug of a heading text: lower case, spaces as underscores.
pub fn to_snake_case(input: &str) -> (r: String)
    ensures
        r@ == snake_of(input@),
{
    let low = lowercase(input);
    underscore_spaces(low.as_str())
}

/// `n` written in decimal.
fn usize_to_string(n: usize) -> (r: String)
    ensures
        r@ == dec_of(n as nat),
    decreases n,
{
    if n < 10 {
        digit_str(n).to_owned()
    } else {
        proof {
            assert(n / 10 < n) by (nonlinear_arith)
                requires
                    n >= 10,
            ;
        }
        let mut front = usize_to_string(n / 10);
        front.append(digit_str(n % 10));
        proof {
            assert(dec_of((n / 10) as nat) + seq![digit_char((n % 10) as nat)] =~= dec_of(
                n as nat,
            ));
        }
        front
    }
}

/// The decimal digit `d` as a one-character string.
fn digit_str(d: usize) -> (r: &'static str)
    requires
        d < 10,
    ensures
        r@ == seq![digit_char(d as nat)],
{
    if d == 0 {
        proof {
            reveal_strlit("0");
            assert("0"@ =~= seq![digit_char(0)]);
        }
        "0"
    } else if d == 1 {
        proof {
            reveal_strlit("1");
            assert("1"@ =~= seq![digit_char(1)]);
        }
        "1"
    } else if d == 2 {
        proof {
            reveal_strlit("2");
            assert("2"@ =~= seq![digit_char(2)]);
        }
        "2"
    } else if d == 3 {
        proof {
            reveal_strlit("3");
            assert("3"@ =~= seq![digit_char(3)]);
        }
        "3"
    } else if d == 4 {
        proof {
            reveal_strlit("4");
            assert("4"@ =~= seq![digit_char(4)]);
        }
        "4"
    } else if d == 5 {
        proof {
            reveal_strlit("5");
            assert("5"@ =~= seq![digit_char(5)]);
        }
        "5"
    } else if d == 6 {
        proof {
            reveal_strlit("6");
            assert("6"@ =~= seq![digit_char(6)]);
        }
        "6"
    } else if d == 7 {
        proof {
            reveal_strlit("7");
            assert("7"@ =~= seq![digit_char(7)]);
        }
        "7"
    } else if d == 8 {
        proof {
            reveal_strlit("8");
            assert("8"@ =~= seq![digit_char(8)]);
        }
        "8"
    } else {
        proof {
            reveal_strlit("9");
            assert("9"@ =~= seq![digit_char(9)]);
        }
        "9"
    }
}

/// Relies on `str::to_lowercase`: its result is a function of the input's
/// characters alone, named here by [`lower_of`].
#[verifier::external_body]
fn lowercase(s: &str) -> (r: String)
    ensures
        r@ == lower_of(s@),
{
    s.to_lowercase()
}

/// Relies on `String::push`: appends exactly the one character `c`.
#[verifier::external_body]
fn push_char(s: &mut String, c: char)
    ensures
        final(s)@ == old(s)@.push(c),
{
    s.push(c);
}

} // verus!
