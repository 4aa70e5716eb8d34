//! The document tree: blocks tagged as headings, paragraphs or (reserved)
//! unordered lists, and the classifier that decides which block the next
//! input line opens.

use vstd::prelude::*;

use crate::scan::sep_ws_at;

verus! {

broadcast use
    vstd::std_specs::vec::axiom_vec_index_decreases,
    vstd::seq::axiom_seq_index_decreases,
    vstd::seq::axiom_seq_subrange_decreases,
;

/// The kind of a block. `EOF` is the classifier's "nothing left" signal; it
/// never appears in a tree that parsing produces.
#[derive(Clone, Debug, PartialEq, Eq)]
pub enum Tag {
    Paragraph,
    UnordereList(usize),
    Heading(usize),
    EOF,
}

/// One block: its kind, the literal text of its line, and the blocks nested
/// under it (non-empty only for headings).
#[derive(Debug, PartialEq, Eq)]
pub struct Element {
    pub tag: Tag,
    pub content: String,
    pub children: Vec<Element>,
}

/// An ordered sequence of root-level blocks; the value a parse returns.
#[derive(Debug, PartialEq, Eq)]
pub struct Tree(pub Vec<Element>);

/// The mathematical shape of an [`Element`]: the same tree with the text as
/// a sequence of characters.
pub struct Node {
    pub tag: Tag,
    pub text: Seq<char>,
    pub children: Seq<Node>,
}

/// The [`Node`] an [`Element`] stands for.
pub open spec fn node_of(e: Element) -> Node
    decreases e,
{
    Node { tag: e.tag, text: e.content@, children: nodes_of(e.children@) }
}

/// The [`Node`]s a sequence of [`Element`]s stands for, in order.
pub open spec fn nodes_of(es: Seq<Element>) -> Seq<Node>
    decreases es,
{
    if es.len() == 0 {
        Seq::empty()
    } else {
        nodes_of(es.drop_last()).push(node_of(es.last()))
    }
}

/// `nodes_of` maps `node_of` over the sequence, element by element.
pub proof fn lemma_nodes_of(es: Seq<Element>)
    ensures
        nodes_of(es).len() == es.len(),
        forall|i: int| 0 <= i < es.len() ==> nodes_of(es)[i] == node_of(es[i]),
    decreases es.len(),
{
    if es.len() > 0 {
        lemma_nodes_of(es.drop_last());
    }
}

impl View for Element {
    type V = Node;

    open spec fn view(&self) -> Node {
        node_of(*self)
    }
}

impl View for Tree {
    type V = Seq<Node>;

    open spec fn view(&self) -> Seq<Node> {
        nodes_of(self.0@)
    }
}

impl Element {
    /// Replaces this block's children with the blocks of `child`.
    pub fn set_child(&mut self, child: Tree)
        ensures
            final(self)@ == (Node { children: child@, ..old(self)@ }),
            final(self).tag == old(self).tag,
            final(self).content == old(self).content,
    {
        self.children = child.0;
        proof {
            assert(self@.children =~= child@);
        }
    }
}

impl Tree {
    /// Appends one block at root level.
    pub fn push(&mut self, el: Element)
        ensures
            final(self)@ == old(self)@.push(el@),
    {
        self.0.push(el);
        proof {
            let v = old(self).0@;
            assert(v.push(el).drop_last() =~= v);
        }
    }

    /// Appends every block of `rhs`, in order, after the blocks of `self`.
    pub fn extend(&mut self, rhs: Tree)
        ensures
            final(self)@ == old(self)@ + rhs@,
    {
        let mut other = rhs;
        self.0.append(&mut other.0);
        proof {
            lemma_nodes_of(self.0@);
            lemma_nodes_of(old(self).0@);
            lemma_nodes_of(rhs.0@);
            assert(self@ =~= old(self)@ + rhs@);
        }
    }

    /// Iterates over the root-level blocks in order.
    pub fn iter(&self) -> (r: std::slice::Iter<'_, Element>)
        ensures
            vstd::std_specs::slice::into_iter_elts(r) == self.0@,
    {
        let r = self.0.as_slice().iter();
        proof {
            broadcast use vstd::std_specs::slice::axiom_spec_slice_iter;

            assert(self.0@.as_ref().unref() =~= self.0@);
        }
        r
    }

    /// The empty tree.
    pub fn new() -> (r: Self)
        ensures
            r@ == Seq::<Node>::empty(),
            r.0@ == Seq::<Element>::empty(),
    {
        let t = Tree(vec![]);
        proof {
            assert(t@ =~= Seq::<Node>::empty());
        }
        t
    }
}

/// The invariants of a block in a produced tree: a heading's depth is at
/// least 1, a paragraph owns no children, and the classifier's end-of-input
/// signal never appears; the same holds below every child.
pub open spec fn wf_node(n: Node) -> bool
    decreases n, 1int,
{
    &&& match n.tag {
        Tag::Heading(level) => level >= 1,
        Tag::UnordereList(_) => true,
        Tag::Paragraph => n.children.len() == 0,
        Tag::EOF => false,
    }
    &&& wf_nodes(n.children)
}

/// [`wf_node`], over every block of a sequence.
pub open spec fn wf_nodes(ns: Seq<Node>) -> bool
    decreases ns, 0int,
{
    if ns.len() == 0 {
        true
    } else {
        wf_node(ns[0]) && wf_nodes(ns.skip(1))
    }
}

/// A well-formed block in front of a well-formed sequence keeps the
/// sequence well formed.
pub proof fn lemma_wf_nodes_cons(n: Node, ns: Seq<Node>)
    requires
        wf_node(n),
        wf_nodes(ns),
    ensures
        wf_nodes(seq![n] + ns),
{
    assert((seq![n] + ns)[0] == n);
    assert((seq![n] + ns).skip(1) =~= ns);
}

/// A well-formed sequence is well formed at every index.
pub proof fn lemma_wf_nodes_index(ns: Seq<Node>, i: int)
    requires
        wf_nodes(ns),
        0 <= i < ns.len(),
    ensures
        wf_node(ns[i]),
    decreases ns.len(),
{
    if i > 0 {
        assert(ns.skip(1)[i - 1] == ns[i]);
        lemma_wf_nodes_index(ns.skip(1), i - 1);
    }
}

/// Length of the leading run of `=` sigils.
pub open spec fn sigil_run(s: Seq<char>) -> nat
    decreases s.len(),
{
    if s.len() > 0 && s[0] == '=' {
        1 + sigil_run(s.skip(1))
    } else {
        0
    }
}

pub proof fn lemma_sigil_run_bound(s: Seq<char>)
    ensures
        sigil_run(s) <= s.len(),
    decreases s.len(),
{
    if s.len() > 0 && s[0] == '=' {
        lemma_sigil_run_bound(s.skip(1));
    }
}

/// `sigil_run` equals the first index whose character is not a sigil (or the
/// length, when all of `s` is sigils).
pub proof fn lemma_sigil_run_is(s: Seq<char>, i: int)
    requires
        0 <= i <= s.len(),
        forall|j: int| 0 <= j < i ==> s[j] == '=',
        i < s.len() ==> s[i] != '=',
    ensures
        sigil_run(s) == i,
    decreases i,
{
    if i > 0 {
        let t = s.skip(1);
        assert forall|j: int| 0 <= j < i - 1 implies t[j] == '=' by {
            assert(t[j] == s[j + 1]);
        }
        if i - 1 < t.len() {
            assert(t[i - 1] == s[i]);
        }
        lemma_sigil_run_is(t, i - 1);
    }
}

/// Appending `y` leaves the sigil run unchanged when `y` does not begin
/// with a sigil.
pub proof fn lemma_sigil_run_concat(x: Seq<char>, y: Seq<char>)
    requires
        y.len() >= 1 ==> y[0] != '=',
    ensures
        sigil_run(x + y) == sigil_run(x),
    decreases x.len(),
{
    if x.len() == 0 {
        assert(x + y =~= y);
    } else if x[0] == '=' {
        assert((x + y)[0] == x[0]);
        assert((x + y).skip(1) =~= x.skip(1) + y);
        lemma_sigil_run_concat(x.skip(1), y);
    } else {
        assert((x + y)[0] == x[0]);
    }
}

/// Every character of the sigil run is a sigil.
pub proof fn lemma_sigil_run_chars(s: Seq<char>)
    ensures
        forall|j: int| 0 <= j < sigil_run(s) ==> s[j] == '=',
    decreases s.len(),
{
    if s.len() > 0 && s[0] == '=' {
        let t = s.skip(1);
        lemma_sigil_run_chars(t);
        lemma_sigil_run_bound(t);
        assert forall|j: int| 0 <= j < sigil_run(s) implies s[j] == '=' by {
            if j > 0 {
                assert(t[j - 1] == s[j]);
            }
        }
    }
}

/// The depth of the heading that starts `s`: the length of the leading sigil
/// run when that run is non-empty and whitespace of the same line follows it
/// directly, else 0.
pub open spec fn heading_depth(s: Seq<char>) -> nat {
    if 1 <= sigil_run(s) && sep_ws_at(s, sigil_run(s) as int) {
        sigil_run(s)
    } else {
        0
    }
}

/// What the next logical line of `s` is: a heading carrying its depth, a
/// paragraph, or nothing at all.
pub open spec fn classify(s: Seq<char>) -> Tag {
    if s.len() == 0 {
        Tag::EOF
    } else if heading_depth(s) > 0 {
        Tag::Heading(heading_depth(s) as usize)
    } else {
        Tag::Paragraph
    }
}

/// The depth a depth-bearing tag carries.
pub open spec fn depth_of(t: Tag) -> usize {
    match t {
        Tag::Heading(level) => level,
        Tag::UnordereList(level) => level,
        _ => 0,
    }
}

impl Tag {
    /// The depth of a `Heading` or `UnordereList` tag. Only those two
    /// variants carry a depth, so only they are accepted.
    pub fn get_depth(&self) -> (r: usize)
        requires
            self is Heading || self is UnordereList,
        ensures
            r == depth_of(*self),
    {
        match self {
            Tag::Heading(level) => *level,
            Tag::UnordereList(level) => *level,
            _ => {
                proof {
                    assert(false);
                }
                0
            },
        }
    }

    /// Classifies the head of `input` without consuming anything.
    pub fn next(input: &str) -> (r: Tag)
        ensures
            r == classify(input@),
    {
        let n = input.unicode_len();
        if n == 0 {
            Tag::EOF
        } else {
            let head_level = Tag::is_heading(input, 0);
            let first = input.get_char(0);
            proof {
                lemma_sigil_run_chars(input@);
            }
            match first {
                '=' if head_level > 0 => Tag::Heading(head_level),
                _ => Tag::Paragraph,
            }
        }
    }

    /// Counts the sigil run from the head of `input` on top of `level`;
    /// yields the total only when whitespace of the same line follows the
    /// run, else 0.
    fn is_heading(input: &str, level: usize) -> (r: usize)
        requires
            level + input@.len() <= usize::MAX,
        ensures
            r == (if sep_ws_at(input@, sigil_run(input@) as int) {
                level + sigil_run(input@)
            } else {
                0
            }),
        decreases input@.len(),
    {
        let n = input.unicode_len();
        if n == 0 {
            0
        } else {
            let next = input.get_char(0);
            match next {
                '=' => {
                    let rest = input.substring_char(1, n);
                    let r = Tag::is_heading(rest, level + 1);
                    proof {
                        assert(rest@ =~= input@.skip(1));
                        assert(sigil_run(input@) == 1 + sigil_run(rest@));
                        let m = sigil_run(rest@) as int;
                        if m < rest@.len() {
                            assert(rest@[m] == input@[m + 1]);
                            if m + 1 < rest@.len() {
                                assert(rest@[m + 1] == input@[m + 2]);
                            }
                        }
                    }
                    r
                },
                c => {
                    proof {
                        assert(sigil_run(input@) == 0);
                    }
                    if crate::scan::ws_char(c) && c != '\n' {
                        if c == '\r' && n >= 2 {
                            let second = input.get_char(1);
                            if second == '\n' {
                                0
                            } else {
                                level
                            }
                        } else {
                            level
                        }
                    } else {
                        0
                    }
                },
            }
        }
    }

    /// Counts the run of `-` or `*` markers from the head of `input` on top
    /// of `level`; yields the total only when a space follows the run, else
    /// 0. Reserved for the unimplemented list grammar.
    #[allow(dead_code)]
    fn is_unordered_list(input: &str, level: usize) -> (r: usize)
        requires
            level + input@.len() <= usize::MAX,
        ensures
            r == (if list_run(input@) < input@.len() && input@[list_run(input@) as int] == ' ' {
                level + list_run(input@)
            } else {
                0
            }),
        decreases input@.len(),
    {
        let n = input.unicode_len();
        if n == 0 {
            0
        } else {
            let next = input.get_char(0);
            match next {
                '-' | '*' => {
                    let rest = input.substring_char(1, n);
                    let r = Tag::is_unordered_list(rest, level + 1);
                    proof {
                        assert(rest@ =~= input@.skip(1));
                        assert(list_run(input@) == 1 + list_run(rest@));
                        if list_run(rest@) < rest@.len() {
                            assert(rest@[list_run(rest@) as int] == input@[list_run(
                                input@,
                            ) as int]);
                        }
                    }
                    r
                },
                ' ' => {
                    proof {
                        assert(list_run(input@) == 0);
                    }
                    level
                },
                _ => {
                    proof {
                        assert(list_run(input@) == 0);
                    }
                    0
                },
            }
        }
    }
}

/// Length of the leading run of list markers (`-` or `*`).
pub open spec fn list_run(s: Seq<char>) -> nat
    decreases s.len(),
{
    if s.len() > 0 && (s[0] == '-' || s[0] == '*') {
        1 + list_run(s.skip(1))
    } else {
        0
    }
}

} // verus!
