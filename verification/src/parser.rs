//! The parsing engine: single-item parsers, the two block parsers (heading
//! line and paragraph line, each also consuming the blank lines that trail
//! it), and the recursive assembler that nests blocks by heading depth.
//!
//! Every parser takes the remaining input and returns `Ok` with the input
//! after the match and the decoded value, or `Err` carrying the input
//! unchanged, so that a failed alternative can be retried from the very same
//! position.

use vstd::prelude::*;

use crate::scan::{
    blank_run, is_ws, lemma_blank_run_bound, lemma_blank_run_concat_lf, lemma_blank_run_concat_stop,
    lemma_line_run_bound, lemma_line_run_chars, lemma_line_run_concat_stop, lemma_line_run_is,
    lemma_sep_ws_is_line_ws, lemma_ws_run_bound, lemma_ws_run_is, line_run, line_text,
    line_text_len, nl_token, sep_ws_at, ws_char, ws_run,
};
use crate::tree::{
    classify, heading_depth, lemma_sigil_run_bound, lemma_sigil_run_chars, lemma_sigil_run_concat,
    lemma_sigil_run_is, sigil_run, wf_node, wf_nodes, Element, Node, Tag, Tree,
};

verus! {

/// A heading line starts here: a non-empty sigil run directly followed by
/// whitespace of the same line.
pub open spec fn heading_fits(s: Seq<char>) -> bool {
    sigil_run(s) >= 1 && sep_ws_at(s, sigil_run(s) as int)
}

/// Where the heading's text begins: past the sigil run and the whitespace
/// run after it, which stops at the line's own ending.
pub open spec fn heading_text_start(s: Seq<char>) -> nat {
    sigil_run(s) + ws_run(line_text(s).skip(sigil_run(s) as int))
}

/// The block a heading parse produces: depth from the sigil run, the rest of
/// the line's text — terminator excluded — as text, no children yet.
pub open spec fn heading_node(s: Seq<char>) -> Node {
    Node {
        tag: Tag::Heading(sigil_run(s) as usize),
        text: s.subrange(heading_text_start(s) as int, line_text_len(s) as int),
        children: Seq::empty(),
    }
}

/// A paragraph line starts here: some character remains and it is not
/// whitespace.
pub open spec fn para_fits(s: Seq<char>) -> bool {
    s.len() > 0 && !is_ws(s[0])
}

/// How much a block parse consumes: the whole line, its terminator, and
/// every blank line directly after it.
pub open spec fn block_end(s: Seq<char>) -> nat {
    line_run(s) + blank_run(s.skip(line_run(s) as int))
}

/// The block a paragraph parse produces: the line's text, verbatim, with
/// only the terminator excluded.
pub open spec fn para_node(s: Seq<char>) -> Node {
    Node { tag: Tag::Paragraph, text: line_text(s), children: Seq::empty() }
}

/// A heading parse consumes at least the sigil and its separator and never
/// more than the input; its text lies inside the line.
pub proof fn lemma_heading_bounds(s: Seq<char>)
    requires
        heading_fits(s),
    ensures
        sigil_run(s) < heading_text_start(s) <= line_text_len(s) <= line_run(s),
        2 <= block_end(s) <= s.len(),
{
    let n = sigil_run(s) as int;
    lemma_sigil_run_chars(s);
    lemma_sigil_run_bound(s);
    lemma_line_run_bound(s);
    lemma_line_run_chars(s);
    lemma_sep_ws_is_line_ws(s, n);
    assert(n < line_text_len(s));
    lemma_ws_run_bound(line_text(s).skip(n));
    assert(line_text(s).skip(n)[0] == s[n]);
    lemma_blank_run_bound(s.skip(line_run(s) as int));
    assert(line_run(s) > n) by {
        if line_run(s) <= n {
            assert(s[line_run(s) as int] == '=' || s[line_run(s) as int] == s[n]);
        }
    }
}

/// A paragraph parse consumes at least one character and never more than the
/// input.
pub proof fn lemma_para_bounds(s: Seq<char>)
    requires
        para_fits(s),
    ensures
        1 <= line_run(s),
        line_run(s) <= block_end(s) <= s.len(),
        line_text_len(s) <= line_run(s),
{
    lemma_line_run_bound(s);
    lemma_blank_run_bound(s.skip(line_run(s) as int));
}

/// The classifier and the heading grammar agree: wherever the classifier
/// reports a heading, a heading of exactly that depth starts, so the heading
/// parser succeeds there.
pub proof fn lemma_classify_heading_fits(s: Seq<char>)
    requires
        classify(s) is Heading,
    ensures
        heading_fits(s),
        sigil_run(s) == heading_depth(s),
        1 <= sigil_run(s) < s.len(),
{
}

/// Outcome of assembling blocks: the input left over together with the
/// blocks built, or the position at which no block grammar applies (a line
/// that starts with whitespace), or exhaustion of the recursion bound
/// (never reached when the bound exceeds the input length).
pub enum Parsed {
    Done { rest: Seq<char>, nodes: Seq<Node> },
    Stuck { rest: Seq<char> },
    Spent,
}

/// The assembler, as a mathematical function. Scans blocks left to right:
/// a paragraph joins the current sibling sequence; a heading below `floor`
/// ends the sequence unconsumed; any other heading takes every following
/// block of strictly greater depth as its children and lowers the floor for
/// its later siblings to its own depth. `fuel` bounds the recursion and is
/// irrelevant once it exceeds the length of `s`.
pub open spec fn assemble(s: Seq<char>, floor: int, fuel: nat) -> Parsed
    decreases fuel,
{
    if fuel == 0 {
        Parsed::Spent
    } else {
        let f = (fuel - 1) as nat;
        match classify(s) {
            Tag::EOF => Parsed::Done { rest: s, nodes: Seq::empty() },
            Tag::Paragraph => {
                if !para_fits(s) {
                    Parsed::Stuck { rest: s }
                } else {
                    match assemble(s.skip(block_end(s) as int), floor, f) {
                        Parsed::Done { rest, nodes } => Parsed::Done {
                            rest,
                            nodes: seq![para_node(s)] + nodes,
                        },
                        other => other,
                    }
                }
            },
            Tag::Heading(level) => {
                if (level as int) < floor {
                    Parsed::Done { rest: s, nodes: Seq::empty() }
                } else {
                    match assemble(s.skip(block_end(s) as int), level as int + 1, f) {
                        Parsed::Done { rest: r2, nodes: kids } => {
                            let node = Node { children: kids, ..heading_node(s) };
                            match assemble(r2, level as int, f) {
                                Parsed::Done { rest: r3, nodes: sibs } => Parsed::Done {
                                    rest: r3,
                                    nodes: seq![node] + sibs,
                                },
                                other => other,
                            }
                        },
                        other => other,
                    }
                }
            },
            Tag::UnordereList(_) => Parsed::Stuck { rest: s },
        }
    }
}

/// Any recursion bound beyond the input length gives the same outcome, that
/// outcome is never `Spent`, and the leftover input never grows.
pub proof fn lemma_assemble_fuel(s: Seq<char>, floor: int, f1: nat, f2: nat)
    requires
        f1 > s.len(),
        f2 > s.len(),
    ensures
        assemble(s, floor, f1) == assemble(s, floor, f2),
        !(assemble(s, floor, f1) is Spent),
        (assemble(s, floor, f1) matches Parsed::Done { rest, .. } ==> rest.len() <= s.len()),
        (assemble(s, floor, f1) matches Parsed::Stuck { rest } ==> rest.len() <= s.len()),
    decreases s.len(),
{
    match classify(s) {
        Tag::EOF => {},
        Tag::Paragraph => {
            if para_fits(s) {
                lemma_para_bounds(s);
                let r = s.skip(block_end(s) as int);
                lemma_assemble_fuel(r, floor, (f1 - 1) as nat, (f2 - 1) as nat);
            }
        },
        Tag::Heading(level) => {
            if floor <= level as int {
                lemma_classify_heading_fits(s);
                lemma_heading_bounds(s);
                let r1 = s.skip(block_end(s) as int);
                lemma_assemble_fuel(r1, level as int + 1, (f1 - 1) as nat, (f2 - 1) as nat);
                match assemble(r1, level as int + 1, (f1 - 1) as nat) {
                    Parsed::Done { rest: r2, nodes: kids } => {
                        lemma_assemble_fuel(r2, level as int, (f1 - 1) as nat, (f2 - 1) as nat);
                    },
                    _ => {},
                }
            }
        },
        Tag::UnordereList(_) => {},
    }
}

/// Takes the first character off the input, whatever it is; fails only on
/// empty input.
pub fn any_char<'a>(input: &'a str) -> (r: Result<(&'a str, char), &'a str>)
    ensures
        input@.len() > 0 ==> (r matches Ok(p) && p.0@ == input@.skip(1) && p.1 == input@[0]),
        input@.len() == 0 ==> (r matches Err(e) && e@ == input@),
{
    let n = input.unicode_len();
    if n == 0 {
        Err(input)
    } else {
        let c = input.get_char(0);
        let rest = input.substring_char(1, n);
        proof {
            assert(rest@ =~= input@.skip(1));
        }
        Ok((rest, c))
    }
}

/// Takes the first character iff it is whitespace.
pub fn whitespace_char<'a>(input: &'a str) -> (r: Result<(&'a str, char), &'a str>)
    ensures
        (input@.len() > 0 && is_ws(input@[0])) ==> (r matches Ok(p) && p.0@ == input@.skip(1)
            && p.1 == input@[0]),
        !(input@.len() > 0 && is_ws(input@[0])) ==> (r matches Err(e) && e@ == input@),
{
    match any_char(input) {
        Ok((rest, c)) => {
            if ws_char(c) {
                Ok((rest, c))
            } else {
                Err(input)
            }
        },
        Err(e) => Err(e),
    }
}

/// Takes the first character iff it is not whitespace.
pub fn not_whitespace_char<'a>(input: &'a str) -> (r: Result<(&'a str, char), &'a str>)
    ensures
        (input@.len() > 0 && !is_ws(input@[0])) ==> (r matches Ok(p) && p.0@ == input@.skip(1)
            && p.1 == input@[0]),
        !(input@.len() > 0 && !is_ws(input@[0])) ==> (r matches Err(e) && e@ == input@),
{
    match any_char(input) {
        Ok((rest, c)) => {
            if ws_char(c) {
                Err(input)
            } else {
                Ok((rest, c))
            }
        },
        Err(e) => Err(e),
    }
}

/// Consumes exactly `expected` iff the input starts with it.
pub fn match_literal<'a>(expected: &str, input: &'a str) -> (r: Result<(&'a str, ()), &'a str>)
    ensures
        expected@.is_prefix_of(input@) ==> (r matches Ok(p) && p.0@ == input@.skip(
            expected@.len() as int,
        )),
        !expected@.is_prefix_of(input@) ==> (r matches Err(e) && e@ == input@),
{
    let m = expected.unicode_len();
    let n = input.unicode_len();
    if m > n {
        return Err(input);
    }
    let mut i: usize = 0;
    while i < m
        invariant
            i <= m,
            m == expected@.len(),
            n == input@.len(),
            m <= n,
            forall|j: int| 0 <= j < i ==> input@[j] == expected@[j],
        decreases m - i,
    {
        if input.get_char(i) != expected.get_char(i) {
            proof {
                assert(input@.subrange(0, m as int)[i as int] != expected@[i as int]);
            }
            return Err(input);
        }
        i += 1;
    }
    let rest = input.substring_char(m, n);
    proof {
        assert(input@.subrange(0, m as int) =~= expected@);
        assert(rest@ =~= input@.skip(m as int));
    }
    Ok((rest, ()))
}

/// Consumes one line ending: a line feed, or a carriage return followed by a
/// line feed.
pub fn new_line<'a>(input: &'a str) -> (r: Result<(&'a str, ()), &'a str>)
    ensures
        nl_token(input@) > 0 ==> (r matches Ok(p) && p.0@ == input@.skip(nl_token(input@) as int)),
        nl_token(input@) == 0 ==> (r matches Err(e) && e@ == input@),
{
    proof {
        reveal_strlit("\n");
        reveal_strlit("\r\n");
    }
    match match_literal("\n", input) {
        Ok(p) => {
            proof {
                assert(input@.subrange(0, 1)[0] == input@[0]);
            }
            Ok(p)
        },
        Err(_) => match match_literal("\r\n", input) {
            Ok(p) => {
                proof {
                    assert(input@.subrange(0, 2)[0] == input@[0]);
                    assert(input@.subrange(0, 2)[1] == input@[1]);
                }
                Ok(p)
            },
            Err(e) => {
                proof {
                    if nl_token(input@) == 1 {
                        assert(input@.subrange(0, 1) =~= "\n"@);
                    }
                    if nl_token(input@) == 2 {
                        assert(input@.subrange(0, 2) =~= "\r\n"@);
                    }
                }
                Err(e)
            },
        },
    }
}

/// Length in characters of the current line: everything up to the first line
/// feed.
fn line_len(input: &str) -> (r: usize)
    ensures
        r == line_run(input@),
{
    let n = input.unicode_len();
    let mut i: usize = 0;
    while i < n && input.get_char(i) != '\n'
        invariant
            i <= n,
            n == input@.len(),
            forall|j: int| 0 <= j < i ==> input@[j] != '\n',
        decreases n - i,
    {
        i += 1;
    }
    proof {
        lemma_line_run_is(input@, i as int);
    }
    i
}

/// Consumes every line-ending token at the head of the input.
fn skip_blanks<'a>(input: &'a str) -> (r: &'a str)
    ensures
        r@ == input@.skip(blank_run(input@) as int),
{
    let mut cur = input;
    let ghost mut consumed: int = 0;
    loop
        invariant
            0 <= consumed <= input@.len(),
            cur@ == input@.skip(consumed),
            blank_run(input@) == consumed + blank_run(cur@),
        ensures
            cur@ == input@.skip(blank_run(input@) as int),
        decreases cur@.len(),
    {
        match new_line(cur) {
            Ok((next, ())) => {
                proof {
                    let tok = nl_token(cur@) as int;
                    assert(next@ =~= input@.skip(consumed + tok));
                    consumed = consumed + tok;
                }
                cur = next;
            },
            Err(_) => {
                proof {
                    assert(blank_run(cur@) == 0);
                }
                break ;
            },
        }
    }
    cur
}

/// Parses a heading opener: the sigil run, whose length is the heading's
/// depth, and the whitespace separating it from the heading's text.
/// Length in characters of the current line's text: the line less the
/// carriage return of a `\r\n` ending.
fn text_len(input: &str) -> (r: usize)
    ensures
        r == line_text_len(input@),
        r <= line_run(input@),
{
    let n = input.unicode_len();
    let k = line_len(input);
    proof {
        lemma_line_run_bound(input@);
    }
    if k < n && k >= 1 && input.get_char(k - 1) == '\r' {
        k - 1
    } else {
        k
    }
}

pub fn heading_start<'a>(input: &'a str) -> (r: Result<(&'a str, Tag), &'a str>)
    ensures
        heading_fits(input@) ==> (r matches Ok(p) && p.0@ == input@.skip(
            heading_text_start(input@) as int,
        ) && p.1 == Tag::Heading(sigil_run(input@) as usize)),
        !heading_fits(input@) ==> (r matches Err(e) && e@ == input@),
{
    let n = input.unicode_len();
    let mut i: usize = 0;
    while i < n && input.get_char(i) == '='
        invariant
            i <= n,
            n == input@.len(),
            forall|j: int| 0 <= j < i ==> input@[j] == '=',
        decreases n - i,
    {
        i += 1;
    }
    proof {
        lemma_sigil_run_is(input@, i as int);
    }
    if i == 0 {
        return Err(input);
    }
    let lt = text_len(input);
    proof {
        lemma_line_run_bound(input@);
        if i < n {
            lemma_sep_ws_is_line_ws(input@, i as int);
        }
    }
    let mut w: usize = i;
    while w < lt && ws_char(input.get_char(w))
        invariant
            n == input@.len(),
            lt == line_text_len(input@),
            lt <= n,
            i <= w <= n,
            w == i || w <= lt,
            forall|j: int| i <= j < w ==> is_ws(input@[j]),
        decreases n - w,
    {
        w += 1;
    }
    if w == i {
        return Err(input);
    }
    proof {
        let lc = line_text(input@);
        let u = lc.skip(i as int);
        assert forall|j: int| 0 <= j < w - i implies is_ws(u[j]) by {
            assert(u[j] == input@[i + j]);
        }
        if w - i < u.len() {
            assert(u[w - i] == input@[w as int]);
        }
        lemma_ws_run_is(u, w - i);
    }
    let rest = input.substring_char(w, n);
    proof {
        assert(rest@ =~= input@.skip(heading_text_start(input@) as int));
    }
    Ok((rest, Tag::Heading(i)))
}

/// Parses one whole heading block: the opener, the rest of the line as the
/// heading's text, and the blank lines trailing the line.
pub fn head<'a>(input: &'a str) -> (r: Result<(&'a str, Element), &'a str>)
    ensures
        heading_fits(input@) ==> (r matches Ok(p) && p.0@ == input@.skip(block_end(input@) as int)
            && p.1@ == heading_node(input@)),
        !heading_fits(input@) ==> (r matches Err(e) && e@ == input@),
{
    match heading_start(input) {
        Err(e) => Err(e),
        Ok((r1, tag)) => {
            let n1 = r1.unicode_len();
            proof {
                let s = input@;
                lemma_heading_bounds(s);
                let ts = heading_text_start(s) as int;
                assert(r1@.len() == s.len() - ts);
                lemma_line_run_chars(s);
                assert forall|j: int| 0 <= j < line_run(s) - ts implies r1@[j] != '\n' by {
                    assert(r1@[j] == s[ts + j]);
                }
                if line_run(s) - ts < r1@.len() {
                    assert(r1@[line_run(s) - ts] == s[line_run(s) as int]);
                }
                lemma_line_run_is(r1@, line_run(s) - ts);
                if line_run(s) < s.len() && line_run(s) - ts >= 1 {
                    assert(r1@[line_run(s) - ts - 1] == s[line_run(s) - 1]);
                }
                assert(line_text_len(r1@) == line_text_len(s) - ts);
            }
            let k = line_len(r1);
            let tl = text_len(r1);
            let content = r1.substring_char(0, tl).to_owned();
            let after_line = r1.substring_char(k, n1);
            let rest = skip_blanks(after_line);
            let el = Element { tag, content, children: vec![] };
            proof {
                let s = input@;
                let ts = heading_text_start(s) as int;
                assert(content@ =~= s.subrange(ts, line_text_len(s) as int));
                assert(after_line@ =~= s.skip(line_run(s) as int));
                assert(rest@ =~= s.skip(block_end(s) as int));
                assert(el@.children =~= Seq::<Node>::empty());
                assert(el@ == heading_node(s));
            }
            Ok((rest, el))
        },
    }
}

/// Parses a paragraph's text: the line, verbatim, starting at its
/// non-whitespace first character, without the line's terminator.
pub fn paragraph<'a>(input: &'a str) -> (r: Result<(&'a str, String), &'a str>)
    ensures
        para_fits(input@) ==> (r matches Ok(p) && p.0@ == input@.skip(line_run(input@) as int)
            && p.1@ == line_text(input@)),
        !para_fits(input@) ==> (r matches Err(e) && e@ == input@),
{
    match not_whitespace_char(input) {
        Err(e) => Err(e),
        Ok(_) => {
            let n = input.unicode_len();
            let k = line_len(input);
            let tl = text_len(input);
            proof {
                lemma_line_run_bound(input@);
            }
            let content = input.substring_char(0, tl).to_owned();
            let rest = input.substring_char(k, n);
            proof {
                assert(content@ =~= line_text(input@));
                assert(rest@ =~= input@.skip(line_run(input@) as int));
            }
            Ok((rest, content))
        },
    }
}

/// Parses one whole paragraph block: the line and the blank lines trailing
/// it.
pub fn paragraph_element<'a>(input: &'a str) -> (r: Result<(&'a str, Element), &'a str>)
    ensures
        para_fits(input@) ==> (r matches Ok(p) && p.0@ == input@.skip(block_end(input@) as int)
            && p.1@ == para_node(input@)),
        !para_fits(input@) ==> (r matches Err(e) && e@ == input@),
{
    match paragraph(input) {
        Err(e) => Err(e),
        Ok((r1, content)) => {
            let rest = skip_blanks(r1);
            let el = Element { tag: Tag::Paragraph, content, children: vec![] };
            proof {
                let s = input@;
                lemma_para_bounds(s);
                assert(r1@ == s.skip(line_run(s) as int));
                assert(rest@ =~= s.skip(block_end(s) as int));
                assert(el@.children =~= Seq::<Node>::empty());
                assert(el@ == para_node(s));
            }
            Ok((rest, el))
        },
    }
}

/// `p` with the blocks `pre` put before its own.
pub open spec fn with_prefix(pre: Seq<Node>, p: Parsed) -> Parsed {
    match p {
        Parsed::Done { rest, nodes } => Parsed::Done { rest, nodes: pre + nodes },
        other => other,
    }
}

proof fn lemma_with_prefix_empty(p: Parsed)
    ensures
        with_prefix(Seq::empty(), p) == p,
{
    match p {
        Parsed::Done { rest, nodes } => {
            assert(Seq::empty() + nodes =~= nodes);
        },
        _ => {},
    }
}

proof fn lemma_with_prefix_concat(a: Seq<Node>, bs: Seq<Node>, p: Parsed)
    ensures
        with_prefix(a, with_prefix(bs, p)) == with_prefix(a + bs, p),
{
    match p {
        Parsed::Done { rest, nodes } => {
            assert(a + (bs + nodes) =~= (a + bs) + nodes);
        },
        _ => {},
    }
}

/// Assembles sibling blocks from the head of `input` until the input ends
/// or a heading shallower than `depth` appears; that heading is left
/// unconsumed for an enclosing call. Returns `Err` at the position of a
/// line no block grammar accepts (one that starts with whitespace).
/// Consecutive blocks are taken by the loop; the function recurses only to
/// build a heading's children, so the call depth follows the nesting depth
/// of the document, not its length.
pub fn parse_elements<'a>(input: &'a str, depth: usize) -> (r: Result<(&'a str, Tree), &'a str>)
    ensures
        (match r {
            Ok((rest, tree)) => assemble(input@, depth as int, input@.len() + 1)
                == (Parsed::Done { rest: rest@, nodes: tree@ }),
            Err(rest) => assemble(input@, depth as int, input@.len() + 1)
                == (Parsed::Stuck { rest: rest@ }),
        }),
        r matches Ok(p) ==> p.0@.len() <= input@.len(),
    decreases input@.len(),
{
    let mut output = Tree::new();
    let mut next_input = input;
    let mut floor = depth;
    proof {
        lemma_with_prefix_empty(assemble(input@, depth as int, input@.len() + 1));
    }
    loop
        invariant
            next_input@.len() <= input@.len(),
            assemble(input@, depth as int, input@.len() + 1) == with_prefix(
                output@,
                assemble(next_input@, floor as int, next_input@.len() + 1),
            ),
        decreases next_input@.len(),
    {
        let ghost cur = next_input@;
        match Tag::next(next_input) {
            Tag::EOF => {
                proof {
                    assert(output@ + Seq::<Node>::empty() =~= output@);
                }
                return Ok((next_input, output));
            },
            Tag::Paragraph => {
                match paragraph_element(next_input) {
                    Err(e) => {
                        return Err(e);
                    },
                    Ok((r1, el)) => {
                        proof {
                            lemma_para_bounds(cur);
                            lemma_assemble_fuel(r1@, floor as int, cur.len(), r1@.len() + 1);
                            lemma_with_prefix_concat(
                                output@,
                                seq![el@],
                                assemble(r1@, floor as int, r1@.len() + 1),
                            );
                            assert(output@.push(el@) =~= output@ + seq![el@]);
                        }
                        output.push(el);
                        next_input = r1;
                    },
                }
            },
            Tag::Heading(level) => {
                if level < floor {
                    proof {
                        assert(output@ + Seq::<Node>::empty() =~= output@);
                    }
                    return Ok((next_input, output));
                }
                let n_cur = next_input.unicode_len();
                proof {
                    lemma_classify_heading_fits(cur);
                    lemma_heading_bounds(cur);
                    assert(level == sigil_run(cur));
                }
                match head(next_input) {
                    Err(e) => {
                        proof {
                            assert(false);
                        }
                        return Err(e);
                    },
                    Ok((r1, mut el)) => {
                        match parse_elements(r1, level + 1) {
                            Err(e2) => {
                                proof {
                                    lemma_assemble_fuel(
                                        r1@,
                                        level as int + 1,
                                        cur.len(),
                                        r1@.len() + 1,
                                    );
                                }
                                return Err(e2);
                            },
                            Ok((r2, kids)) => {
                                el.set_child(kids);
                                proof {
                                    lemma_assemble_fuel(
                                        r1@,
                                        level as int + 1,
                                        cur.len(),
                                        r1@.len() + 1,
                                    );
                                    lemma_assemble_fuel(
                                        r2@,
                                        level as int,
                                        cur.len(),
                                        r2@.len() + 1,
                                    );
                                    lemma_with_prefix_concat(
                                        output@,
                                        seq![el@],
                                        assemble(r2@, level as int, r2@.len() + 1),
                                    );
                                    assert(output@.push(el@) =~= output@ + seq![el@]);
                                }
                                output.push(el);
                                next_input = r2;
                                floor = level;
                            },
                        }
                    },
                }
            },
            Tag::UnordereList(_) => {
                proof {
                    assert(false);
                }
                return Err(next_input);
            },
        }
    }
}

/// The whole document, as a mathematical function. A depth-1 heading at the
/// very start is taken alone; one paragraph directly after it becomes its
/// root-level sibling (the preamble) instead of opening the heading's
/// scope; the assembler with floor 1 takes everything else.
pub open spec fn doc(s: Seq<char>) -> Parsed {
    if classify(s) == Tag::Heading(1usize) {
        let r1 = s.skip(block_end(s) as int);
        let h = heading_node(s);
        if classify(r1) == Tag::Paragraph {
            if para_fits(r1) {
                let p = para_node(r1);
                let r2 = r1.skip(block_end(r1) as int);
                match assemble(r2, 1, r2.len() + 1) {
                    Parsed::Done { rest, nodes } => Parsed::Done {
                        rest,
                        nodes: seq![h, p] + nodes,
                    },
                    other => other,
                }
            } else {
                Parsed::Stuck { rest: r1 }
            }
        } else {
            match assemble(r1, 1, r1.len() + 1) {
                Parsed::Done { rest, nodes } => Parsed::Done { rest, nodes: seq![h] + nodes },
                other => other,
            }
        }
    } else {
        assemble(s, 1, s.len() + 1)
    }
}

/// Parses a whole document into a tree of blocks, leaving unconsumed
/// whatever trails the last block the assembler accepts. Returns `Err` at
/// the position of a line no block grammar accepts.
pub fn parse<'a>(input: &'a str) -> (r: Result<(&'a str, Tree), &'a str>)
    ensures
        (match r {
            Ok((rest, tree)) => doc(input@) == (Parsed::Done { rest: rest@, nodes: tree@ }),
            Err(rest) => doc(input@) == (Parsed::Stuck { rest: rest@ }),
        }),
{
    let first = Tag::next(input);
    if let Tag::Heading(1) = first {
        proof {
            lemma_classify_heading_fits(input@);
        }
        match head(input) {
            Err(e) => {
                proof {
                    assert(false);
                }
                Err(e)
            },
            Ok((r1, h1)) => {
                if let Tag::Paragraph = Tag::next(r1) {
                    match paragraph_element(r1) {
                        Err(e) => Err(e),
                        Ok((r2, p)) => {
                            match parse_elements(r2, 1) {
                                Err(e2) => Err(e2),
                                Ok((rest, content)) => {
                                    let mut tree = Tree::new();
                                    tree.push(h1);
                                    tree.push(p);
                                    tree.extend(content);
                                    proof {
                                        assert(tree@ =~= seq![heading_node(input@), para_node(r1@)]
                                            + content@);
                                    }
                                    Ok((rest, tree))
                                },
                            }
                        },
                    }
                } else {
                    match parse_elements(r1, 1) {
                        Err(e2) => Err(e2),
                        Ok((rest, content)) => {
                            let mut tree = Tree::new();
                            tree.push(h1);
                            tree.extend(content);
                            proof {
                                assert(tree@ =~= seq![heading_node(input@)] + content@);
                            }
                            Ok((rest, tree))
                        },
                    }
                }
            },
        }
    } else {
        parse_elements(input, 1)
    }
}

/// Classifying a position and then running the parser the class selects
/// succeeds, with the same heading depth: the classifier and the grammar
/// never disagree. The one position neither grammar accepts — a remaining
/// line that begins with whitespace — the classifier calls a paragraph; the
/// assembler reports such a position instead of parsing it.
pub proof fn lemma_classifier_grammar_agree(s: Seq<char>)
    ensures
        classify(s) is Heading ==> heading_fits(s) && sigil_run(s) == heading_depth(s),
        (classify(s) is Paragraph && !is_ws(s[0])) ==> para_fits(s),
{
    if classify(s) is Heading {
        lemma_classify_heading_fits(s);
    }
}

/// Empty input parses to the empty tree, with nothing left over.
pub proof fn lemma_parse_empty()
    ensures
        doc(Seq::<char>::empty()) == (Parsed::Done {
            rest: Seq::<char>::empty(),
            nodes: Seq::<Node>::empty(),
        }),
{
}

/// Preamble law: when the document opens with a depth-1 heading and a
/// paragraph follows it directly, the parse puts that paragraph beside the
/// heading at root level — the heading keeps no children from it.
pub proof fn lemma_preamble(s: Seq<char>)
    requires
        classify(s) == Tag::Heading(1usize),
        classify(s.skip(block_end(s) as int)) is Paragraph,
        para_fits(s.skip(block_end(s) as int)),
    ensures
        doc(s) matches Parsed::Done { nodes, .. } ==> {
            &&& nodes.len() >= 2
            &&& nodes[0] == heading_node(s)
            &&& nodes[0].children == Seq::<Node>::empty()
            &&& nodes[1] == para_node(s.skip(block_end(s) as int))
        },
{
    let r1 = s.skip(block_end(s) as int);
    if doc(s) is Done {
        let h = heading_node(s);
        let p = para_node(r1);
        match assemble(r1.skip(block_end(r1) as int), 1, r1.skip(block_end(r1) as int).len() + 1) {
            Parsed::Done { rest, nodes } => {
                assert((seq![h, p] + nodes)[0] == h);
                assert((seq![h, p] + nodes)[1] == p);
            },
            _ => {},
        }
    }
}

/// Nesting law: a heading directly followed by a deeper heading takes that
/// deeper heading as its first child; a heading no deeper than the floor
/// ends the scope instead (see the floor test in [`assemble`]).
pub proof fn lemma_deeper_heading_nests(s: Seq<char>, floor: int)
    requires
        classify(s) is Heading,
        floor <= heading_depth(s),
        heading_depth(s) < heading_depth(s.skip(block_end(s) as int)),
        s.len() <= usize::MAX,
    ensures
        assemble(s, floor, s.len() + 1) matches Parsed::Done { nodes, .. } ==> {
            &&& nodes.len() >= 1
            &&& nodes[0].tag == Tag::Heading(heading_depth(s) as usize)
            &&& nodes[0].children.len() >= 1
            &&& nodes[0].children[0].tag == Tag::Heading(
                heading_depth(s.skip(block_end(s) as int)) as usize,
            )
            &&& nodes[0].children[0].text == heading_node(s.skip(block_end(s) as int)).text
        },
{
    let l = heading_depth(s);
    lemma_classify_heading_fits(s);
    lemma_heading_bounds(s);
    let t = s.skip(block_end(s) as int);
    let l2 = heading_depth(t);
    assert(classify(t) is Heading);
    lemma_classify_heading_fits(t);
    lemma_heading_bounds(t);
    let t2 = t.skip(block_end(t) as int);
    lemma_assemble_fuel(t, l as int + 1, s.len(), t.len() + 1);
    lemma_assemble_fuel(t2, l2 as int + 1, t.len(), t2.len() + 1);
    match assemble(t2, l2 as int + 1, t2.len() + 1) {
        Parsed::Done { rest: u, nodes: kids2 } => {
            lemma_assemble_fuel(u, l2 as int, t.len(), u.len() + 1);
            match assemble(u, l2 as int, u.len() + 1) {
                Parsed::Done { rest: u2, nodes: sibs2 } => {
                    let node2 = Node { children: kids2, ..heading_node(t) };
                    assert((seq![node2] + sibs2)[0] == node2);
                    match assemble(u2, l as int, s.len()) {
                        Parsed::Done { rest: u3, nodes: sibs } => {
                            let node = Node {
                                children: seq![node2] + sibs2,
                                ..heading_node(s)
                            };
                            assert((seq![node] + sibs)[0] == node);
                        },
                        _ => {},
                    }
                },
                _ => {},
            }
        },
        _ => {},
    }
}

/// Verbatim text law: a paragraph's stored text is the input's first line,
/// exactly — every character up to the line's terminator, none altered and
/// none trimmed.
pub proof fn lemma_paragraph_text_verbatim(s: Seq<char>)
    ensures
        para_node(s).text == s.take(line_text_len(s) as int),
        para_node(s).text.len() == line_text_len(s),
        forall|j: int| 0 <= j < line_text_len(s) ==> para_node(s).text[j] == s[j],
{
    lemma_line_run_bound(s);
    assert(s.subrange(0, line_text_len(s) as int) =~= s.take(line_text_len(s) as int));
}

/// Every tree the assembler builds satisfies the tree invariants: heading
/// depths at least 1, childless paragraphs, no end-of-input marker.
pub proof fn lemma_assemble_wf(s: Seq<char>, floor: int, fuel: nat)
    requires
        fuel > s.len(),
        s.len() <= usize::MAX,
    ensures
        assemble(s, floor, fuel) matches Parsed::Done { nodes, .. } ==> wf_nodes(nodes),
    decreases s.len(),
{
    match classify(s) {
        Tag::EOF => {},
        Tag::Paragraph => {
            if para_fits(s) {
                lemma_para_bounds(s);
                let r = s.skip(block_end(s) as int);
                lemma_assemble_wf(r, floor, (fuel - 1) as nat);
                match assemble(r, floor, (fuel - 1) as nat) {
                    Parsed::Done { rest, nodes } => {
                        crate::tree::lemma_wf_nodes_cons(para_node(s), nodes);
                    },
                    _ => {},
                }
            }
        },
        Tag::Heading(level) => {
            if floor <= level as int {
                lemma_classify_heading_fits(s);
                lemma_heading_bounds(s);
                let r1 = s.skip(block_end(s) as int);
                lemma_assemble_wf(r1, level as int + 1, (fuel - 1) as nat);
                lemma_assemble_fuel(r1, level as int + 1, (fuel - 1) as nat, r1.len() + 1);
                match assemble(r1, level as int + 1, (fuel - 1) as nat) {
                    Parsed::Done { rest: r2, nodes: kids } => {
                        let node = Node { children: kids, ..heading_node(s) };
                        lemma_assemble_wf(r2, level as int, (fuel - 1) as nat);
                        match assemble(r2, level as int, (fuel - 1) as nat) {
                            Parsed::Done { rest: r3, nodes: sibs } => {
                                assert(level >= 1);
                                assert(wf_node(node));
                                crate::tree::lemma_wf_nodes_cons(node, sibs);
                            },
                            _ => {},
                        }
                    },
                    _ => {},
                }
            }
        },
        Tag::UnordereList(_) => {},
    }
}

/// Every tree a whole-document parse returns satisfies the tree invariants,
/// so it can always be rendered.
pub proof fn lemma_doc_wf(s: Seq<char>)
    requires
        s.len() <= usize::MAX,
    ensures
        doc(s) matches Parsed::Done { nodes, .. } ==> wf_nodes(nodes),
{
    if classify(s) == Tag::Heading(1usize) {
        lemma_classify_heading_fits(s);
        lemma_heading_bounds(s);
        let r1 = s.skip(block_end(s) as int);
        let h = heading_node(s);
        assert(wf_node(h));
        if classify(r1) == Tag::Paragraph && para_fits(r1) {
            lemma_para_bounds(r1);
            let p = para_node(r1);
            let r2 = r1.skip(block_end(r1) as int);
            lemma_assemble_wf(r2, 1, r2.len() + 1);
            match assemble(r2, 1, r2.len() + 1) {
                Parsed::Done { rest, nodes } => {
                    crate::tree::lemma_wf_nodes_cons(p, nodes);
                    crate::tree::lemma_wf_nodes_cons(h, seq![p] + nodes);
                    assert(seq![h, p] + nodes =~= seq![h] + (seq![p] + nodes));
                },
                _ => {},
            }
        } else {
            lemma_assemble_wf(r1, 1, r1.len() + 1);
            match assemble(r1, 1, r1.len() + 1) {
                Parsed::Done { rest, nodes } => {
                    crate::tree::lemma_wf_nodes_cons(h, nodes);
                },
                _ => {},
            }
        }
    } else {
        lemma_assemble_wf(s, 1, s.len() + 1);
    }
}

/// The shape of the first block of `line + b + rest`, for one run of line
/// feeds `b`: its classification and its node are functions of `line`
/// alone, and the block consumes exactly the line and the run.
proof fn lemma_first_block_shape(line: Seq<char>, b: Seq<char>, rest: Seq<char>)
    requires
        line.len() >= 1,
        !is_ws(line[0]),
        forall|j: int| 0 <= j < line.len() ==> line[j] != '\n',
        b.len() >= 1,
        forall|j: int| 0 <= j < b.len() ==> b[j] == '\n',
        nl_token(rest) == 0,
    ensures
        ({
            let s = line + b + rest;
            let n = sigil_run(line);
            let lt: int = if line[line.len() - 1] == '\r' {
                line.len() - 1
            } else {
                line.len() as int
            };
            &&& sigil_run(s) == n
            &&& line_run(s) == line.len()
            &&& line_text_len(s) == lt
            &&& classify(s) == (if 1 <= n && n < lt && is_ws(line[n as int]) {
                Tag::Heading(n as usize)
            } else {
                Tag::Paragraph
            })
            &&& block_end(s) == line.len() + b.len()
            &&& s.skip(block_end(s) as int) == rest
            &&& (classify(s) is Paragraph ==> para_fits(s) && para_node(s) == (Node {
                tag: Tag::Paragraph,
                text: line.subrange(0, lt),
                children: Seq::empty(),
            }))
            &&& (classify(s) is Heading ==> heading_node(s) == (Node {
                tag: Tag::Heading(n as usize),
                text: line.subrange(
                    (n + ws_run(line.subrange(0, lt).skip(n as int))) as int,
                    lt,
                ),
                children: Seq::empty(),
            }))
        }),
{
    let s = line + b + rest;
    let t = b + rest;
    assert(s =~= line + t);
    assert(t[0] == b[0]);
    lemma_sigil_run_concat(line, t);
    lemma_sigil_run_bound(line);
    let n = sigil_run(line);
    lemma_blank_run_concat_lf(b, rest);
    assert(blank_run(rest) == 0);
    assert(blank_run(t) == b.len());
    // the line, its text, and what the block consumes
    assert forall|j: int| 0 <= j < line.len() implies s[j] == line[j] by {}
    assert(s[line.len() as int] == t[0]);
    lemma_line_run_is(s, line.len() as int);
    let lt: int = if line[line.len() - 1] == '\r' {
        line.len() - 1
    } else {
        line.len() as int
    };
    assert(line_text_len(s) == lt);
    assert(s.skip(line.len() as int) =~= t);
    assert(block_end(s) == line.len() + b.len());
    assert(s.skip(block_end(s) as int) =~= rest);
    // the classification looks no further than the line
    lemma_sigil_run_chars(line);
    lemma_sep_ws_is_line_ws(s, n as int);
    if classify(s) is Paragraph {
        assert(para_node(s).text =~= line.subrange(0, lt));
    }
    if classify(s) is Heading {
        lemma_classify_heading_fits(s);
        lemma_heading_bounds(s);
        assert(line_text(s) =~= line.subrange(0, lt));
        let ts = heading_text_start(s) as int;
        assert(ts == n + ws_run(line.subrange(0, lt).skip(n as int)));
        assert(heading_node(s).text =~= line.subrange(ts, lt));
    }
}

/// The shared conditions of [`blank_variants`]: `c` ends inside a line, the
/// two runs are non-empty runs of line feeds, and the rest extends neither.
pub open spec fn blank_variant_parts(
    c: Seq<char>,
    b1: Seq<char>,
    b2: Seq<char>,
    rest: Seq<char>,
) -> bool {
    &&& c.len() >= 1
    &&& c[c.len() - 1] != '\n'
    &&& c[c.len() - 1] != '\r'
    &&& b1.len() >= 1
    &&& (forall|j: int| 0 <= j < b1.len() ==> b1[j] == '\n')
    &&& b2.len() >= 1
    &&& (forall|j: int| 0 <= j < b2.len() ==> b2[j] == '\n')
    &&& nl_token(rest) == 0
}

/// Two inputs equal but for the length of one run of blank lines standing
/// somewhere after a line.
pub open spec fn blank_variants(s1: Seq<char>, s2: Seq<char>) -> bool {
    exists|c: Seq<char>, b1: Seq<char>, b2: Seq<char>, rest: Seq<char>|
        #![trigger c + b1 + rest, c + b2 + rest]
        {
            &&& blank_variant_parts(c, b1, b2, rest)
            &&& s1 == c + b1 + rest
            &&& s2 == c + b2 + rest
        }
}

proof fn lemma_blank_variants_intro(c: Seq<char>, b1: Seq<char>, b2: Seq<char>, rest: Seq<char>)
    requires
        blank_variant_parts(c, b1, b2, rest),
    ensures
        blank_variants(c + b1 + rest, c + b2 + rest),
{
}

/// The first block of two inputs that differ only in one interior blank run
/// is classified alike and produces the same node; what follows it is the
/// same input, or two inputs still differing only in that run.
proof fn lemma_first_block_collapse(c: Seq<char>, b1: Seq<char>, b2: Seq<char>, rest: Seq<char>)
    requires
        blank_variant_parts(c, b1, b2, rest),
    ensures
        ({
            let s1 = c + b1 + rest;
            let s2 = c + b2 + rest;
            let t1 = s1.skip(block_end(s1) as int);
            let t2 = s2.skip(block_end(s2) as int);
            &&& classify(s1) == classify(s2)
            &&& !(classify(s1) is EOF)
            &&& para_fits(s1) == para_fits(s2)
            &&& (para_fits(s1) ==> para_node(s1) == para_node(s2))
            &&& (classify(s1) is Heading ==> heading_node(s1) == heading_node(s2))
            &&& ((para_fits(s1) || classify(s1) is Heading) ==> {
                &&& 1 <= block_end(s1) <= s1.len()
                &&& 1 <= block_end(s2) <= s2.len()
                &&& (t1 == t2 || blank_variants(t1, t2))
            })
        }),
{
    let s1 = c + b1 + rest;
    let s2 = c + b2 + rest;
    let u1 = b1 + rest;
    let u2 = b2 + rest;
    assert(s1 =~= c + u1);
    assert(s2 =~= c + u2);
    assert(u1[0] == b1[0] && u2[0] == b2[0]);
    // the classifier reads the sigil run and the two characters after it,
    // all of which lie inside `c` or are the run's first line feed
    lemma_sigil_run_concat(c, u1);
    lemma_sigil_run_concat(c, u2);
    lemma_sigil_run_bound(c);
    lemma_sigil_run_chars(c);
    let n = sigil_run(c) as int;
    assert forall|j: int| 0 <= j < c.len() implies s1[j] == c[j] && s2[j] == c[j] by {}
    if n < c.len() {
        if n + 1 < c.len() {
        } else if n + 1 == c.len() {
            assert(s1[n + 1] == b1[0] && s2[n + 1] == b2[0]);
        }
    } else {
        assert(s1[n] == b1[0] && s2[n] == b2[0]);
    }
    assert(sep_ws_at(s1, n) == sep_ws_at(s2, n));
    assert(classify(s1) == classify(s2));
    assert(s1[0] == c[0] && s2[0] == c[0]);
    let j = line_run(c) as int;
    lemma_line_run_bound(c);
    lemma_line_run_chars(c);
    if j < c.len() {
        // the block's whole line ends inside `c`
        lemma_line_run_concat_stop(c, u1);
        lemma_line_run_concat_stop(c, u2);
        assert(line_run(s1) == j && line_run(s2) == j);
        if j >= 1 {
            assert(s1[j - 1] == c[j - 1] && s2[j - 1] == c[j - 1]);
        }
        assert(line_text_len(s1) == line_text_len(s2));
        let lt = line_text_len(s1) as int;
        assert(line_text(s1) =~= line_text(s2));
        if para_fits(s1) {
            assert(para_node(s1).text =~= para_node(s2).text);
        }
        if classify(s1) is Heading {
            lemma_classify_heading_fits(s1);
            lemma_classify_heading_fits(s2);
            lemma_heading_bounds(s1);
            lemma_heading_bounds(s2);
            assert(heading_text_start(s1) == heading_text_start(s2));
            assert(heading_node(s1).text =~= heading_node(s2).text);
        }
        // the trailing blank run also ends inside `c`
        let cj = c.skip(j);
        assert(cj[cj.len() - 1] == c[c.len() - 1]);
        assert(s1.skip(j) =~= cj + u1);
        assert(s2.skip(j) =~= cj + u2);
        lemma_blank_run_concat_stop(cj, u1);
        lemma_blank_run_concat_stop(cj, u2);
        let bl = blank_run(cj) as int;
        assert(block_end(s1) == j + bl && block_end(s2) == j + bl);
        if para_fits(s1) || classify(s1) is Heading {
            assert(j >= 1) by {
                if para_fits(s1) {
                    assert(c[0] != '\n');
                } else {
                    lemma_classify_heading_fits(s1);
                    assert(c[0] == '=');
                }
            }
            let c2 = c.skip(j + bl);
            assert(c2[c2.len() - 1] == c[c.len() - 1]);
            assert(s1.skip(j + bl) =~= c2 + b1 + rest);
            assert(s2.skip(j + bl) =~= c2 + b2 + rest);
            lemma_blank_variants_intro(c2, b1, b2, rest);
        }
    } else {
        // `c` is a single line: the block straddles into the run itself
        if para_fits(s1) || classify(s1) is Heading {
            assert(!is_ws(c[0])) by {
                if classify(s1) is Heading {
                    lemma_classify_heading_fits(s1);
                    assert(c[0] == '=');
                }
            }
            lemma_first_block_shape(c, b1, rest);
            lemma_first_block_shape(c, b2, rest);
            assert(line_text_len(s1) == line_text_len(s2));
            assert(line_text(s1) =~= line_text(s2));
        }
    }
}

/// Collapsing law, at any block boundary: two inputs that differ only in
/// the length of one run of blank lines between two blocks assemble to the
/// same blocks. What is left over is the same input, or the same up to that
/// run when the assembler returns before consuming it.
pub proof fn lemma_blank_lines_collapse_anywhere(s1: Seq<char>, s2: Seq<char>, floor: int)
    requires
        blank_variants(s1, s2),
    ensures
        ({
            let r1 = assemble(s1, floor, s1.len() + 1);
            let r2 = assemble(s2, floor, s2.len() + 1);
            &&& (r1 is Done <==> r2 is Done)
            &&& (r1 is Stuck <==> r2 is Stuck)
            &&& (r1 matches Parsed::Done { nodes: n1, rest: t1 } ==> (r2 matches Parsed::Done {
                nodes: n2,
                rest: t2,
            } ==> n1 == n2 && (t1 == t2 || blank_variants(t1, t2))))
        }),
    decreases s1.len(),
{
    let (c, b1, b2, rest) = choose|c: Seq<char>, b1: Seq<char>, b2: Seq<char>, rest: Seq<char>|
        #![trigger c + b1 + rest, c + b2 + rest]
        {
            &&& blank_variant_parts(c, b1, b2, rest)
            &&& s1 == c + b1 + rest
            &&& s2 == c + b2 + rest
        };
    lemma_first_block_collapse(c, b1, b2, rest);
    let t1 = s1.skip(block_end(s1) as int);
    let t2 = s2.skip(block_end(s2) as int);
    match classify(s1) {
        Tag::EOF => {},
        Tag::Paragraph => {
            if para_fits(s1) {
                lemma_assemble_fuel(t1, floor, s1.len(), t1.len() + 1);
                lemma_assemble_fuel(t2, floor, s2.len(), t2.len() + 1);
                if t1 != t2 {
                    lemma_blank_lines_collapse_anywhere(t1, t2, floor);
                }
            }
        },
        Tag::Heading(level) => {
            if floor <= level as int {
                lemma_assemble_fuel(t1, level as int + 1, s1.len(), t1.len() + 1);
                lemma_assemble_fuel(t2, level as int + 1, s2.len(), t2.len() + 1);
                if t1 != t2 {
                    lemma_blank_lines_collapse_anywhere(t1, t2, level as int + 1);
                }
                match assemble(t1, level as int + 1, t1.len() + 1) {
                    Parsed::Done { rest: r2a, nodes: kidsa } => {
                        match assemble(t2, level as int + 1, t2.len() + 1) {
                            Parsed::Done { rest: r2b, nodes: kidsb } => {
                                lemma_assemble_fuel(r2a, level as int, s1.len(), r2a.len() + 1);
                                lemma_assemble_fuel(r2b, level as int, s2.len(), r2b.len() + 1);
                                if r2a != r2b {
                                    lemma_blank_lines_collapse_anywhere(r2a, r2b, level as int);
                                }
                            },
                            _ => {},
                        }
                    },
                    _ => {},
                }
            }
        },
        Tag::UnordereList(_) => {},
    }
}

/// Collapsing law at the document level, at any boundary: when both parses
/// succeed, the trees are identical.
pub proof fn lemma_blank_lines_collapse_doc_anywhere(s1: Seq<char>, s2: Seq<char>)
    requires
        blank_variants(s1, s2),
    ensures
        ({
            let r1 = doc(s1);
            let r2 = doc(s2);
            &&& (r1 is Done <==> r2 is Done)
            &&& (r1 matches Parsed::Done { nodes: n1, .. } ==> (r2 matches Parsed::Done {
                nodes: n2,
                ..
            } ==> n1 == n2))
        }),
{
    let (c, b1, b2, rest) = choose|c: Seq<char>, b1: Seq<char>, b2: Seq<char>, rest: Seq<char>|
        #![trigger c + b1 + rest, c + b2 + rest]
        {
            &&& blank_variant_parts(c, b1, b2, rest)
            &&& s1 == c + b1 + rest
            &&& s2 == c + b2 + rest
        };
    lemma_first_block_collapse(c, b1, b2, rest);
    if classify(s1) == Tag::Heading(1usize) {
        lemma_classify_heading_fits(s1);
        lemma_classify_heading_fits(s2);
        let t1 = s1.skip(block_end(s1) as int);
        let t2 = s2.skip(block_end(s2) as int);
        if t1 == t2 {
        } else {
            let (c2, d1, d2, rest2) = choose|
                c2: Seq<char>,
                d1: Seq<char>,
                d2: Seq<char>,
                rest2: Seq<char>,
            |
                #![trigger c2 + d1 + rest2, c2 + d2 + rest2]
                {
                    &&& blank_variant_parts(c2, d1, d2, rest2)
                    &&& t1 == c2 + d1 + rest2
                    &&& t2 == c2 + d2 + rest2
                };
            lemma_first_block_collapse(c2, d1, d2, rest2);
            if classify(t1) == Tag::Paragraph && para_fits(t1) {
                let v1 = t1.skip(block_end(t1) as int);
                let v2 = t2.skip(block_end(t2) as int);
                if v1 != v2 {
                    lemma_blank_lines_collapse_anywhere(v1, v2, 1);
                }
            } else if classify(t1) is Paragraph {
            } else {
                lemma_blank_lines_collapse_anywhere(t1, t2, 1);
            }
        }
    } else {
        lemma_blank_lines_collapse_anywhere(s1, s2, 1);
    }
}

} // verus!
