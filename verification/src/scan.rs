//! Character-level scanning: the whitespace predicate, maximal runs of
//! whitespace and of line content, and runs of line endings (`\n` or
//! `\r\n`).

use vstd::prelude::*;

verus! {

/// The Unicode `White_Space` characters, the set that `char::is_whitespace`
/// recognises.
pub open spec fn is_ws(c: char) -> bool {
    ||| c == ' '
    ||| c == '\u{9}'
    ||| c == '\n'
    ||| c == '\u{b}'
    ||| c == '\u{c}'
    ||| c == '\r'
    ||| c == '\u{85}'
    ||| c == '\u{a0}'
    ||| c == '\u{1680}'
    ||| c == '\u{2000}'
    ||| c == '\u{2001}'
    ||| c == '\u{2002}'
    ||| c == '\u{2003}'
    ||| c == '\u{2004}'
    ||| c == '\u{2005}'
    ||| c == '\u{2006}'
    ||| c == '\u{2007}'
    ||| c == '\u{2008}'
    ||| c == '\u{2009}'
    ||| c == '\u{200a}'
    ||| c == '\u{2028}'
    ||| c == '\u{2029}'
    ||| c == '\u{202f}'
    ||| c == '\u{205f}'
    ||| c == '\u{3000}'
}

/// Decides [`is_ws`].
pub fn ws_char(c: char) -> (r: bool)
    ensures
        r == is_ws(c),
{
    match c {
        ' ' | '\u{9}' | '\n' | '\u{b}' | '\u{c}' | '\r' | '\u{85}' | '\u{a0}' | '\u{1680}'
        | '\u{2000}' | '\u{2001}' | '\u{2002}' | '\u{2003}' | '\u{2004}' | '\u{2005}'
        | '\u{2006}' | '\u{2007}' | '\u{2008}' | '\u{2009}' | '\u{200a}' | '\u{2028}'
        | '\u{2029}' | '\u{202f}' | '\u{205f}' | '\u{3000}' => true,
        _ => false,
    }
}

/// Length of the maximal prefix of `s` made of whitespace characters.
pub open spec fn ws_run(s: Seq<char>) -> nat
    decreases s.len(),
{
    if s.len() > 0 && is_ws(s[0]) {
        1 + ws_run(s.skip(1))
    } else {
        0
    }
}

pub proof fn lemma_ws_run_bound(s: Seq<char>)
    ensures
        ws_run(s) <= s.len(),
    decreases s.len(),
{
    if s.len() > 0 && is_ws(s[0]) {
        lemma_ws_run_bound(s.skip(1));
    }
}

/// `ws_run` equals the first index whose character is not whitespace (or the
/// length, when all of `s` is whitespace).
pub proof fn lemma_ws_run_is(s: Seq<char>, i: int)
    requires
        0 <= i <= s.len(),
        forall|j: int| 0 <= j < i ==> is_ws(s[j]),
        i < s.len() ==> !is_ws(s[i]),
    ensures
        ws_run(s) == i,
    decreases i,
{
    if i > 0 {
        let t = s.skip(1);
        assert forall|j: int| 0 <= j < i - 1 implies is_ws(t[j]) by {
            assert(t[j] == s[j + 1]);
        }
        if i - 1 < t.len() {
            assert(t[i - 1] == s[i]);
        }
        lemma_ws_run_is(t, i - 1);
    }
}

/// Length of the maximal prefix of `s` free of line feeds: the current line.
pub open spec fn line_run(s: Seq<char>) -> nat
    decreases s.len(),
{
    if s.len() > 0 && s[0] != '\n' {
        1 + line_run(s.skip(1))
    } else {
        0
    }
}

pub proof fn lemma_line_run_bound(s: Seq<char>)
    ensures
        line_run(s) <= s.len(),
    decreases s.len(),
{
    if s.len() > 0 && s[0] != '\n' {
        lemma_line_run_bound(s.skip(1));
    }
}

/// `line_run` equals the index of the first line feed (or the length, when
/// no line feed remains).
pub proof fn lemma_line_run_is(s: Seq<char>, i: int)
    requires
        0 <= i <= s.len(),
        forall|j: int| 0 <= j < i ==> s[j] != '\n',
        i < s.len() ==> s[i] == '\n',
    ensures
        line_run(s) == i,
    decreases i,
{
    if i > 0 {
        let t = s.skip(1);
        assert forall|j: int| 0 <= j < i - 1 implies t[j] != '\n' by {
            assert(t[j] == s[j + 1]);
        }
        if i - 1 < t.len() {
            assert(t[i - 1] == s[i]);
        }
        lemma_line_run_is(t, i - 1);
    }
}

/// Every character before the line's end is no line feed; the character at
/// the end, when one exists, is one.
pub proof fn lemma_line_run_chars(s: Seq<char>)
    ensures
        forall|j: int| 0 <= j < line_run(s) ==> s[j] != '\n',
        line_run(s) < s.len() ==> s[line_run(s) as int] == '\n',
    decreases s.len(),
{
    lemma_line_run_bound(s);
    if s.len() > 0 && s[0] != '\n' {
        let t = s.skip(1);
        lemma_line_run_chars(t);
        lemma_line_run_bound(t);
        assert forall|j: int| 0 <= j < line_run(s) implies s[j] != '\n' by {
            if j > 0 {
                assert(t[j - 1] == s[j]);
            }
        }
        if line_run(s) < s.len() {
            assert(t[line_run(t) as int] == s[line_run(s) as int]);
        }
    }
}

/// How many characters of the current line belong to its text: the line up
/// to the first line feed, less the carriage return of a `\r\n` ending —
/// that carriage return is part of the line's terminator, not of its text.
pub open spec fn line_text_len(s: Seq<char>) -> nat {
    if line_run(s) < s.len() && line_run(s) >= 1 && s[line_run(s) - 1] == '\r' {
        (line_run(s) - 1) as nat
    } else {
        line_run(s)
    }
}

/// The text of the current line; see [`line_text_len`].
pub open spec fn line_text(s: Seq<char>) -> Seq<char> {
    s.subrange(0, line_text_len(s) as int)
}

/// The character at `i` can separate a heading's sigil run from its text:
/// whitespace that does not begin the line's own ending.
pub open spec fn sep_ws_at(s: Seq<char>, i: int) -> bool {
    &&& 0 <= i < s.len()
    &&& is_ws(s[i])
    &&& s[i] != '\n'
    &&& !(s[i] == '\r' && i + 1 < s.len() && s[i + 1] == '\n')
}

/// When nothing before `i` ends the line, the separator characters are
/// exactly the whitespace inside the line's text.
pub proof fn lemma_sep_ws_is_line_ws(s: Seq<char>, i: int)
    requires
        0 <= i < s.len(),
        forall|j: int| 0 <= j < i ==> s[j] != '\n',
    ensures
        sep_ws_at(s, i) <==> (i < line_text_len(s) && is_ws(s[i])),
{
    lemma_line_run_chars(s);
    lemma_line_run_bound(s);
    if sep_ws_at(s, i) {
        assert(line_run(s) > i) by {
            if line_run(s) <= i {
                assert(s[line_run(s) as int] == '\n');
            }
        }
        if line_text_len(s) < line_run(s) {
            assert(s[line_run(s) - 1] == '\r');
            if i == line_run(s) - 1 {
                assert(s[i + 1] == '\n');
                assert(false);
            }
        }
    }
    if i < line_text_len(s) && is_ws(s[i]) {
        if s[i] == '\r' && i + 1 < s.len() && s[i + 1] == '\n' {
            lemma_line_run_is(s, i + 1);
            assert(line_text_len(s) == i);
            assert(false);
        }
    }
}

/// A line that stops inside `x` is unchanged by appending `y`.
pub proof fn lemma_line_run_concat_stop(x: Seq<char>, y: Seq<char>)
    requires
        line_run(x) < x.len(),
    ensures
        line_run(x + y) == line_run(x),
    decreases x.len(),
{
    if x[0] != '\n' {
        assert((x + y).skip(1) =~= x.skip(1) + y);
        lemma_line_run_concat_stop(x.skip(1), y);
    } else {
        assert((x + y)[0] == x[0]);
    }
}

/// A blank run behind a last character that starts no line ending stops
/// inside `x` and is unchanged by appending `y`.
pub proof fn lemma_blank_run_concat_stop(x: Seq<char>, y: Seq<char>)
    requires
        x.len() >= 1,
        x[x.len() - 1] != '\n',
        x[x.len() - 1] != '\r',
    ensures
        blank_run(x + y) == blank_run(x),
        blank_run(x) < x.len(),
    decreases x.len(),
{
    let k = nl_token(x) as int;
    if k > 0 {
        assert(x[k - 1] == '\n');
        assert(k < x.len());
        let t = x.skip(k);
        assert(t[t.len() - 1] == x[x.len() - 1]);
        assert((x + y).skip(k) =~= t + y);
        if k == 1 {
            assert(nl_token(x + y) == 1);
        } else {
            assert((x + y)[0] == x[0]);
            assert((x + y)[1] == x[1]);
            assert(nl_token(x + y) == 2);
        }
        lemma_blank_run_concat_stop(t, y);
    } else {
        assert(x[0] != '\n');
        assert((x + y)[0] == x[0]);
        if x.len() >= 2 {
            assert((x + y)[1] == x[1]);
        } else {
            assert(x[0] != '\r');
        }
        assert(nl_token(x + y) == 0);
    }
}

/// A run of line feeds extends the blank run by exactly its own length.
pub proof fn lemma_blank_run_concat_lf(x: Seq<char>, y: Seq<char>)
    requires
        forall|j: int| 0 <= j < x.len() ==> x[j] == '\n',
    ensures
        blank_run(x + y) == x.len() + blank_run(y),
    decreases x.len(),
{
    if x.len() == 0 {
        assert(x + y =~= y);
    } else {
        assert((x + y)[0] == '\n');
        assert(nl_token(x + y) == 1);
        let t = x.skip(1);
        assert forall|j: int| 0 <= j < t.len() implies t[j] == '\n' by {
            assert(t[j] == x[j + 1]);
        }
        assert((x + y).skip(1) =~= t + y);
        lemma_blank_run_concat_lf(t, y);
    }
}

/// Number of characters taken by a line-ending token at the head of `s`:
/// 1 for `\n`, 2 for `\r\n`, 0 when `s` starts with neither.
pub open spec fn nl_token(s: Seq<char>) -> nat {
    if s.len() >= 1 && s[0] == '\n' {
        1
    } else if s.len() >= 2 && s[0] == '\r' && s[1] == '\n' {
        2
    } else {
        0
    }
}

/// Length of the maximal run of line-ending tokens at the head of `s`: the
/// blank lines that directly trail a block.
pub open spec fn blank_run(s: Seq<char>) -> nat
    decreases s.len(),
{
    if nl_token(s) > 0 {
        nl_token(s) + blank_run(s.skip(nl_token(s) as int))
    } else {
        0
    }
}

pub proof fn lemma_blank_run_bound(s: Seq<char>)
    ensures
        blank_run(s) <= s.len(),
    decreases s.len(),
{
    if nl_token(s) > 0 {
        lemma_blank_run_bound(s.skip(nl_token(s) as int));
    }
}

} // verus!
