//! The SSH client: how Butler quotes remote commands, which arguments it
//! hands to `ssh`, and how it reports a command or tunnel that failed.
//! Starting processes is left to the caller, which runs the invocations
//! built here.
use vstd::prelude::*;
use crate::connection::{contains_control_break, has_control_break};
use crate::ood::string_views;
use crate::config::{join_path, joined_path, verbatim, SshConfig};
use crate::models::opt_view;
use crate::ood::nonempty_words;
use vstd::slice::slice_to_vec;
use vstd::utf8::encode_utf8;
use crate::protocol::{lossy_text, lossy_utf8};
use crate::text::{
    char_is_ascii_alphanumeric, chars_of, contains, contains_chars, copy_range, decimal,
    decimal_chars, is_ascii_alphanumeric, lower_chars, lower_seq, push_all, split, split_chars,
    signed_decimal, signed_decimal_chars, string_of, text_then, views, CharClass,
};

verus! {

/// Characters that a POSIX shell takes literally outside quotes.
pub open spec fn is_shell_safe(c: char) -> bool {
    ||| is_ascii_alphanumeric(c)
    ||| c == '_'
    ||| c == '-'
    ||| c == '.'
    ||| c == '/'
    ||| c == ':'
    ||| c == '@'
    ||| c == '%'
    ||| c == '+'
    ||| c == '='
    ||| c == ','
}

fn char_is_shell_safe(c: char) -> (r: bool)
    ensures
        r == is_shell_safe(c),
{
    char_is_ascii_alphanumeric(c) || c == '_' || c == '-' || c == '.' || c == '/' || c == ':'
        || c == '@' || c == '%' || c == '+' || c == '=' || c == ','
}

pub open spec fn all_shell_safe(s: Seq<char>) -> bool {
    forall|i: int| 0 <= i < s.len() ==> is_shell_safe(#[trigger] s[i])
}

/// What a character becomes inside single quotes: itself, or, for a
/// single quote, a close, a double-quoted single quote and a reopen.
pub open spec fn quote_piece(c: char) -> Seq<char> {
    if c == '\'' {
        seq!['\'', '"', '\'', '"', '\'']
    } else {
        seq![c]
    }
}

/// `s` with each single quote escaped for a single-quoted context.
pub open spec fn quote_escaped(s: Seq<char>) -> Seq<char>
    decreases s.len(),
{
    if s.len() == 0 {
        Seq::empty()
    } else {
        quote_piece(s[0]) + quote_escaped(s.drop_first())
    }
}

/// How an argument is written into a remote command line: refused when it
/// holds `\0`, `\r` or `\n`; as it is when it is non-empty and made of
/// characters that need no quoting; otherwise single-quoted.
pub open spec fn shell_quoted(value: Seq<char>) -> Result<Seq<char>, Seq<char>> {
    if has_control_break(value) {
        Err("A remote command argument contains an unsupported control character"@)
    } else if value.len() > 0 && all_shell_safe(value) {
        Ok(value)
    } else {
        Ok(seq!['\''] + quote_escaped(value) + seq!['\''])
    }
}

pub proof fn lemma_quote_escaped_push(s: Seq<char>, c: char)
    ensures
        quote_escaped(s.push(c)) == quote_escaped(s) + quote_piece(c),
    decreases s.len(),
{
    if s.len() == 0 {
        let t = s.push(c);
        assert(t.drop_first() =~= Seq::<char>::empty());
        assert(quote_escaped(t.drop_first()) == Seq::<char>::empty());
        assert(t[0] == c);
        assert(quote_escaped(t) =~= quote_piece(c));
    } else {
        assert(s.push(c).drop_first() =~= s.drop_first().push(c));
        lemma_quote_escaped_push(s.drop_first(), c);
        assert(quote_escaped(s.push(c)) =~= quote_escaped(s) + quote_piece(c));
    }
}

fn all_safe(s: &[char]) -> (r: bool)
    ensures
        r == all_shell_safe(s@),
{
    let mut i: usize = 0;
    while i < s.len()
        invariant
            i <= s@.len(),
            forall|j: int| 0 <= j < i ==> is_shell_safe(#[trigger] s@[j]),
        decreases s@.len() - i,
    {
        if !char_is_shell_safe(s[i]) {
            return false;
        }
        i = i + 1;
    }
    true
}

/// Quotes one argument of a remote command for the remote shell.
pub fn shell_quote(value: &str) -> (r: Result<String, String>)
    ensures
        match shell_quoted(value@) {
            Ok(q) => r matches Ok(s) && s@ == q,
            Err(m) => r matches Err(e) && e@ == m,
        },
{
    let cs = chars_of(value);
    if contains_control_break(cs.as_slice()) {
        return Err("A remote command argument contains an unsupported control character".to_string());
    }
    if cs.len() > 0 && all_safe(cs.as_slice()) {
        return Ok(value.to_string());
    }
    let mut out: Vec<char> = Vec::new();
    out.push('\'');
    let mut i: usize = 0;
    while i < cs.len()
        invariant
            i <= cs@.len(),
            out@ == seq!['\''] + quote_escaped(cs@.take(i as int)),
        decreases cs@.len() - i,
    {
        let c = cs[i];
        proof {
            assert(cs@.take(i + 1) =~= cs@.take(i as int).push(c));
            lemma_quote_escaped_push(cs@.take(i as int), c);
        }
        if c == '\'' {
            out.push('\'');
            out.push('"');
            out.push('\'');
            out.push('"');
            out.push('\'');
        } else {
            out.push(c);
        }
        i = i + 1;
        assert(out@ =~= seq!['\''] + quote_escaped(cs@.take(i as int)));
    }
    out.push('\'');
    assert(cs@.take(i as int) =~= cs@);
    Ok(string_of(out.as_slice()))
}

/// The words joined by single spaces.
pub open spec fn spaced(words: Seq<Seq<char>>) -> Seq<char>
    decreases words.len(),
{
    if words.len() == 0 {
        Seq::empty()
    } else if words.len() == 1 {
        words[0]
    } else {
        spaced(words.drop_last()) + seq![' '] + words.last()
    }
}

/// Every part quoted, or the error of the first part that cannot be.
pub open spec fn quoted_parts(parts: Seq<Seq<char>>) -> Result<Seq<Seq<char>>, Seq<char>>
    decreases parts.len(),
{
    if parts.len() == 0 {
        Ok(Seq::empty())
    } else {
        match quoted_parts(parts.drop_last()) {
            Ok(qs) => match shell_quoted(parts.last()) {
                Ok(q) => Ok(qs.push(q)),
                Err(e) => Err(e),
            },
            Err(e) => Err(e),
        }
    }
}

/// A remote command line: the quoted parts separated by spaces.
pub open spec fn shell_joined(parts: Seq<Seq<char>>) -> Result<Seq<char>, Seq<char>> {
    match quoted_parts(parts) {
        Ok(qs) => Ok(spaced(qs)),
        Err(e) => Err(e),
    }
}

/// Quotes each part and joins them into one remote command line.
pub fn shell_join(parts: &[String]) -> (r: Result<String, String>)
    ensures
        match shell_joined(string_views(parts@)) {
            Ok(line) => r matches Ok(s) && s@ == line,
            Err(m) => r matches Err(e) && e@ == m,
        },
{
    let ghost pv = string_views(parts@);
    let mut out: Vec<char> = Vec::new();
    let ghost mut qs: Seq<Seq<char>> = Seq::empty();
    let mut i: usize = 0;
    while i < parts.len()
        invariant
            i <= parts@.len(),
            pv == string_views(parts@),
            quoted_parts(pv.take(i as int)) == Ok::<Seq<Seq<char>>, Seq<char>>(qs),
            qs.len() == i,
            out@ == spaced(qs),
        decreases parts@.len() - i,
    {
        assert(pv.take(i + 1).drop_last() =~= pv.take(i as int));
        assert(pv.take(i + 1).last() == parts@[i as int]@);
        match shell_quote(parts[i].as_str()) {
            Ok(q) => {
                if i > 0 {
                    out.push(' ');
                }
                let qc = chars_of(q.as_str());
                push_all(&mut out, qc.as_slice());
                proof {
                    let next = qs.push(q@);
                    assert(next.drop_last() =~= qs);
                    qs = next;
                }
            },
            Err(e) => {
                proof {
                    assert(quoted_parts(pv.take(i + 1)) == Err::<Seq<Seq<char>>, Seq<char>>(e@));
                    lemma_quoted_parts_error(pv, i + 1);
                }
                return Err(e);
            },
        }
        i = i + 1;
    }
    assert(pv.take(i as int) =~= pv);
    Ok(string_of(out.as_slice()))
}

/// Once a prefix of the parts fails to quote, so do all the parts, with
/// the same error.
pub proof fn lemma_quoted_parts_error(parts: Seq<Seq<char>>, k: int)
    requires
        0 <= k <= parts.len(),
        quoted_parts(parts.take(k)) is Err,
    ensures
        quoted_parts(parts) == quoted_parts(parts.take(k)),
    decreases parts.len() - k,
{
    if k < parts.len() {
        assert(parts.take(k + 1).drop_last() =~= parts.take(k));
        lemma_quoted_parts_error(parts, k + 1);
    } else {
        assert(parts.take(k) =~= parts);
    }
}

/// Where a POSIX shell is while it reads a word.
pub enum QuoteState {
    Bare,
    InSingle,
    InDouble,
}

pub open spec fn prepend_char(c: char, rest: Option<Seq<char>>) -> Option<Seq<char>> {
    match rest {
        Some(w) => Some(seq![c] + w),
        None => None,
    }
}

/// The word that a POSIX shell reads from `s`, starting in `state`, for
/// words made of characters that need no quoting, single-quoted spans and
/// double-quoted spans without `\`, `$` or a backquote; `None` for any
/// other text and for a quote left open.
pub open spec fn shell_word(s: Seq<char>, state: QuoteState) -> Option<Seq<char>>
    decreases s.len(),
{
    if s.len() == 0 {
        if state is Bare {
            Some(Seq::empty())
        } else {
            None
        }
    } else {
        let c = s[0];
        let rest = s.drop_first();
        match state {
            QuoteState::Bare => if c == '\'' {
                shell_word(rest, QuoteState::InSingle)
            } else if c == '"' {
                shell_word(rest, QuoteState::InDouble)
            } else if is_shell_safe(c) {
                prepend_char(c, shell_word(rest, QuoteState::Bare))
            } else {
                None
            },
            QuoteState::InSingle => if c == '\'' {
                shell_word(rest, QuoteState::Bare)
            } else {
                prepend_char(c, shell_word(rest, QuoteState::InSingle))
            },
            QuoteState::InDouble => if c == '"' {
                shell_word(rest, QuoteState::Bare)
            } else if c == '\\' || c == '$' || c == '`' {
                None
            } else {
                prepend_char(c, shell_word(rest, QuoteState::InDouble))
            },
        }
    }
}

proof fn lemma_bare_word(s: Seq<char>)
    requires
        all_shell_safe(s),
    ensures
        shell_word(s, QuoteState::Bare) == Some(s),
    decreases s.len(),
{
    if s.len() > 0 {
        assert(all_shell_safe(s.drop_first())) by {
            assert forall|i: int| 0 <= i < s.drop_first().len() implies is_shell_safe(
                #[trigger] s.drop_first()[i],
            ) by {
                assert(s.drop_first()[i] == s[i + 1]);
            }
        }
        lemma_bare_word(s.drop_first());
        assert(seq![s[0]] + s.drop_first() =~= s);
    }
}

proof fn lemma_single_quoted_word(s: Seq<char>)
    ensures
        shell_word(quote_escaped(s) + seq!['\''], QuoteState::InSingle) == Some(s),
    decreases s.len(),
{
    let t = quote_escaped(s) + seq!['\''];
    if s.len() == 0 {
        assert(quote_escaped(s) == Seq::<char>::empty());
        assert(t =~= seq!['\'']);
        assert(t.drop_first() =~= Seq::<char>::empty());
        assert(s =~= Seq::<char>::empty());
        assert(shell_word(t.drop_first(), QuoteState::Bare) == Some(Seq::<char>::empty()));
    } else {
        let rest = s.drop_first();
        let u = quote_escaped(rest) + seq!['\''];
        lemma_single_quoted_word(rest);
        assert(seq![s[0]] + rest =~= s);
        if s[0] == '\'' {
            let t1 = seq!['"', '\'', '"', '\''] + u;
            let t2 = seq!['\'', '"', '\''] + u;
            let t3 = seq!['"', '\''] + u;
            let t4 = seq!['\''] + u;
            assert(t =~= seq!['\''] + t1);
            assert(t.drop_first() =~= t1);
            assert(t1.drop_first() =~= t2);
            assert(t2.drop_first() =~= t3);
            assert(t3.drop_first() =~= t4);
            assert(t4.drop_first() =~= u);
            assert(shell_word(t4, QuoteState::Bare) == shell_word(u, QuoteState::InSingle));
            assert(shell_word(t3, QuoteState::InDouble) == shell_word(t4, QuoteState::Bare));
            assert(shell_word(t2, QuoteState::InDouble) == prepend_char(
                '\'',
                shell_word(t3, QuoteState::InDouble),
            ));
            assert(shell_word(t1, QuoteState::Bare) == shell_word(t2, QuoteState::InDouble));
            assert(shell_word(t, QuoteState::InSingle) == shell_word(t1, QuoteState::Bare));
            assert(shell_word(t, QuoteState::InSingle) == Some(seq!['\''] + rest));
        } else {
            assert(quote_escaped(s) == seq![s[0]] + quote_escaped(rest));
            assert(t =~= seq![s[0]] + u);
            assert(t[0] == s[0]);
            assert(t.drop_first() =~= u);
            assert(shell_word(t, QuoteState::InSingle) == prepend_char(
                s[0],
                shell_word(u, QuoteState::InSingle),
            ));
        }
    }
}

/// A POSIX shell reads back exactly the argument that `shell_quote`
/// quoted: quoting protects every argument it accepts.
pub proof fn lemma_shell_quote_round_trip(value: Seq<char>)
    requires
        !has_control_break(value),
    ensures
        shell_quoted(value) matches Ok(q) && shell_word(q, QuoteState::Bare) == Some(value),
{
    if value.len() > 0 && all_shell_safe(value) {
        lemma_bare_word(value);
    } else {
        let q = seq!['\''] + quote_escaped(value) + seq!['\''];
        lemma_single_quoted_word(value);
        assert(q.drop_first() =~= quote_escaped(value) + seq!['\'']);
    }
}

/// The words that a POSIX shell reads from the command line `s`, going on
/// from `state` with the word `word` begun and the words `words` read; a
/// space outside quotes ends a word. Words are read as `shell_word` reads
/// one; `None` for text outside that form.
pub open spec fn shell_line(
    s: Seq<char>,
    state: QuoteState,
    word: Seq<char>,
    words: Seq<Seq<char>>,
) -> Option<Seq<Seq<char>>>
    decreases s.len(),
{
    if s.len() == 0 {
        if state is Bare {
            Some(words.push(word))
        } else {
            None
        }
    } else {
        let c = s[0];
        let rest = s.drop_first();
        match state {
            QuoteState::Bare => if c == ' ' {
                shell_line(rest, QuoteState::Bare, Seq::empty(), words.push(word))
            } else if c == '\'' {
                shell_line(rest, QuoteState::InSingle, word, words)
            } else if c == '"' {
                shell_line(rest, QuoteState::InDouble, word, words)
            } else if is_shell_safe(c) {
                shell_line(rest, QuoteState::Bare, word.push(c), words)
            } else {
                None
            },
            QuoteState::InSingle => if c == '\'' {
                shell_line(rest, QuoteState::Bare, word, words)
            } else {
                shell_line(rest, QuoteState::InSingle, word.push(c), words)
            },
            QuoteState::InDouble => if c == '"' {
                shell_line(rest, QuoteState::Bare, word, words)
            } else if c == '\\' || c == '$' || c == '`' {
                None
            } else {
                shell_line(rest, QuoteState::InDouble, word.push(c), words)
            },
        }
    }
}

/// Reading a word that `shell_word` reads as `v`, followed by more text,
/// adds `v` to the word begun and goes on with the text.
proof fn lemma_word_then(
    q: Seq<char>,
    state: QuoteState,
    v: Seq<char>,
    rest: Seq<char>,
    word: Seq<char>,
    words: Seq<Seq<char>>,
)
    requires
        shell_word(q, state) == Some(v),
    ensures
        shell_line(q + rest, state, word, words) == shell_line(rest, QuoteState::Bare, word + v, words),
    decreases q.len(),
{
    if q.len() == 0 {
        assert(q + rest =~= rest);
        assert(v =~= Seq::<char>::empty());
        assert(word + v =~= word);
    } else {
        let c = q[0];
        let q2 = q.drop_first();
        assert((q + rest)[0] == c);
        assert((q + rest).drop_first() =~= q2 + rest);
        match state {
            QuoteState::Bare => {
                if c == '\'' {
                    lemma_word_then(q2, QuoteState::InSingle, v, rest, word, words);
                } else if c == '"' {
                    lemma_word_then(q2, QuoteState::InDouble, v, rest, word, words);
                } else {
                    let v2 = shell_word(q2, QuoteState::Bare)->0;
                    assert(v == seq![c] + v2);
                    lemma_word_then(q2, QuoteState::Bare, v2, rest, word.push(c), words);
                    assert(word.push(c) + v2 =~= word + v);
                }
            },
            QuoteState::InSingle => {
                if c == '\'' {
                    lemma_word_then(q2, QuoteState::Bare, v, rest, word, words);
                } else {
                    let v2 = shell_word(q2, QuoteState::InSingle)->0;
                    assert(v == seq![c] + v2);
                    lemma_word_then(q2, QuoteState::InSingle, v2, rest, word.push(c), words);
                    assert(word.push(c) + v2 =~= word + v);
                }
            },
            QuoteState::InDouble => {
                if c == '"' {
                    lemma_word_then(q2, QuoteState::Bare, v, rest, word, words);
                } else {
                    let v2 = shell_word(q2, QuoteState::InDouble)->0;
                    assert(v == seq![c] + v2);
                    lemma_word_then(q2, QuoteState::InDouble, v2, rest, word.push(c), words);
                    assert(word.push(c) + v2 =~= word + v);
                }
            },
        }
    }
}

proof fn lemma_spaced_front(qs: Seq<Seq<char>>)
    requires
        qs.len() >= 2,
    ensures
        spaced(qs) == qs[0] + seq![' '] + spaced(qs.drop_first()),
    decreases qs.len(),
{
    if qs.len() == 2 {
        assert(qs.drop_last().len() == 1);
        assert(qs.drop_first().len() == 1);
        assert(spaced(qs.drop_first()) == qs[1]);
        assert(spaced(qs.drop_last()) == qs[0]);
    } else {
        lemma_spaced_front(qs.drop_last());
        assert(qs.drop_last().drop_first() =~= qs.drop_first().drop_last());
        assert(spaced(qs.drop_first()) == spaced(qs.drop_first().drop_last()) + seq![' ']
            + qs.drop_first().last());
    }
}

proof fn lemma_read_spaced(qs: Seq<Seq<char>>, vs: Seq<Seq<char>>, words: Seq<Seq<char>>)
    requires
        qs.len() == vs.len(),
        qs.len() >= 1,
        forall|i: int| 0 <= i < qs.len() ==> shell_word(#[trigger] qs[i], QuoteState::Bare) == Some(vs[i]),
    ensures
        shell_line(spaced(qs), QuoteState::Bare, Seq::empty(), words) == Some(words + vs),
    decreases qs.len(),
{
    let e = Seq::<char>::empty();
    if qs.len() == 1 {
        assert(spaced(qs) == qs[0]);
        assert(shell_word(qs[0], QuoteState::Bare) == Some(vs[0]));
        lemma_word_then(qs[0], QuoteState::Bare, vs[0], e, e, words);
        assert(qs[0] + e =~= qs[0]);
        assert(e + vs[0] =~= vs[0]);
        assert(words + vs =~= words.push(vs[0]));
    } else {
        lemma_spaced_front(qs);
        let tail = spaced(qs.drop_first());
        assert(shell_word(qs[0], QuoteState::Bare) == Some(vs[0]));
        lemma_word_then(qs[0], QuoteState::Bare, vs[0], seq![' '] + tail, e, words);
        assert(qs[0] + seq![' '] + tail =~= qs[0] + (seq![' '] + tail));
        assert((seq![' '] + tail)[0] == ' ');
        assert((seq![' '] + tail).drop_first() =~= tail);
        assert(e + vs[0] =~= vs[0]);
        assert forall|i: int| 0 <= i < qs.drop_first().len() implies shell_word(
            #[trigger] qs.drop_first()[i],
            QuoteState::Bare,
        ) == Some(vs.drop_first()[i]) by {
            assert(shell_word(qs[i + 1], QuoteState::Bare) == Some(vs[i + 1]));
        }
        lemma_read_spaced(qs.drop_first(), vs.drop_first(), words.push(vs[0]));
        assert(words.push(vs[0]) + vs.drop_first() =~= words + vs);
    }
}

proof fn lemma_quoted_parts_ok(parts: Seq<Seq<char>>)
    requires
        forall|i: int| 0 <= i < parts.len() ==> !has_control_break(#[trigger] parts[i]),
    ensures
        quoted_parts(parts) matches Ok(qs) && qs.len() == parts.len() && forall|i: int|
            0 <= i < parts.len() ==> shell_quoted(#[trigger] parts[i]) == Ok::<Seq<char>, Seq<char>>(
                qs[i],
            ),
    decreases parts.len(),
{
    if parts.len() > 0 {
        let p2 = parts.drop_last();
        assert forall|i: int| 0 <= i < p2.len() implies !has_control_break(#[trigger] p2[i]) by {
            assert(p2[i] == parts[i]);
        }
        lemma_quoted_parts_ok(p2);
        let qs2 = quoted_parts(p2)->Ok_0;
        assert(!has_control_break(parts[parts.len() - 1]));
        let q = shell_quoted(parts.last())->Ok_0;
        let qs = qs2.push(q);
        assert forall|i: int| 0 <= i < parts.len() implies shell_quoted(#[trigger] parts[i])
            == Ok::<Seq<char>, Seq<char>>(qs[i]) by {
            if i < p2.len() {
                assert(parts[i] == p2[i]);
            }
        }
    }
}

/// A POSIX shell splits the command line that `shell_join` writes into
/// exactly the words it was given: no argument can add, split or change
/// words. The law is about words, not their meaning: a first word of the
/// form `NAME=value` is still read by the shell as an assignment.
pub proof fn lemma_shell_join_round_trip(parts: Seq<Seq<char>>)
    requires
        parts.len() > 0,
        forall|i: int| 0 <= i < parts.len() ==> !has_control_break(#[trigger] parts[i]),
    ensures
        shell_joined(parts) matches Ok(line) && shell_line(
            line,
            QuoteState::Bare,
            Seq::empty(),
            Seq::empty(),
        ) == Some(parts),
{
    lemma_quoted_parts_ok(parts);
    let qs = quoted_parts(parts)->Ok_0;
    assert forall|i: int| 0 <= i < qs.len() implies shell_word(#[trigger] qs[i], QuoteState::Bare)
        == Some(parts[i]) by {
        lemma_shell_quote_round_trip(parts[i]);
    }
    lemma_read_spaced(qs, parts, Seq::empty());
    assert(Seq::<Seq<char>>::empty() + parts =~= parts);
}

/// The words of `text`, as `str::split_whitespace` yields them.
pub open spec fn whitespace_words(text: Seq<char>) -> Seq<Seq<char>> {
    nonempty_words(split(text, CharClass::Whitespace))
}

/// The longest error text that a failure message quotes, in characters.
pub const ERROR_DETAIL_LIMIT: usize = 800;

/// The standard error of a failed process as a message quotes it: decoded
/// with `String::from_utf8_lossy`, its white space collapsed to single
/// spaces, and cut to 800 characters followed by `…` when longer.
pub open spec fn error_detail(stderr: Seq<u8>) -> Seq<char> {
    text_detail(lossy_utf8(stderr))
}

/// The decoded standard error of a failed process as a message quotes it:
/// white space collapsed, cut to 800 characters followed by `…` when longer.
pub open spec fn text_detail(text: Seq<char>) -> Seq<char> {
    let collapsed = spaced(whitespace_words(text));
    if collapsed.len() <= ERROR_DETAIL_LIMIT {
        collapsed
    } else {
        collapsed.take(ERROR_DETAIL_LIMIT as int) + seq!['\u{2026}']
    }
}

/// The non-empty pieces joined by single spaces.
fn join_nonempty(pieces: &Vec<Vec<char>>) -> (r: Vec<char>)
    ensures
        r@ == spaced(nonempty_words(views(pieces@))),
{
    let ghost pv = views(pieces@);
    let mut out: Vec<char> = Vec::new();
    let mut count: usize = 0;
    let mut i: usize = 0;
    while i < pieces.len()
        invariant
            i <= pieces@.len(),
            pv == views(pieces@),
            count <= i,
            count == nonempty_words(pv.take(i as int)).len(),
            out@ == spaced(nonempty_words(pv.take(i as int))),
        decreases pieces@.len() - i,
    {
        let ghost words = nonempty_words(pv.take(i as int));
        assert(pv.take(i + 1).drop_last() =~= pv.take(i as int));
        assert(pv.take(i + 1).last() == pieces@[i as int]@);
        if pieces[i].len() > 0 {
            let ghost next = words.push(pieces@[i as int]@);
            assert(next.drop_last() =~= words);
            if count > 0 {
                out.push(' ');
            }
            push_all(&mut out, pieces[i].as_slice());
            count = count + 1;
        }
        i = i + 1;
    }
    assert(pv.take(i as int) =~= pv);
    out
}

/// The error text of a failed process; see `error_detail`.
pub fn clean_error(stderr: &[u8]) -> (r: String)
    ensures
        r@ == error_detail(stderr@),
{
    let text = lossy_text(stderr);
    error_text_detail(text.as_slice())
}

/// The error text of a failed process, once decoded; see `text_detail`.
pub fn error_text_detail(text: &[char]) -> (r: String)
    ensures
        r@ == text_detail(text@),
{
    let pieces = split_chars(text, CharClass::Whitespace);
    let collapsed = join_nonempty(&pieces);
    if collapsed.len() <= ERROR_DETAIL_LIMIT {
        return string_of(collapsed.as_slice());
    }
    let mut shortened = copy_range(collapsed.as_slice(), 0, ERROR_DETAIL_LIMIT);
    shortened.push('\u{2026}');
    assert(collapsed@.subrange(0, ERROR_DETAIL_LIMIT as int) =~= collapsed@.take(
        ERROR_DETAIL_LIMIT as int,
    ));
    string_of(shortened.as_slice())
}

/// The advice that a failure message ends with, chosen by what the error
/// text (in ASCII lower case) mentions.
pub open spec fn failure_hint(lower: Seq<char>) -> Seq<char> {
    if contains(lower, "permission denied"@) || contains(lower, "authentication failed"@) {
        " SSH authentication failed. Verify your key or agent and complete any required MFA in a terminal once."@
    } else if contains(lower, "could not resolve hostname"@) {
        " The SSH host could not be resolved; check the VPN and ssh.target."@
    } else if contains(lower, "connection timed out"@) || contains(lower, "operation timed out"@) {
        " The SSH connection timed out; check the VPN or hotspot connection."@
    } else if contains(lower, "no route to host"@) || contains(lower, "network is unreachable"@) {
        " The cluster is unreachable; check the university VPN."@
    } else if contains(lower, "host key verification failed"@) {
        " Host-key verification failed. Connect once with ssh in a terminal and verify the host key."@
    } else {
        Seq::empty()
    }
}

/// The exit status as a message names it: the exit code, or `signal` for
/// a process that a signal ended.
pub open spec fn status_text(code: Option<i32>) -> Seq<char> {
    match code {
        Some(c) => signed_decimal(c as int),
        None => "signal"@,
    }
}

/// The message for a process `label` that exited unsuccessfully.
pub open spec fn process_failure(label: Seq<char>, code: Option<i32>, stderr: Seq<u8>) -> Seq<char> {
    let detail = error_detail(stderr);
    let hint = failure_hint(lower_seq(detail));
    if detail.len() == 0 {
        label + " failed with exit status "@ + status_text(code) + "."@ + hint
    } else {
        label + " failed with exit status "@ + status_text(code) + ": "@ + detail + "."@ + hint
    }
}

fn mentions(hay: &[char], needle: &str) -> (r: bool)
    ensures
        r == contains(hay@, needle@),
{
    let n = chars_of(needle);
    contains_chars(hay, n.as_slice())
}

fn hint_for(lower: &[char]) -> (r: &'static str)
    ensures
        r@ == failure_hint(lower@),
{
    if mentions(lower, "permission denied") || mentions(lower, "authentication failed") {
        " SSH authentication failed. Verify your key or agent and complete any required MFA in a terminal once."
    } else if mentions(lower, "could not resolve hostname") {
        " The SSH host could not be resolved; check the VPN and ssh.target."
    } else if mentions(lower, "connection timed out") || mentions(lower, "operation timed out") {
        " The SSH connection timed out; check the VPN or hotspot connection."
    } else if mentions(lower, "no route to host") || mentions(lower, "network is unreachable") {
        " The cluster is unreachable; check the university VPN."
    } else if mentions(lower, "host key verification failed") {
        " Host-key verification failed. Connect once with ssh in a terminal and verify the host key."
    } else {
        proof {
            reveal_strlit("");
        }
        ""
    }
}

fn status_chars(code: Option<i32>) -> (r: Vec<char>)
    ensures
        r@ == status_text(code),
{
    match code {
        Some(c) => signed_decimal_chars(c as i64),
        None => chars_of("signal"),
    }
}

/// Describes a process `label` that exited with `code` (`None` when a
/// signal ended it), quoting its standard error and adding advice for
/// the common SSH failures.
pub fn format_process_failure(label: &str, code: Option<i32>, stderr: &[u8]) -> (r: String)
    ensures
        r@ == process_failure(label@, code, stderr@),
{
    let detail = clean_error(stderr);
    let detail_chars = chars_of(detail.as_str());
    let lower = lower_chars(detail_chars.as_slice());
    let hint = chars_of(hint_for(lower.as_slice()));
    let mut out = chars_of(label);
    let middle = chars_of(" failed with exit status ");
    push_all(&mut out, middle.as_slice());
    let status = status_chars(code);
    push_all(&mut out, status.as_slice());
    if detail_chars.len() > 0 {
        let colon = chars_of(": ");
        push_all(&mut out, colon.as_slice());
        push_all(&mut out, detail_chars.as_slice());
    }
    let dot = chars_of(".");
    push_all(&mut out, dot.as_slice());
    push_all(&mut out, hint.as_slice());
    string_of(out.as_slice())
}

/// A client for the configured SSH target. It holds the configuration and
/// the control socket through which it multiplexes, when it does.
#[derive(Clone, Debug)]
pub struct SshClient {
    config: SshConfig,
    control_path: Option<String>,
}

/// A process to run: the program, its arguments, the bytes to write to its
/// standard input (`None` for no input at all), and the seconds it may take.
#[derive(Clone, Debug)]
pub struct SshInvocation {
    pub program: String,
    pub arguments: Vec<String>,
    pub stdin: Option<Vec<u8>>,
    pub timeout_seconds: u64,
}

/// The options that every `ssh` call starts with: the configuration file
/// and port when set, no terminal, the timeouts and keep-alives, quiet
/// logging, then the connection sharing options when there is a socket.
pub open spec fn base_arguments(config: SshConfig, socket: Option<Seq<char>>) -> Seq<Seq<char>> {
    let file = match config.config_file {
        Some(f) => seq!["-F"@, f@],
        None => Seq::empty(),
    };
    let port = match config.port {
        Some(p) => seq!["-p"@, decimal(p as nat)],
        None => Seq::empty(),
    };
    let common = seq![
        "-T"@,
        "-o"@,
        "ConnectTimeout="@ + decimal(config.connect_timeout_seconds as nat),
        "-o"@,
        "ServerAliveInterval=15"@,
        "-o"@,
        "ServerAliveCountMax=2"@,
        "-o"@,
        "LogLevel=ERROR"@,
    ];
    let control = match socket {
        Some(p) => seq![
            "-o"@,
            "ControlMaster=auto"@,
            "-o"@,
            "ControlPersist="@ + decimal(config.control_persist_seconds as nat),
            "-o"@,
            "ControlPath="@ + p,
        ],
        None => Seq::empty(),
    };
    file + port + common + control
}

/// The command that runs the remote command line `line` on the target,
/// with `stdin` as its input.
pub open spec fn remote_invocation(
    inv: SshInvocation,
    config: SshConfig,
    socket: Option<Seq<char>>,
    line: Seq<char>,
) -> bool {
    &&& inv.program@ == config.binary@
    &&& string_views(inv.arguments@) == base_arguments(config, socket) + seq![config.target@, line]
    &&& inv.timeout_seconds == config.command_timeout_seconds
}

/// The host part of a forward, in brackets when it is an IPv6 address.
pub open spec fn forward_host(host: Seq<char>) -> Seq<char> {
    if contains(host, ":"@) {
        "["@ + host + "]"@
    } else {
        host
    }
}

/// The `-L` forward from a local port to a port of a host that the target
/// reaches.
pub open spec fn forward_spec(local_port: u16, host: Seq<char>, remote_port: u16) -> Seq<char> {
    "127.0.0.1:"@ + decimal(local_port as nat) + ":"@ + forward_host(host) + ":"@ + decimal(
        remote_port as nat,
    )
}

fn push_arg(args: &mut Vec<String>, arg: String)
    ensures
        string_views(final(args)@) == string_views(old(args)@).push(arg@),
{
    let ghost before = args@;
    args.push(arg);
    assert(string_views(args@) =~= string_views(before).push(arg@));
}

fn text_number(prefix: &str, n: u64) -> (r: String)
    ensures
        r@ == prefix@ + decimal(n as nat),
{
    let mut out = chars_of(prefix);
    let digits = decimal_chars(n);
    push_all(&mut out, digits.as_slice());
    string_of(out.as_slice())
}

/// The socket for connection sharing in the temporary directory: `%C`
/// lets `ssh` name it by a hash of the connection.
fn default_control_path(temp_dir: &str) -> (r: String)
    ensures
        !verbatim(temp_dir@) ==> joined_path(r@, temp_dir@, "butler-%C.sock"@),
{
    proof {
        reveal_strlit("butler-%C.sock");
        reveal_strlit("/");
        reveal_strlit("\\");
        assert("butler-%C.sock"@.take(1)[0] != "/"@.take(1)[0]);
        assert("butler-%C.sock"@.take(1)[0] != "\\"@.take(1)[0]);
    }
    join_path(temp_dir, "butler-%C.sock")
}

impl SshClient {
    /// The configuration that the client was made with.
    pub closed spec fn settings(self) -> SshConfig {
        self.config
    }

    /// The control socket, when the client shares connections.
    pub closed spec fn socket(self) -> Option<Seq<char>> {
        opt_view(self.control_path)
    }

    /// A client for `config`. It shares connections when the configuration
    /// asks for it, through the configured socket or else through one in
    /// `temp_dir`, the system's temporary directory.
    pub fn new(config: SshConfig, temp_dir: &str) -> (r: Self)
        ensures
            r.settings() == config,
            config.multiplex ==> match config.control_path {
                Some(p) => r.socket() == Some(p@),
                None => r.socket() matches Some(s) && (!verbatim(temp_dir@) ==> joined_path(
                    s,
                    temp_dir@,
                    "butler-%C.sock"@,
                )),
            },
            !config.multiplex ==> r.socket() is None,
    {
        let control_path = if config.multiplex {
            match &config.control_path {
                Some(p) => Some(p.clone()),
                None => Some(default_control_path(temp_dir)),
            }
        } else {
            None
        };
        SshClient { config, control_path }
    }

    pub fn target(&self) -> (r: &str)
        ensures
            r@ == self.settings().target@,
    {
        self.config.target.as_str()
    }

    /// The `ssh` program that the client runs.
    pub fn binary(&self) -> (r: &str)
        ensures
            r@ == self.settings().binary@,
    {
        self.config.binary.as_str()
    }

    pub fn control_path(&self) -> (r: Option<&str>)
        ensures
            match r {
                Some(p) => self.socket() == Some(p@),
                None => self.socket() is None,
            },
    {
        match &self.control_path {
            Some(p) => Some(p.as_str()),
            None => None,
        }
    }

    /// The options that every `ssh` call starts with.
    pub fn base_arguments(&self) -> (r: Vec<String>)
        ensures
            string_views(r@) == base_arguments(self.settings(), self.socket()),
    {
        let config = &self.config;
        let mut args: Vec<String> = Vec::new();
        match &config.config_file {
            Some(f) => {
                push_arg(&mut args, "-F".to_string());
                push_arg(&mut args, f.clone());
            },
            None => {},
        }
        match config.port {
            Some(p) => {
                push_arg(&mut args, "-p".to_string());
                push_arg(&mut args, string_of(decimal_chars(p as u64).as_slice()));
            },
            None => {},
        }
        push_arg(&mut args, "-T".to_string());
        push_arg(&mut args, "-o".to_string());
        push_arg(&mut args, text_number("ConnectTimeout=", config.connect_timeout_seconds));
        push_arg(&mut args, "-o".to_string());
        push_arg(&mut args, "ServerAliveInterval=15".to_string());
        push_arg(&mut args, "-o".to_string());
        push_arg(&mut args, "ServerAliveCountMax=2".to_string());
        push_arg(&mut args, "-o".to_string());
        push_arg(&mut args, "LogLevel=ERROR".to_string());
        match &self.control_path {
            Some(p) => {
                push_arg(&mut args, "-o".to_string());
                push_arg(&mut args, "ControlMaster=auto".to_string());
                push_arg(&mut args, "-o".to_string());
                push_arg(&mut args, text_number("ControlPersist=", config.control_persist_seconds));
                push_arg(&mut args, "-o".to_string());
                let path = chars_of(p.as_str());
                push_arg(&mut args, text_then("ControlPath=", path.as_slice()));
            },
            None => {},
        }
        assert(string_views(args@) =~= base_arguments(self.settings(), self.socket()));
        args
    }

    fn execute(&self, remote_command: String, stdin: Option<Vec<u8>>) -> (r: SshInvocation)
        ensures
            remote_invocation(r, self.settings(), self.socket(), remote_command@),
            r.stdin == stdin,
    {
        let mut arguments = self.base_arguments();
        push_arg(&mut arguments, self.config.target.clone());
        let ghost line = remote_command@;
        push_arg(&mut arguments, remote_command);
        assert(string_views(arguments@) =~= base_arguments(self.settings(), self.socket()) + seq![
            self.settings().target@,
            line,
        ]);
        SshInvocation {
            program: self.config.binary.clone(),
            arguments,
            stdin,
            timeout_seconds: self.config.command_timeout_seconds,
        }
    }

    /// The invocation that runs `program` with `args` on the target, each
    /// quoted for the remote shell; an error when one cannot be quoted.
    pub fn run(&self, program: &str, args: &[String]) -> (r: Result<SshInvocation, String>)
        ensures
            match shell_joined(seq![program@] + string_views(args@)) {
                Ok(line) => r matches Ok(inv) && remote_invocation(
                    inv,
                    self.settings(),
                    self.socket(),
                    line,
                ) && inv.stdin is None,
                Err(m) => r matches Err(e) && e@ == m,
            },
    {
        let mut parts: Vec<String> = Vec::new();
        push_arg(&mut parts, program.to_string());
        let mut i: usize = 0;
        while i < args.len()
            invariant
                i <= args@.len(),
                string_views(parts@) =~= seq![program@] + string_views(args@).take(i as int),
            decreases args@.len() - i,
        {
            push_arg(&mut parts, args[i].clone());
            i = i + 1;
        }
        assert(string_views(args@).take(i as int) =~= string_views(args@));
        match shell_join(parts.as_slice()) {
            Ok(line) => Ok(self.execute(line, None)),
            Err(e) => Err(e),
        }
    }

    /// The invocation that runs `script` with `sh -s` on the target, its
    /// arguments quoted for the remote shell and the script on standard
    /// input; an error when an argument cannot be quoted.
    pub fn run_script(&self, script: &str, args: &[String]) -> (r: Result<SshInvocation, String>)
        ensures
            match shell_joined(seq!["sh"@, "-s"@, "--"@] + string_views(args@)) {
                Ok(line) => r matches Ok(inv) && remote_invocation(
                    inv,
                    self.settings(),
                    self.socket(),
                    line,
                ) && (inv.stdin matches Some(input) && input@ == encode_utf8(script@)),
                Err(m) => r matches Err(e) && e@ == m,
            },
    {
        let mut parts: Vec<String> = Vec::new();
        push_arg(&mut parts, "sh".to_string());
        push_arg(&mut parts, "-s".to_string());
        push_arg(&mut parts, "--".to_string());
        let mut i: usize = 0;
        while i < args.len()
            invariant
                i <= args@.len(),
                string_views(parts@) =~= seq!["sh"@, "-s"@, "--"@] + string_views(args@).take(
                    i as int,
                ),
            decreases args@.len() - i,
        {
            push_arg(&mut parts, args[i].clone());
            i = i + 1;
        }
        assert(string_views(args@).take(i as int) =~= string_views(args@));
        match shell_join(parts.as_slice()) {
            Ok(line) => {
                let input = slice_to_vec(script.as_bytes());
                Ok(self.execute(line, Some(input)))
            },
            Err(e) => Err(e),
        }
    }

    /// The invocation that checks the connection by running `true`.
    pub fn check_connection(&self) -> (r: Result<SshInvocation, String>)
        ensures
            match shell_joined(seq!["true"@]) {
                Ok(line) => r matches Ok(inv) && remote_invocation(
                    inv,
                    self.settings(),
                    self.socket(),
                    line,
                ) && inv.stdin is None,
                Err(m) => r matches Err(e) && e@ == m,
            },
    {
        let none: Vec<String> = Vec::new();
        let r = self.run("true", none.as_slice());
        assert(seq!["true"@] + string_views(none@) =~= seq!["true"@]);
        r
    }

    /// The arguments of `ssh` for a tunnel from `local_port` on the loopback
    /// interface to `remote_port` of `remote_host`, which fails when the
    /// forward cannot be set up and runs no remote command.
    pub fn tunnel_arguments(&self, local_port: u16, remote_host: &str, remote_port: u16) -> (r: Vec<
        String,
    >)
        ensures
            string_views(r@) == base_arguments(self.settings(), self.socket()) + seq![
                "-N"@,
                "-o"@,
                "ExitOnForwardFailure=yes"@,
                "-L"@,
                forward_spec(local_port, remote_host@, remote_port),
                self.settings().target@,
            ],
    {
        let host = chars_of(remote_host);
        let colon = chars_of(":");
        let shown = if contains_chars(host.as_slice(), colon.as_slice()) {
            let mut b = chars_of("[");
            push_all(&mut b, host.as_slice());
            let close = chars_of("]");
            push_all(&mut b, close.as_slice());
            b
        } else {
            host
        };
        let mut forward = chars_of("127.0.0.1:");
        let lp = decimal_chars(local_port as u64);
        push_all(&mut forward, lp.as_slice());
        push_all(&mut forward, colon.as_slice());
        push_all(&mut forward, shown.as_slice());
        push_all(&mut forward, colon.as_slice());
        let rp = decimal_chars(remote_port as u64);
        push_all(&mut forward, rp.as_slice());
        let mut args = self.base_arguments();
        push_arg(&mut args, "-N".to_string());
        push_arg(&mut args, "-o".to_string());
        push_arg(&mut args, "ExitOnForwardFailure=yes".to_string());
        push_arg(&mut args, "-L".to_string());
        push_arg(&mut args, string_of(forward.as_slice()));
        push_arg(&mut args, self.config.target.clone());
        args
    }

    /// The message for a tunnel process that exited.
    pub fn format_tunnel_failure(&self, code: Option<i32>, stderr: &[u8]) -> (r: String)
        ensures
            r@ == process_failure("SSH tunnel"@, code, stderr@),
    {
        format_process_failure("SSH tunnel", code, stderr)
    }
}

/// What a remote command gives once it has run: its standard output when
/// it succeeded, and otherwise the message for its failure.
pub fn command_output(succeeded: bool, code: Option<i32>, stdout: Vec<u8>, stderr: &[u8]) -> (r:
    Result<Vec<u8>, String>)
    ensures
        succeeded ==> r == Ok::<Vec<u8>, String>(stdout),
        !succeeded ==> (r matches Err(e) && e@ == process_failure("SSH command"@, code, stderr@)),
{
    if succeeded {
        Ok(stdout)
    } else {
        Err(format_process_failure("SSH command", code, stderr))
    }
}

/// What a poll of a running command found.
#[derive(Clone, Debug)]
pub enum WaitEvent {
    /// The process has exited.
    Exited,
    /// The process still runs; `timed_out` when its time is up.
    Running { timed_out: bool },
    /// Polling the process failed with this error.
    WaitFailed(String),
}

/// What to do after a poll of a running command.
#[derive(Clone, Debug)]
pub enum WaitAction {
    /// Collect the output of the exited process.
    Collect,
    /// Sleep a moment and poll again.
    Sleep,
    /// Kill the process and fail with this message.
    Abort(String),
}

/// Decides what follows a poll of a running command.
/// The command `program` may take `timeout_seconds`: one still running
/// after that is killed, as is one that cannot be polled.
pub fn process_wait_step(program: &str, timeout_seconds: u64, event: WaitEvent) -> (r: WaitAction)
    ensures
        match event {
            WaitEvent::Exited => r is Collect,
            WaitEvent::Running { timed_out } => if timed_out {
                r matches WaitAction::Abort(m) && m@ == program@ + " did not finish within "@
                    + decimal(timeout_seconds as nat) + " seconds"@
            } else {
                r is Sleep
            },
            WaitEvent::WaitFailed(e) => r matches WaitAction::Abort(m) && m@ == "Could not wait for "@
                + program@ + ": "@ + e@,
        },
{
    match event {
        WaitEvent::Exited => WaitAction::Collect,
        WaitEvent::Running { timed_out } => {
            if timed_out {
                let mut m = chars_of(program);
                let mid = chars_of(" did not finish within ");
                push_all(&mut m, mid.as_slice());
                let digits = decimal_chars(timeout_seconds);
                push_all(&mut m, digits.as_slice());
                let tail = chars_of(" seconds");
                push_all(&mut m, tail.as_slice());
                WaitAction::Abort(string_of(m.as_slice()))
            } else {
                WaitAction::Sleep
            }
        },
        WaitEvent::WaitFailed(e) => {
            let mut m = chars_of("Could not wait for ");
            let p = chars_of(program);
            push_all(&mut m, p.as_slice());
            let colon = chars_of(": ");
            push_all(&mut m, colon.as_slice());
            let detail = chars_of(e.as_str());
            push_all(&mut m, detail.as_slice());
            WaitAction::Abort(string_of(m.as_slice()))
        },
    }
}

} // verus!
