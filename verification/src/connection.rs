//! The `connection.yml` that Open OnDemand writes for a running session:
//! its flat YAML, the host, port, password, protocol and path it names, and
//! the local URL under which the session opens.
use vstd::prelude::*;
use crate::models::{opt_view, OpenSessionResult};
use crate::text::{
    char_is_ascii_alphanumeric, char_is_ascii_whitespace, char_is_control_break, chars_equal,
    chars_of, copy_all, copy_range, decimal, decimal_chars, ends_with, ends_with_chars, find,
    find_chars, first_in_class, index_in_class, is_ascii_alphanumeric, is_ascii_whitespace,
    is_control_break, lower_chars, lower_seq, parse_decimal, parse_unsigned, push_all, split,
    split_chars, starts_with, starts_with_chars, strip, strip_chars, string_of, text_then,
    trim, trim_chars, views, CharClass,
};

verus! {

/// Where a trailing YAML comment starts in `s`, scanning from `i` with the
/// given quoting state, or `s.len()` when there is none. A `#` opens a
/// comment outside quotes at the start or after ASCII white space; `''`
/// inside single quotes and `\x` inside double quotes are escapes.
pub open spec fn comment_start(s: Seq<char>, i: int, in_single: bool, in_double: bool) -> int
    decreases s.len() - i,
{
    if i < 0 || i >= s.len() {
        s.len() as int
    } else {
        let c = s[i];
        if c == '\\' && in_double {
            comment_start(
                s,
                if i + 2 < s.len() {
                    i + 2
                } else {
                    s.len() as int
                },
                in_single,
                in_double,
            )
        } else if c == '\'' && !in_double {
            if in_single && i + 1 < s.len() && s[i + 1] == '\'' {
                comment_start(s, i + 2, in_single, in_double)
            } else {
                comment_start(s, i + 1, !in_single, in_double)
            }
        } else if c == '"' && !in_single {
            comment_start(s, i + 1, in_single, !in_double)
        } else if c == '#' && !in_single && !in_double && (i == 0 || is_ascii_whitespace(
            s[i - 1],
        )) {
            i
        } else {
            comment_start(s, i + 1, in_single, in_double)
        }
    }
}

/// A YAML value without its trailing comment.
pub open spec fn without_comment(s: Seq<char>) -> Seq<char> {
    s.take(comment_start(s, 0, false, false))
}

pub proof fn lemma_comment_start_bounds(s: Seq<char>, i: int, in_single: bool, in_double: bool)
    requires
        0 <= i,
    ensures
        0 <= comment_start(s, i, in_single, in_double) <= s.len(),
    decreases s.len() - i,
{
    if i < s.len() {
        let c = s[i];
        if c == '\\' && in_double {
            let next = if i + 2 < s.len() {
                i + 2
            } else {
                s.len() as int
            };
            lemma_comment_start_bounds(s, next, in_single, in_double);
        } else if c == '\'' && !in_double {
            if in_single && i + 1 < s.len() && s[i + 1] == '\'' {
                lemma_comment_start_bounds(s, i + 2, in_single, in_double);
            } else {
                lemma_comment_start_bounds(s, i + 1, !in_single, in_double);
            }
        } else if c == '"' && !in_single {
            lemma_comment_start_bounds(s, i + 1, in_single, !in_double);
        } else if c == '#' && !in_single && !in_double && (i == 0 || is_ascii_whitespace(s[i - 1])) {
        } else {
            lemma_comment_start_bounds(s, i + 1, in_single, in_double);
        }
    }
}

pub fn strip_yaml_comment(value: &[char]) -> (r: Vec<char>)
    ensures
        r@ == without_comment(value@),
{
    let mut in_single = false;
    let mut in_double = false;
    let mut i: usize = 0;
    let n = value.len();
    while i < n
        invariant
            i <= n == value@.len(),
            comment_start(value@, i as int, in_single, in_double) == comment_start(
                value@,
                0,
                false,
                false,
            ),
        decreases n - i,
    {
        let c = value[i];
        if c == '\\' && in_double {
            i = if n - i > 2 {
                i + 2
            } else {
                n
            };
        } else if c == '\'' && !in_double {
            if in_single && i + 1 < n && value[i + 1] == '\'' {
                i = i + 2;
            } else {
                in_single = !in_single;
                i = i + 1;
            }
        } else if c == '"' && !in_single {
            in_double = !in_double;
            i = i + 1;
        } else if c == '#' && !in_single && !in_double && (i == 0 || char_is_ascii_whitespace(
            value[i - 1],
        )) {
            return copy_range(value, 0, i);
        } else {
            i = i + 1;
        }
    }
    copy_all(value)
}

/// A single-quoted YAML text with each `''` read as `'`, left to right.
pub open spec fn undouble_quotes(s: Seq<char>) -> Seq<char>
    decreases s.len(),
{
    if s.len() == 0 {
        s
    } else if s.len() >= 2 && s[0] == '\'' && s[1] == '\'' {
        seq!['\''] + undouble_quotes(s.skip(2))
    } else {
        seq![s[0]] + undouble_quotes(s.drop_first())
    }
}

fn exec_undouble_quotes(s: &[char]) -> (r: Vec<char>)
    ensures
        r@ == undouble_quotes(s@),
{
    let mut out: Vec<char> = Vec::new();
    let mut i: usize = 0;
    let n = s.len();
    assert(s@.skip(0) =~= s@);
    while i < n
        invariant
            i <= n == s@.len(),
            out@ + undouble_quotes(s@.skip(i as int)) == undouble_quotes(s@),
        decreases n - i,
    {
        let ghost t = s@.skip(i as int);
        if i + 1 < n && s[i] == '\'' && s[i + 1] == '\'' {
            out.push('\'');
            assert(t.skip(2) =~= s@.skip(i + 2));
            i = i + 2;
        } else {
            out.push(s[i]);
            assert(t.drop_first() =~= s@.skip(i + 1));
            i = i + 1;
        }
    }
    assert(s@.skip(i as int) =~= Seq::<char>::empty());
    out
}

/// What `serde_json::from_str::<String>` gives for `text`: the JSON string
/// that `text` holds, or the message of its error.
pub uninterp spec fn json_string_value(text: Seq<char>) -> Result<Seq<char>, Seq<char>>;

/// Reads a JSON string literal with `serde_json::from_str::<String>`; the
/// contract claims only that the result is that function's, named
/// `json_string_value`, with the error turned into its message.
#[verifier::external_body]
fn json_string(text: &[char]) -> (r: Result<String, String>)
    ensures
        match r {
            Ok(v) => json_string_value(text@) == Ok::<Seq<char>, Seq<char>>(v@),
            Err(e) => json_string_value(text@) == Err::<Seq<char>, Seq<char>>(e@),
        },
{
    let text: String = text.iter().collect();
    serde_json::from_str::<String>(&text).map_err(|error| error.to_string())
}

/// A double-quoted value of line `line` of `connection.yml`, from what it
/// decoded to as a JSON string: the string, or the decoder's error.
pub open spec fn double_quoted(decoded: Result<Seq<char>, Seq<char>>, line: nat) -> Result<
    Seq<char>,
    Seq<char>,
> {
    match decoded {
        Ok(v) => Ok(v),
        Err(e) => Err(
            "connection.yml line "@ + decimal(line) + " has an invalid double-quoted value: "@ + e,
        ),
    }
}

/// The value of a double-quoted scalar on line `line`, from what decoding
/// it as a JSON string gave.
pub fn double_quoted_value(decoded: Result<String, String>, line: usize) -> (r: Result<Vec<char>, String>)
    ensures
        match double_quoted(
            match decoded {
                Ok(v) => Ok(v@),
                Err(e) => Err(e@),
            },
            line as nat,
        ) {
            Ok(v) => r matches Ok(x) && x@ == v,
            Err(m) => r matches Err(e) && e@ == m,
        },
{
    match decoded {
        Ok(v) => Ok(chars_of(v.as_str())),
        Err(e) => {
            let mut m = chars_of("connection.yml line ");
            let digits = decimal_chars(line as u64);
            push_all(&mut m, digits.as_slice());
            let tail = chars_of(" has an invalid double-quoted value: ");
            push_all(&mut m, tail.as_slice());
            let detail = chars_of(e.as_str());
            push_all(&mut m, detail.as_slice());
            Err(string_of(m.as_slice()))
        },
    }
}

/// The value of a `key: value` line of `connection.yml` (line `line` of the
/// file): without its comment and trimmed; empty for `null` and `~`; the
/// inside of single quotes with `''` read as `'`; a JSON string for double
/// quotes; otherwise the text itself.
pub open spec fn yaml_scalar(raw: Seq<char>, line: nat) -> Result<Seq<char>, Seq<char>> {
    let value = trim(without_comment(raw));
    if value.len() == 0 || lower_seq(value) == "null"@ || lower_seq(value) == "~"@ {
        Ok(Seq::empty())
    } else if starts_with(value, "'"@) {
        if value.len() < 2 || !ends_with(value, "'"@) {
            Err(
                "connection.yml line "@ + decimal(line) + " has an unterminated single-quoted value"@,
            )
        } else {
            Ok(undouble_quotes(value.subrange(1, value.len() - 1)))
        }
    } else if starts_with(value, "\""@) {
        double_quoted(json_string_value(value), line)
    } else {
        Ok(value)
    }
}

fn is_literal(value: &[char], literal: &str) -> (r: bool)
    ensures
        r == (value@ == literal@),
{
    let l = chars_of(literal);
    chars_equal(value, l.as_slice())
}

pub fn decode_yaml_scalar(raw: &[char], line: usize) -> (r: Result<Vec<char>, String>)
    ensures
        match r {
            Ok(v) => yaml_scalar(raw@, line as nat) == Ok::<Seq<char>, Seq<char>>(v@),
            Err(e) => yaml_scalar(raw@, line as nat) == Err::<Seq<char>, Seq<char>>(e@),
        },
{
    let stripped = strip_yaml_comment(raw);
    let value = trim_chars(stripped.as_slice());
    let lower = lower_chars(value.as_slice());
    if value.len() == 0 || is_literal(lower.as_slice(), "null") || is_literal(lower.as_slice(), "~") {
        return Ok(Vec::new());
    }
    let single = chars_of("'");
    if starts_with_chars(value.as_slice(), single.as_slice()) {
        if value.len() < 2 || !ends_with_chars(value.as_slice(), single.as_slice()) {
            let mut m = chars_of("connection.yml line ");
            let digits = decimal_chars(line as u64);
            push_all(&mut m, digits.as_slice());
            let tail = chars_of(" has an unterminated single-quoted value");
            push_all(&mut m, tail.as_slice());
            return Err(string_of(m.as_slice()));
        }
        let inner = copy_range(value.as_slice(), 1, value.len() - 1);
        return Ok(exec_undouble_quotes(inner.as_slice()));
    }
    let double = chars_of("\"");
    if starts_with_chars(value.as_slice(), double.as_slice()) {
        let decoded = json_string(value.as_slice());
        return double_quoted_value(decoded, line);
    }
    Ok(value)
}


/// The key and raw value of one line of `connection.yml`, or `None` for a
/// blank line, a comment, a document marker, a line without `:` or an empty
/// key. Keys lose surrounding quotes and are read in ASCII lower case.
pub open spec fn yaml_line(raw: Seq<char>) -> Option<(Seq<char>, Seq<char>)> {
    let line = trim(raw);
    if line.len() == 0 || starts_with(line, "#"@) || line == "---"@ || line == "..."@ {
        None
    } else {
        let i = first_in_class(line, CharClass::Exactly(':'));
        if i < 0 {
            None
        } else {
            let key = lower_seq(strip(trim(line.take(i)), CharClass::Quote));
            if key.len() == 0 {
                None
            } else {
                Some((key, line.skip(i + 1)))
            }
        }
    }
}

pub open spec fn prepend_entries(
    acc: Seq<(Seq<char>, Seq<char>)>,
    r: Result<Seq<(Seq<char>, Seq<char>)>, Seq<char>>,
) -> Result<Seq<(Seq<char>, Seq<char>)>, Seq<char>> {
    match r {
        Ok(rest) => Ok(acc + rest),
        Err(e) => Err(e),
    }
}

/// The entries of the lines from `k` on, in order; the first value that
/// does not decode gives the error.
pub open spec fn yaml_entries_from(lines: Seq<Seq<char>>, k: int) -> Result<
    Seq<(Seq<char>, Seq<char>)>,
    Seq<char>,
>
    decreases lines.len() - k,
{
    if k < 0 || k >= lines.len() {
        Ok(Seq::empty())
    } else {
        match yaml_line(lines[k]) {
            None => yaml_entries_from(lines, k + 1),
            Some((key, raw)) => match yaml_scalar(raw, (k + 1) as nat) {
                Err(e) => Err(e),
                Ok(v) => prepend_entries(seq![(key, v)], yaml_entries_from(lines, k + 1)),
            },
        }
    }
}

/// The `key: value` entries of a flat YAML document, line by line.
pub open spec fn flat_yaml(document: Seq<char>) -> Result<Seq<(Seq<char>, Seq<char>)>, Seq<char>> {
    yaml_entries_from(split(document, CharClass::Exactly('\n')), 0)
}

pub open spec fn entry_views(e: Seq<(Vec<char>, Vec<char>)>) -> Seq<(Seq<char>, Seq<char>)> {
    e.map_values(|x: (Vec<char>, Vec<char>)| (x.0@, x.1@))
}

fn exec_yaml_line(raw: &[char]) -> (r: Option<(Vec<char>, Vec<char>)>)
    ensures
        match r {
            Some((k, v)) => yaml_line(raw@) == Some((k@, v@)),
            None => yaml_line(raw@) is None,
        },
{
    let line = trim_chars(raw);
    let hash = chars_of("#");
    if line.len() == 0 || starts_with_chars(line.as_slice(), hash.as_slice()) || is_literal(
        line.as_slice(),
        "---",
    ) || is_literal(line.as_slice(), "...") {
        return None;
    }
    let i = index_in_class(line.as_slice(), 0, CharClass::Exactly(':'));
    assert(line@.skip(0) =~= line@);
    if i == line.len() {
        return None;
    }
    let head = copy_range(line.as_slice(), 0, i);
    assert(head@ =~= line@.take(i as int));
    let head = trim_chars(head.as_slice());
    let head = strip_chars(head.as_slice(), CharClass::Quote);
    let key = lower_chars(head.as_slice());
    if key.len() == 0 {
        return None;
    }
    let value = copy_range(line.as_slice(), i + 1, line.len());
    assert(value@ =~= line@.skip(i + 1));
    Some((key, value))
}

/// Parses `connection.yml` into its entries, in order.
pub fn parse_flat_yaml(document: &[char]) -> (r: Result<Vec<(Vec<char>, Vec<char>)>, String>)
    ensures
        match r {
            Ok(e) => flat_yaml(document@) == Ok::<_, Seq<char>>(entry_views(e@)),
            Err(m) => flat_yaml(document@) == Err::<Seq<(Seq<char>, Seq<char>)>, _>(m@),
        },
{
    let lines = split_chars(document, CharClass::Exactly('\n'));
    let ghost lv = views(lines@);
    let mut entries: Vec<(Vec<char>, Vec<char>)> = Vec::new();
    let mut k: usize = 0;
    while k < lines.len()
        invariant
            k <= lines@.len(),
            lv == views(lines@),
            lv.len() == lines@.len(),
            lv == split(document@, CharClass::Exactly('\n')),
            prepend_entries(entry_views(entries@), yaml_entries_from(lv, k as int)) == flat_yaml(
                document@,
            ),
        decreases lines@.len() - k,
    {
        assert(lv[k as int] == lines@[k as int]@);
        match exec_yaml_line(lines[k].as_slice()) {
            None => {},
            Some((key, raw)) => {
                match decode_yaml_scalar(raw.as_slice(), k + 1) {
                    Err(e) => {
                        return Err(e);
                    },
                    Ok(v) => {
                        let ghost before = entries@;
                        let ghost kv = key@;
                        let ghost vv = v@;
                        entries.push((key, v));
                        assert(entry_views(entries@) =~= entry_views(before) + seq![(kv, vv)]);
                        proof {
                            match yaml_entries_from(lv, k + 1) {
                                Ok(rest) => {
                                    assert(entry_views(before) + (seq![(kv, vv)] + rest) =~= (
                                    entry_views(before) + seq![(kv, vv)]) + rest);
                                },
                                Err(_) => {},
                            }
                        }
                    },
                }
            },
        }
        k = k + 1;
    }
    assert(entry_views(entries@) + Seq::<(Seq<char>, Seq<char>)>::empty() =~= entry_views(
        entries@,
    ));
    Ok(entries)
}

/// The value of the last entry with `key` (later lines override earlier ones).
pub open spec fn yaml_lookup(entries: Seq<(Seq<char>, Seq<char>)>, key: Seq<char>) -> Option<
    Seq<char>,
>
    decreases entries.len(),
{
    if entries.len() == 0 {
        None
    } else if entries.last().0 == key {
        Some(entries.last().1)
    } else {
        yaml_lookup(entries.drop_last(), key)
    }
}

/// The value of the first of `aliases` that has one.
pub open spec fn first_of(entries: Seq<(Seq<char>, Seq<char>)>, aliases: Seq<Seq<char>>) -> Option<
    Seq<char>,
>
    decreases aliases.len(),
{
    if aliases.len() == 0 {
        None
    } else {
        match yaml_lookup(entries, aliases[0]) {
            Some(v) => Some(v),
            None => first_of(entries, aliases.drop_first()),
        }
    }
}

fn lookup(entries: &Vec<(Vec<char>, Vec<char>)>, key: &[char]) -> (r: Option<Vec<char>>)
    ensures
        match r {
            Some(v) => yaml_lookup(entry_views(entries@), key@) == Some(v@),
            None => yaml_lookup(entry_views(entries@), key@) is None,
        },
{
    let ghost ev = entry_views(entries@);
    let mut j: usize = entries.len();
    assert(ev.take(j as int) =~= ev);
    while j > 0
        invariant
            j <= entries@.len(),
            ev == entry_views(entries@),
            ev.len() == entries@.len(),
            yaml_lookup(ev.take(j as int), key@) == yaml_lookup(ev, key@),
        decreases j,
    {
        assert(ev.take(j as int).last() == ev[j - 1]);
        assert(ev.take(j as int).drop_last() =~= ev.take(j - 1));
        if chars_equal(entries[j - 1].0.as_slice(), key) {
            return Some(copy_all(entries[j - 1].1.as_slice()));
        }
        j = j - 1;
    }
    None
}

fn first_value(entries: &Vec<(Vec<char>, Vec<char>)>, aliases: &Vec<Vec<char>>) -> (r: Option<
    Vec<char>,
>)
    ensures
        match r {
            Some(v) => first_of(entry_views(entries@), views(aliases@)) == Some(v@),
            None => first_of(entry_views(entries@), views(aliases@)) is None,
        },
{
    let ghost av = views(aliases@);
    let mut i: usize = 0;
    assert(av.skip(0) =~= av);
    while i < aliases.len()
        invariant
            i <= aliases@.len(),
            av == views(aliases@),
            av.len() == aliases@.len(),
            first_of(entry_views(entries@), av.skip(i as int)) == first_of(
                entry_views(entries@),
                av,
            ),
        decreases aliases@.len() - i,
    {
        assert(av.skip(i as int)[0] == aliases@[i as int]@);
        assert(av.skip(i as int).drop_first() =~= av.skip(i + 1));
        match lookup(entries, aliases[i].as_slice()) {
            Some(v) => {
                return Some(v);
            },
            None => {},
        }
        i = i + 1;
    }
    None
}


/// Where Code Server listens, with its password, protocol and URL path.
#[derive(Clone, Debug)]
pub struct ConnectionInfo {
    pub host: String,
    pub port: u16,
    pub password: Option<String>,
    pub protocol: String,
    pub path: String,
}

pub open spec fn is_host_char(c: char) -> bool {
    is_ascii_alphanumeric(c) || c == '.' || c == '-' || c == '_' || c == ':' || c == '%'
}

/// A host name or address that may be handed to `ssh -L`.
pub open spec fn valid_host(host: Seq<char>) -> bool {
    host.len() > 0 && forall|i: int| 0 <= i < host.len() ==> is_host_char(#[trigger] host[i])
}

pub fn validate_connection_host(host: &[char]) -> (r: Result<(), String>)
    ensures
        match r {
            Ok(()) => valid_host(host@),
            Err(m) => !valid_host(host@) && m@ == "connection.yml contains an invalid host"@,
        },
{
    let mut ok = host.len() > 0;
    let mut i: usize = 0;
    while i < host.len()
        invariant
            i <= host@.len(),
            ok == (host@.len() > 0 && forall|j: int| 0 <= j < i ==> is_host_char(#[trigger] host@[j])),
        decreases host@.len() - i,
    {
        let c = host[i];
        if !(char_is_ascii_alphanumeric(c) || c == '.' || c == '-' || c == '_' || c == ':' || c
            == '%') {
            ok = false;
        }
        i = i + 1;
    }
    if ok {
        Ok(())
    } else {
        Err("connection.yml contains an invalid host".to_string())
    }
}

pub open spec fn has_control_break(s: Seq<char>) -> bool {
    exists|i: int| 0 <= i < s.len() && is_control_break(#[trigger] s[i])
}

pub fn contains_control_break(s: &[char]) -> (r: bool)
    ensures
        r == has_control_break(s@),
{
    let mut i: usize = 0;
    while i < s.len()
        invariant
            i <= s@.len(),
            forall|j: int| 0 <= j < i ==> !is_control_break(#[trigger] s@[j]),
        decreases s@.len() - i,
    {
        if char_is_control_break(s[i]) {
            return true;
        }
        i = i + 1;
    }
    false
}

/// A URL without its scheme and authority (`/` when nothing follows them),
/// or the text itself when it has no `://`.
pub open spec fn path_after_authority(path: Seq<char>) -> Seq<char> {
    match find(path, "://"@) {
        Some(i) => {
            let rest = path.skip(i + "://"@.len());
            let j = first_in_class(rest, CharClass::Exactly('/'));
            if j >= 0 {
                rest.skip(j)
            } else {
                "/"@
            }
        },
        None => path,
    }
}

fn exec_path_after_authority(path: &[char]) -> (r: Vec<char>)
    ensures
        r@ == path_after_authority(path@),
{
    let sep = chars_of("://");
    match find_chars(path, sep.as_slice()) {
        Some(i) => {
            assert(i + sep.len() <= path.len());
            let rest = copy_range(path, i + sep.len(), path.len());
            assert(rest@ =~= path@.skip(i + "://"@.len()));
            let j = index_in_class(rest.as_slice(), 0, CharClass::Exactly('/'));
            assert(rest@.skip(0) =~= rest@);
            if j < rest.len() {
                let t = copy_range(rest.as_slice(), j, rest.len());
                assert(t@ =~= rest@.skip(j as int));
                t
            } else {
                chars_of("/")
            }
        },
        None => copy_all(path),
    }
}

/// The URL path of `connection.yml`: a full URL loses its scheme and
/// authority; the result always starts with `/`.
pub open spec fn url_path(path: Seq<char>) -> Result<Seq<char>, Seq<char>> {
    if has_control_break(path) {
        Err("connection.yml contains an invalid URL path"@)
    } else {
        let p = path_after_authority(path);
        if p.len() == 0 {
            Ok("/"@)
        } else if starts_with(p, "/"@) {
            Ok(p)
        } else {
            Ok("/"@ + p)
        }
    }
}

pub fn normalize_url_path(path: &[char]) -> (r: Result<Vec<char>, String>)
    ensures
        match r {
            Ok(p) => url_path(path@) == Ok::<Seq<char>, Seq<char>>(p@),
            Err(m) => url_path(path@) == Err::<Seq<char>, Seq<char>>(m@),
        },
{
    if contains_control_break(path) {
        return Err("connection.yml contains an invalid URL path".to_string());
    }
    let p = exec_path_after_authority(path);
    let slash = chars_of("/");
    if p.len() == 0 {
        Ok(slash)
    } else if starts_with_chars(p.as_slice(), slash.as_slice()) {
        Ok(p)
    } else {
        let mut out = slash;
        push_all(&mut out, p.as_slice());
        Ok(out)
    }
}

pub open spec fn host_aliases() -> Seq<Seq<char>> {
    seq!["host"@, "hostname"@, "code_server_host"@, "code-server-host"@]
}

pub open spec fn port_aliases() -> Seq<Seq<char>> {
    seq!["port"@, "code_server_port"@, "code-server-port"@, "server_port"@]
}

pub open spec fn password_aliases() -> Seq<Seq<char>> {
    seq!["password"@, "code_server_password"@, "code-server-password"@, "connection_password"@]
}

pub open spec fn protocol_aliases() -> Seq<Seq<char>> {
    seq!["protocol"@, "scheme"@]
}

pub open spec fn path_aliases() -> Seq<Seq<char>> {
    seq!["path"@, "url_path"@, "base_path"@, "connection_path"@, "url"@]
}

/// The host, port, password, protocol and path that a `connection.yml`
/// names, or why it cannot be used.
pub open spec fn connection_of(document: Seq<char>) -> Result<
    (Seq<char>, nat, Option<Seq<char>>, Seq<char>, Seq<char>),
    Seq<char>,
> {
    match flat_yaml(document) {
        Err(e) => Err(e),
        Ok(values) => match first_of(values, host_aliases()) {
            None => Err("connection.yml has no host"@),
            Some(host) => if !valid_host(host) {
                Err("connection.yml contains an invalid host"@)
            } else {
                match first_of(values, port_aliases()) {
                    None => Err("connection.yml has no port"@),
                    Some(port_text) => match parse_unsigned(port_text, u16::MAX as nat) {
                        None => Err("connection.yml contains an invalid port"@),
                        Some(port) => if port == 0 {
                            Err("connection.yml contains port 0"@)
                        } else {
                            let password = match first_of(values, password_aliases()) {
                                Some(p) => if p.len() > 0 {
                                    Some(p)
                                } else {
                                    None
                                },
                                None => None,
                            };
                            let protocol = lower_seq(
                                match first_of(values, protocol_aliases()) {
                                    Some(p) => p,
                                    None => "http"@,
                                },
                            );
                            if protocol != "http"@ && protocol != "https"@ {
                                Err("connection.yml uses unsupported protocol "@ + protocol)
                            } else {
                                match first_of(values, path_aliases()) {
                                    Some(p) => match url_path(p) {
                                        Ok(path) => Ok((host, port, password, protocol, path)),
                                        Err(e) => Err(e),
                                    },
                                    None => Ok((host, port, password, protocol, "/"@)),
                                }
                            }
                        },
                    },
                }
            },
        },
    }
}

pub open spec fn connection_view(c: ConnectionInfo) -> (
    Seq<char>,
    nat,
    Option<Seq<char>>,
    Seq<char>,
    Seq<char>,
) {
    (c.host@, c.port as nat, opt_view(c.password), c.protocol@, c.path@)
}

fn aliases(names: &[&str]) -> (r: Vec<Vec<char>>)
    ensures
        views(r@) == names@.map_values(|n: &str| n@),
{
    let mut out: Vec<Vec<char>> = Vec::new();
    let mut i: usize = 0;
    while i < names.len()
        invariant
            i <= names@.len(),
            views(out@) =~= names@.take(i as int).map_values(|n: &str| n@),
        decreases names@.len() - i,
    {
        let ghost before = out@;
        out.push(chars_of(names[i]));
        assert(views(out@) =~= views(before).push(names@[i as int]@));
        i = i + 1;
    }
    assert(names@.take(i as int) =~= names@);
    out
}

/// Reads `connection.yml`.
pub fn parse_connection_document(document: &[char]) -> (r: Result<ConnectionInfo, String>)
    ensures
        match r {
            Ok(c) => connection_of(document@) == Ok::<_, Seq<char>>(connection_view(c)),
            Err(m) => connection_of(document@) == Err::<
                (Seq<char>, nat, Option<Seq<char>>, Seq<char>, Seq<char>),
                Seq<char>,
            >(m@),
        },
{
    let values = parse_flat_yaml(document)?;
    let host_names = ["host", "hostname", "code_server_host", "code-server-host"];
    let a = aliases(&host_names);
    assert(views(a@) =~= host_aliases());
    let host = match first_value(&values, &a) {
        Some(h) => h,
        None => return Err("connection.yml has no host".to_string()),
    };
    validate_connection_host(host.as_slice())?;
    let port_names = ["port", "code_server_port", "code-server-port", "server_port"];
    let a = aliases(&port_names);
    assert(views(a@) =~= port_aliases());
    let port_text = match first_value(&values, &a) {
        Some(p) => p,
        None => return Err("connection.yml has no port".to_string()),
    };
    let port = match parse_decimal(port_text.as_slice(), u16::MAX as u64) {
        Some(p) => p as u16,
        None => return Err("connection.yml contains an invalid port".to_string()),
    };
    if port == 0 {
        return Err("connection.yml contains port 0".to_string());
    }
    let password_names = [
        "password",
        "code_server_password",
        "code-server-password",
        "connection_password",
    ];
    let a = aliases(&password_names);
    assert(views(a@) =~= password_aliases());
    let password = match first_value(&values, &a) {
        Some(p) => if p.len() > 0 {
            Some(string_of(p.as_slice()))
        } else {
            None
        },
        None => None,
    };
    let protocol_names = ["protocol", "scheme"];
    let a = aliases(&protocol_names);
    assert(views(a@) =~= protocol_aliases());
    let protocol = match first_value(&values, &a) {
        Some(p) => lower_chars(p.as_slice()),
        None => lower_chars(chars_of("http").as_slice()),
    };
    if !is_literal(protocol.as_slice(), "http") && !is_literal(protocol.as_slice(), "https") {
        return Err(text_then("connection.yml uses unsupported protocol ", protocol.as_slice()));
    }
    let path_names = ["path", "url_path", "base_path", "connection_path", "url"];
    let a = aliases(&path_names);
    assert(views(a@) =~= path_aliases());
    let path = match first_value(&values, &a) {
        Some(p) => normalize_url_path(p.as_slice())?,
        None => chars_of("/"),
    };
    Ok(
        ConnectionInfo {
            host: string_of(host.as_slice()),
            port,
            password,
            protocol: string_of(protocol.as_slice()),
            path: string_of(path.as_slice()),
        },
    )
}

pub open spec fn open_url(protocol: Seq<char>, local_port: u16, path: Seq<char>) -> Seq<char> {
    protocol + "://127.0.0.1:"@ + decimal(local_port as nat) + path
}

/// The session opened at `local_port` for the connection: the URL is the
/// connection's protocol at `127.0.0.1:local_port` with its path.
pub fn open_result(session_id: &str, local_port: u16, connection: ConnectionInfo) -> (r:
    OpenSessionResult)
    ensures
        r.session_id@ == session_id@,
        r.local_port == local_port,
        r.url@ == open_url(connection.protocol@, local_port, connection.path@),
        r.remote_host@ == connection.host@,
        r.remote_port == connection.port,
        opt_view(r.password) == opt_view(connection.password),
{
    let mut url = chars_of(connection.protocol.as_str());
    let middle = chars_of("://127.0.0.1:");
    push_all(&mut url, middle.as_slice());
    let digits = decimal_chars(local_port as u64);
    push_all(&mut url, digits.as_slice());
    let path = chars_of(connection.path.as_str());
    push_all(&mut url, path.as_slice());
    OpenSessionResult {
        session_id: session_id.to_string(),
        local_port,
        url: string_of(url.as_slice()),
        remote_host: connection.host,
        remote_port: connection.port,
        password: connection.password,
    }
}

} // verus!
