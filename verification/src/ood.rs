//! The session records that Open OnDemand keeps in its database directory,
//! and what Butler derives from one: whether it is a Code Server session,
//! its display name and whether its IDs are safe in remote paths.
use vstd::prelude::*;
use crate::models::opt_view;
use crate::text::{
    ascii_upper, char_is_ascii_alphanumeric, first_in_class, lemma_first_in_class_bounds, char_is_control_break, chars_equal, chars_of, contains,
    contains_chars, copy_all, copy_range, is_ascii_alphanumeric,
    is_control_break, lower_chars, lower_seq, occurs_at, push_all, split, split_chars, starts_with,
    starts_with_chars, string_of, trim, trim_chars, views, CharClass,
};

verus! {

/// A JSON value as the session-record logic reads it.
#[derive(Clone, Debug)]
pub enum JsonField {
    Text(String),
    /// A number, in the text that `serde_json` writes for it.
    Number(String),
    Flag(bool),
    /// `null`, an array or an object.
    Other,
}

/// One member of a JSON object.
#[derive(Clone, Debug)]
pub struct JsonEntry {
    pub key: String,
    pub field: JsonField,
}

pub enum JsonFieldView {
    Text(Seq<char>),
    Number(Seq<char>),
    Flag(bool),
    Other,
}

pub open spec fn json_field_view(f: JsonField) -> JsonFieldView {
    match f {
        JsonField::Text(t) => JsonFieldView::Text(t@),
        JsonField::Number(n) => JsonFieldView::Number(n@),
        JsonField::Flag(b) => JsonFieldView::Flag(b),
        JsonField::Other => JsonFieldView::Other,
    }
}

pub open spec fn json_entries_view(e: Seq<JsonEntry>) -> Seq<(Seq<char>, JsonFieldView)> {
    e.map_values(|x: JsonEntry| (x.key@, json_field_view(x.field)))
}

/// What `serde_json::from_slice::<serde_json::Value>` makes of `json`: the
/// members of the object it holds, in the order of `serde_json::Map`, or
/// `None` when it holds another value, or the message of its error.
pub uninterp spec fn json_object_entries(json: Seq<u8>) -> Result<
    Option<Seq<(Seq<char>, JsonFieldView)>>,
    Seq<char>,
>;

/// Parses `json` with `serde_json::from_slice::<serde_json::Value>` and
/// hands out the members of the object it holds, each value by its kind; the
/// contract claims only that the result is that function's, named
/// `json_object_entries`.
#[verifier::external_body]
fn parse_json_object(json: &[u8]) -> (r: Result<Option<Vec<JsonEntry>>, String>)
    ensures
        match r {
            Ok(Some(e)) => json_object_entries(json@) == Ok::<_, Seq<char>>(
                Some(json_entries_view(e@)),
            ),
            Ok(None) => json_object_entries(json@) == Ok::<
                Option<Seq<(Seq<char>, JsonFieldView)>>,
                Seq<char>,
            >(None),
            Err(m) => json_object_entries(json@) == Err::<
                Option<Seq<(Seq<char>, JsonFieldView)>>,
                Seq<char>,
            >(m@),
        },
{
    let value: serde_json::Value = serde_json::from_slice(json).map_err(|e| e.to_string())?;
    Ok(value.as_object().map(|object| object.iter().map(|(key, value)| JsonEntry {
        key: key.clone(),
        field: match value {
            serde_json::Value::String(text) => JsonField::Text(text.clone()),
            serde_json::Value::Number(number) => JsonField::Number(number.to_string()),
            serde_json::Value::Bool(flag) => JsonField::Flag(*flag),
            _ => JsonField::Other,
        },
    }).collect()))
}

/// The value of the member `key`.
pub open spec fn json_get(entries: Seq<(Seq<char>, JsonFieldView)>, key: Seq<char>) -> Option<
    JsonFieldView,
>
    decreases entries.len(),
{
    if entries.len() == 0 {
        None
    } else if entries[0].0 == key {
        Some(entries[0].1)
    } else {
        json_get(entries.drop_first(), key)
    }
}

/// A string, number or boolean member as text.
pub open spec fn json_text(entries: Seq<(Seq<char>, JsonFieldView)>, key: Seq<char>) -> Option<
    Seq<char>,
> {
    match json_get(entries, key) {
        Some(JsonFieldView::Text(t)) => Some(t),
        Some(JsonFieldView::Number(n)) => Some(n),
        Some(JsonFieldView::Flag(b)) => Some(
            if b {
                "true"@
            } else {
                "false"@
            },
        ),
        _ => None,
    }
}

fn lookup<'a>(entries: &'a Vec<JsonEntry>, key: &str) -> (r: Option<&'a JsonField>)
    ensures
        match r {
            Some(f) => json_get(json_entries_view(entries@), key@) == Some(json_field_view(*f)),
            None => json_get(json_entries_view(entries@), key@) is None,
        },
{
    let ghost ev = json_entries_view(entries@);
    let k = chars_of(key);
    let mut i: usize = 0;
    assert(ev.skip(0) =~= ev);
    while i < entries.len()
        invariant
            i <= entries@.len(),
            ev == json_entries_view(entries@),
            ev.len() == entries@.len(),
            k@ == key@,
            json_get(ev.skip(i as int), key@) == json_get(ev, key@),
        decreases entries@.len() - i,
    {
        assert(ev.skip(i as int)[0] == ev[i as int]);
        assert(ev.skip(i as int).drop_first() =~= ev.skip(i + 1));
        let name = chars_of(entries[i].key.as_str());
        if chars_equal(name.as_slice(), k.as_slice()) {
            return Some(&entries[i].field);
        }
        i = i + 1;
    }
    None
}

fn object_text(entries: &Vec<JsonEntry>, key: &str) -> (r: Option<Vec<char>>)
    ensures
        match r {
            Some(t) => json_text(json_entries_view(entries@), key@) == Some(t@),
            None => json_text(json_entries_view(entries@), key@) is None,
        },
{
    match lookup(entries, key) {
        Some(JsonField::Text(t)) => Some(chars_of(t.as_str())),
        Some(JsonField::Number(n)) => Some(chars_of(n.as_str())),
        Some(JsonField::Flag(b)) => Some(
            if *b {
                chars_of("true")
            } else {
                chars_of("false")
            },
        ),
        _ => None,
    }
}

/// An Open OnDemand session record.
#[derive(Clone, Debug)]
pub struct OodSessionRecord {
    pub id: String,
    pub cluster_id: String,
    pub job_id: String,
    pub token: String,
    pub title: Option<String>,
    pub cache_completed: bool,
}

pub struct OodRecordView {
    pub id: Seq<char>,
    pub cluster_id: Seq<char>,
    pub job_id: Seq<char>,
    pub token: Seq<char>,
    pub title: Option<Seq<char>>,
    pub cache_completed: bool,
}

pub open spec fn ood_view(r: OodSessionRecord) -> OodRecordView {
    OodRecordView {
        id: r.id@,
        cluster_id: r.cluster_id@,
        job_id: r.job_id@,
        token: r.token@,
        title: opt_view(r.title),
        cache_completed: r.cache_completed,
    }
}

pub open spec fn required_text(
    entries: Seq<(Seq<char>, JsonFieldView)>,
    key: Seq<char>,
    file: Seq<char>,
) -> Result<Seq<char>, Seq<char>> {
    match json_text(entries, key) {
        Some(t) => if trim(t).len() > 0 {
            Ok(t)
        } else {
            Err("OOD database file "@ + file + " has no "@ + key)
        },
        None => Err("OOD database file "@ + file + " has no "@ + key),
    }
}

/// The record that the database file `file` holds: `id` (the file name
/// when absent or empty), `cluster_id` (empty when absent), `job_id` and
/// `token` (both required, not blank), `title` (dropped when blank) and
/// `cache_completed` (false unless a boolean says so).
pub open spec fn ood_record_of(file: Seq<char>, json: Seq<u8>) -> Result<OodRecordView, Seq<char>> {
    ood_record_from(file, json_object_entries(json))
}

/// What `parse_json_object` gives, as the contracts see it.
pub open spec fn parsed_view(parsed: Result<Option<Vec<JsonEntry>>, String>) -> Result<
    Option<Seq<(Seq<char>, JsonFieldView)>>,
    Seq<char>,
> {
    match parsed {
        Ok(Some(e)) => Ok(Some(json_entries_view(e@))),
        Ok(None) => Ok(None),
        Err(m) => Err(m@),
    }
}

/// The record of the database file `file` whose JSON parsed as `parsed`:
/// the members of an object, another value (`None`), or the parser's error.
pub open spec fn ood_record_from(
    file: Seq<char>,
    parsed: Result<Option<Seq<(Seq<char>, JsonFieldView)>>, Seq<char>>,
) -> Result<OodRecordView, Seq<char>> {
    match parsed {
        Err(e) => Err("malformed OOD database file "@ + file + ": "@ + e),
        Ok(None) => Err("non-object OOD database file "@ + file),
        Ok(Some(entries)) => {
            let id = match json_text(entries, "id"@) {
                Some(t) => if t.len() > 0 {
                    t
                } else {
                    file
                },
                None => file,
            };
            let cluster_id = match json_text(entries, "cluster_id"@) {
                Some(t) => t,
                None => Seq::empty(),
            };
            let title = match json_text(entries, "title"@) {
                Some(t) => if trim(t).len() > 0 {
                    Some(t)
                } else {
                    None
                },
                None => None,
            };
            let cache_completed = match json_get(entries, "cache_completed"@) {
                Some(JsonFieldView::Flag(b)) => b,
                _ => false,
            };
            match required_text(entries, "job_id"@, file) {
                Err(e) => Err(e),
                Ok(job_id) => match required_text(entries, "token"@, file) {
                    Err(e) => Err(e),
                    Ok(token) => Ok(
                        OodRecordView { id, cluster_id, job_id, token, title, cache_completed },
                    ),
                },
            }
        },
    }
}

fn exec_required_text(entries: &Vec<JsonEntry>, key: &str, file: &[char]) -> (r: Result<
    Vec<char>,
    String,
>)
    ensures
        match r {
            Ok(t) => required_text(json_entries_view(entries@), key@, file@) == Ok::<
                Seq<char>,
                Seq<char>,
            >(t@),
            Err(m) => required_text(json_entries_view(entries@), key@, file@) == Err::<
                Seq<char>,
                Seq<char>,
            >(m@),
        },
{
    match object_text(entries, key) {
        Some(t) => {
            let trimmed = trim_chars(t.as_slice());
            if trimmed.len() > 0 {
                return Ok(t);
            }
        },
        None => {},
    }
    let mut m = chars_of("OOD database file ");
    push_all(&mut m, file);
    let mid = chars_of(" has no ");
    push_all(&mut m, mid.as_slice());
    let k = chars_of(key);
    push_all(&mut m, k.as_slice());
    Err(string_of(m.as_slice()))
}

/// Reads the database file `file` of Open OnDemand.
pub fn parse_ood_session_record(file: &[char], json: &[u8]) -> (r: Result<OodSessionRecord, String>)
    ensures
        match r {
            Ok(rec) => ood_record_of(file@, json@) == Ok::<_, Seq<char>>(ood_view(rec)),
            Err(m) => ood_record_of(file@, json@) == Err::<OodRecordView, _>(m@),
        },
{
    let parsed = parse_json_object(json);
    record_from_json(file, parsed)
}

/// Builds the record of the database file `file` from what its JSON parsed
/// as.
pub fn record_from_json(file: &[char], parsed: Result<Option<Vec<JsonEntry>>, String>) -> (r: Result<
    OodSessionRecord,
    String,
>)
    ensures
        match r {
            Ok(rec) => ood_record_from(file@, parsed_view(parsed)) == Ok::<_, Seq<char>>(
                ood_view(rec),
            ),
            Err(m) => ood_record_from(file@, parsed_view(parsed)) == Err::<OodRecordView, _>(m@),
        },
{
    let entries = match parsed {
        Err(e) => {
            let mut m = chars_of("malformed OOD database file ");
            push_all(&mut m, file);
            let mid = chars_of(": ");
            push_all(&mut m, mid.as_slice());
            let detail = chars_of(e.as_str());
            push_all(&mut m, detail.as_slice());
            return Err(string_of(m.as_slice()));
        },
        Ok(None) => {
            let mut m = chars_of("non-object OOD database file ");
            push_all(&mut m, file);
            return Err(string_of(m.as_slice()));
        },
        Ok(Some(entries)) => entries,
    };
    let id = match object_text(&entries, "id") {
        Some(t) => if t.len() > 0 {
            t
        } else {
            copy_all(file)
        },
        None => copy_all(file),
    };
    let cluster_id = match object_text(&entries, "cluster_id") {
        Some(t) => t,
        None => Vec::new(),
    };
    let job_id = exec_required_text(&entries, "job_id", file)?;
    let token = exec_required_text(&entries, "token", file)?;
    let title = match object_text(&entries, "title") {
        Some(t) => {
            let trimmed = trim_chars(t.as_slice());
            if trimmed.len() > 0 {
                Some(string_of(t.as_slice()))
            } else {
                None
            }
        },
        None => None,
    };
    let cache_completed = match lookup(&entries, "cache_completed") {
        Some(JsonField::Flag(b)) => *b,
        _ => false,
    };
    Ok(
        OodSessionRecord {
            id: string_of(id.as_slice()),
            cluster_id: string_of(cluster_id.as_slice()),
            job_id: string_of(job_id.as_slice()),
            token: string_of(token.as_slice()),
            title,
            cache_completed,
        },
    )
}


/// The spellings by which a token or title names Code Server.
pub open spec fn code_server_needles() -> Seq<Seq<char>> {
    seq!["vscode"@, "code-server"@, "code_server"@, "code server"@, "codeserver"@]
}

pub open spec fn mentions_code_server(text: Seq<char>) -> bool {
    exists|i: int| 0 <= i < code_server_needles().len() && contains(text, #[trigger] code_server_needles()[i])
}

pub open spec fn title_or_empty(title: Option<Seq<char>>) -> Seq<char> {
    match title {
        Some(t) => t,
        None => Seq::empty(),
    }
}

/// Whether the record is a Code Server session: its token is one of
/// `app_tokens` when they are given, else its token or title mentions Code
/// Server in any ASCII case.
pub open spec fn is_code_server(record: OodRecordView, app_tokens: Seq<Seq<char>>) -> bool {
    if app_tokens.len() > 0 {
        exists|i: int| 0 <= i < app_tokens.len() && #[trigger] app_tokens[i] == record.token
    } else {
        mentions_code_server(lower_seq(record.token + " "@ + title_or_empty(record.title)))
    }
}

pub open spec fn string_views(v: Seq<String>) -> Seq<Seq<char>> {
    v.map_values(|s: String| s@)
}

pub fn is_code_server_session(record: &OodSessionRecord, app_tokens: &[String]) -> (r: bool)
    ensures
        r == is_code_server(ood_view(*record), string_views(app_tokens@)),
{
    let ghost tv = string_views(app_tokens@);
    let token = chars_of(record.token.as_str());
    if app_tokens.len() > 0 {
        let mut i: usize = 0;
        while i < app_tokens.len()
            invariant
                i <= app_tokens@.len(),
                tv == string_views(app_tokens@),
                token@ == record.token@,
                forall|j: int| 0 <= j < i ==> tv[j] != record.token@,
            decreases app_tokens@.len() - i,
        {
            let t = chars_of(app_tokens[i].as_str());
            if chars_equal(t.as_slice(), token.as_slice()) {
                assert(tv[i as int] == record.token@);
                return true;
            }
            i = i + 1;
        }
        return false;
    }
    let mut text = token;
    let space = chars_of(" ");
    push_all(&mut text, space.as_slice());
    match &record.title {
        Some(title) => {
            let t = chars_of(title.as_str());
            push_all(&mut text, t.as_slice());
        },
        None => {
            assert(text@ + Seq::<char>::empty() =~= text@);
        },
    }
    assert(text@ == record.token@ + " "@ + title_or_empty(opt_view(record.title)));
    let lower = lower_chars(text.as_slice());
    let ghost full = lower_seq(record.token@ + " "@ + title_or_empty(opt_view(record.title)));
    assert(lower@ == full);
    let needles = [
        chars_of("vscode"),
        chars_of("code-server"),
        chars_of("code_server"),
        chars_of("code server"),
        chars_of("codeserver"),
    ];
    let ghost nv = code_server_needles();
    assert(needles@.map_values(|v: Vec<char>| v@) =~= nv);
    let mut k: usize = 0;
    while k < 5
        invariant
            k <= 5,
            needles@.len() == 5,
            nv == code_server_needles(),
            lower@ == full,
            full == lower_seq(record.token@ + " "@ + title_or_empty(opt_view(record.title))),
            app_tokens@.len() == 0,
            needles@.map_values(|v: Vec<char>| v@) == nv,
            forall|j: int| 0 <= j < k ==> !contains(lower@, #[trigger] nv[j]),
        decreases 5 - k,
    {
        assert(nv[k as int] == needles@[k as int]@);
        if contains_chars(lower.as_slice(), needles[k].as_slice()) {
            assert(contains(lower@, code_server_needles()[k as int]));
            assert(mentions_code_server(full));
            return true;
        }
        k = k + 1;
    }
    false
}

/// With no application tokens, a record is a Code Server session exactly
/// when its token, a space and its title, in lower case, contain `vscode`,
/// `code-server`, `code_server`, `code server` or `codeserver`; so in
/// particular when its token or its title alone does, in any ASCII case
/// (the token `sys/bc_osc_codeserver` is one).
pub proof fn lemma_code_server_spellings(record: OodRecordView)
    ensures
        ({
            let text = lower_seq(record.token + " "@ + title_or_empty(record.title));
            is_code_server(record, Seq::empty()) <==> (contains(text, "vscode"@) || contains(
                text,
                "code-server"@,
            ) || contains(text, "code_server"@) || contains(text, "code server"@) || contains(
                text,
                "codeserver"@,
            ))
        }),
        forall|needle: Seq<char>|
            #![trigger contains(lower_seq(record.token), needle)]
            #![trigger contains(lower_seq(title_or_empty(record.title)), needle)]
            (needle == "vscode"@ || needle == "code-server"@ || needle == "code_server"@ || needle
                == "code server"@ || needle == "codeserver"@) && (contains(
                lower_seq(record.token),
                needle,
            ) || contains(lower_seq(title_or_empty(record.title)), needle)) ==> is_code_server(
                record,
                Seq::empty(),
            ),
{
    let front = record.token + " "@;
    let title = title_or_empty(record.title);
    let text = lower_seq(front + title);
    let nv = code_server_needles();
    assert(nv[0] == "vscode"@ && nv[1] == "code-server"@ && nv[2] == "code_server"@);
    assert(nv[3] == "code server"@ && nv[4] == "codeserver"@);
    assert(text =~= lower_seq(record.token) + lower_seq(" "@) + lower_seq(title));
    assert forall|needle: Seq<char>|
        #![trigger contains(lower_seq(record.token), needle)]
        #![trigger contains(lower_seq(title_or_empty(record.title)), needle)]
        (needle == "vscode"@ || needle == "code-server"@ || needle == "code_server"@ || needle
            == "code server"@ || needle == "codeserver"@) && (contains(
            lower_seq(record.token),
            needle,
        ) || contains(lower_seq(title_or_empty(record.title)), needle)) implies is_code_server(
            record,
            Seq::empty(),
        ) by {
        let lt = lower_seq(record.token);
        let ls = lower_seq(" "@);
        let lti = lower_seq(title);
        if contains(lt, needle) {
            let i = choose|i: int| occurs_at(lt, needle, i);
            assert(text.subrange(i, i + needle.len()) =~= lt.subrange(i, i + needle.len()));
            assert(occurs_at(text, needle, i));
        } else {
            let i = choose|i: int| occurs_at(lti, needle, i);
            let k = lt.len() + ls.len() + i;
            assert(text.subrange(k, k + needle.len()) =~= lti.subrange(i, i + needle.len()));
            assert(occurs_at(text, needle, k));
        }
        if needle == "vscode"@ {
            assert(contains(text, nv[0]));
        } else if needle == "code-server"@ {
            assert(contains(text, nv[1]));
        } else if needle == "code_server"@ {
            assert(contains(text, nv[2]));
        } else if needle == "code server"@ {
            assert(contains(text, nv[3]));
        } else {
            assert(contains(text, nv[4]));
        }
    }
    if contains(text, "vscode"@) {
        assert(contains(text, nv[0]));
    }
    if contains(text, "code-server"@) {
        assert(contains(text, nv[1]));
    }
    if contains(text, "code_server"@) {
        assert(contains(text, nv[2]));
    }
    if contains(text, "code server"@) {
        assert(contains(text, nv[3]));
    }
    if contains(text, "codeserver"@) {
        assert(contains(text, nv[4]));
    }
}

/// With application tokens given, a record is a Code Server session
/// exactly when its token is one of them, character for character; its
/// title then does not count.
pub proof fn lemma_code_server_tokens(record: OodRecordView, app_tokens: Seq<Seq<char>>)
    requires
        app_tokens.len() > 0,
    ensures
        is_code_server(record, app_tokens) <==> app_tokens.contains(record.token),
{
}

/// `s` after its last `/` (all of it when it has none).
pub open spec fn after_last_slash(s: Seq<char>) -> Seq<char>
    decreases s.len(),
{
    if s.len() == 0 {
        s
    } else if s.last() == '/' {
        Seq::empty()
    } else {
        after_last_slash(s.drop_last()).push(s.last())
    }
}

/// `s` without any repetition of `prefix` at its start.
pub open spec fn strip_prefix_repeatedly(s: Seq<char>, prefix: Seq<char>) -> Seq<char>
    decreases s.len(),
{
    if prefix.len() > 0 && starts_with(s, prefix) {
        strip_prefix_repeatedly(s.skip(prefix.len() as int), prefix)
    } else {
        s
    }
}

/// The non-empty words of `words`.
pub open spec fn nonempty_words(words: Seq<Seq<char>>) -> Seq<Seq<char>>
    decreases words.len(),
{
    if words.len() == 0 {
        words
    } else {
        let r = nonempty_words(words.drop_last());
        if words.last().len() > 0 {
            r.push(words.last())
        } else {
            r
        }
    }
}

/// What `char::to_uppercase` gives for `c`.
pub uninterp spec fn unicode_upper(c: char) -> Seq<char>;

/// The characters of `char::to_uppercase`. The contract claims that the
/// result is that function's, named `unicode_upper`, and that an ASCII
/// character maps to its ASCII upper case; the mapping of other characters
/// is left unsaid.
#[verifier::external_body]
fn char_uppercase(c: char) -> (r: Vec<char>)
    ensures
        r@ == unicode_upper(c),
        (c as u32) < 128 ==> r@ == seq![ascii_upper(c)],
{
    c.to_uppercase().collect()
}

/// A word with its first character in upper case and the rest in ASCII
/// lower case.
pub open spec fn capitalized(word: Seq<char>) -> Seq<char> {
    if word.len() == 0 {
        word
    } else {
        unicode_upper(word[0]) + lower_seq(word.drop_first())
    }
}

/// The words joined by single spaces.
pub open spec fn join_words(words: Seq<Seq<char>>) -> Seq<char>
    decreases words.len(),
{
    if words.len() == 0 {
        Seq::empty()
    } else if words.len() == 1 {
        words[0]
    } else {
        join_words(words.drop_last()) + " "@ + words.last()
    }
}

/// A readable name for an application token such as
/// `sys/bc_code_server`: its last path component without leading `bc_`,
/// split at `_` and `-`, each word capitalized, joined by spaces; `Code
/// Server` when no word is left.
pub open spec fn humanized(token: Seq<char>) -> Seq<char> {
    let name = strip_prefix_repeatedly(after_last_slash(token), "bc_"@);
    let words = nonempty_words(split(name, CharClass::WordBreak));
    if words.len() == 0 {
        "Code Server"@
    } else {
        join_words(words.map_values(|w: Seq<char>| capitalized(w)))
    }
}

/// Text made of ASCII characters only.
pub open spec fn ascii_text(s: Seq<char>) -> bool {
    forall|i: int| 0 <= i < s.len() ==> (#[trigger] s[i] as u32) < 128
}

/// `capitalized` for a word that starts with an ASCII character.
pub open spec fn ascii_capitalized(word: Seq<char>) -> Seq<char> {
    if word.len() == 0 {
        word
    } else {
        seq![ascii_upper(word[0])] + lower_seq(word.drop_first())
    }
}

/// `humanized` for an ASCII token, where upper case is ASCII upper case.
pub open spec fn humanized_ascii(token: Seq<char>) -> Seq<char> {
    let name = strip_prefix_repeatedly(after_last_slash(token), "bc_"@);
    let words = nonempty_words(split(name, CharClass::WordBreak));
    if words.len() == 0 {
        "Code Server"@
    } else {
        join_words(words.map_values(|w: Seq<char>| ascii_capitalized(w)))
    }
}

pub proof fn lemma_after_last_slash_ascii(s: Seq<char>)
    requires
        ascii_text(s),
    ensures
        ascii_text(after_last_slash(s)),
    decreases s.len(),
{
    if s.len() > 0 && s.last() != '/' {
        assert(ascii_text(s.drop_last())) by {
            assert forall|i: int| 0 <= i < s.drop_last().len() implies (#[trigger] s.drop_last()[i]
                as u32) < 128 by {
                assert(s.drop_last()[i] == s[i]);
            }
        }
        lemma_after_last_slash_ascii(s.drop_last());
        let r = after_last_slash(s.drop_last());
        assert forall|i: int| 0 <= i < r.push(s.last()).len() implies (#[trigger] r.push(
            s.last(),
        )[i] as u32) < 128 by {
            if i < r.len() {
                assert(r.push(s.last())[i] == r[i]);
            } else {
                assert(s[s.len() - 1] == s.last());
            }
        }
    }
}

pub proof fn lemma_strip_prefix_ascii(s: Seq<char>, prefix: Seq<char>)
    requires
        ascii_text(s),
    ensures
        ascii_text(strip_prefix_repeatedly(s, prefix)),
    decreases s.len(),
{
    if prefix.len() > 0 && starts_with(s, prefix) {
        let t = s.skip(prefix.len() as int);
        assert forall|i: int| 0 <= i < t.len() implies (#[trigger] t[i] as u32) < 128 by {
            assert(t[i] == s[i + prefix.len()]);
        }
        lemma_strip_prefix_ascii(t, prefix);
    }
}

pub proof fn lemma_split_ascii(s: Seq<char>, class: CharClass)
    requires
        ascii_text(s),
    ensures
        forall|k: int| 0 <= k < split(s, class).len() ==> ascii_text(#[trigger] split(s, class)[k]),
    decreases s.len(),
{
    let i = first_in_class(s, class);
    lemma_first_in_class_bounds(s, class);
    if i >= 0 {
        let t = s.skip(i + 1);
        assert forall|j: int| 0 <= j < t.len() implies (#[trigger] t[j] as u32) < 128 by {
            assert(t[j] == s[j + i + 1]);
        }
        lemma_split_ascii(t, class);
        let head = s.take(i);
        assert forall|j: int| 0 <= j < head.len() implies (#[trigger] head[j] as u32) < 128 by {
            assert(head[j] == s[j]);
        }
        assert forall|k: int| 0 <= k < split(s, class).len() implies ascii_text(
            #[trigger] split(s, class)[k],
        ) by {
            if k == 0 {
                assert(split(s, class)[k] == head);
            } else {
                assert(split(s, class)[k] == split(t, class)[k - 1]);
            }
        }
    }
}

fn exec_after_last_slash(s: &[char]) -> (r: Vec<char>)
    ensures
        r@ == after_last_slash(s@),
{
    let mut j: usize = s.len();
    assert(s@.take(j as int) =~= s@);
    assert(s@.skip(j as int) =~= Seq::<char>::empty());
    while j > 0 && s[j - 1] != '/'
        invariant
            j <= s@.len(),
            after_last_slash(s@) == after_last_slash(s@.take(j as int)) + s@.skip(j as int),
        decreases j,
    {
        assert(s@.take(j as int).drop_last() =~= s@.take(j - 1));
        assert(s@.skip(j - 1) =~= seq![s@[j - 1]] + s@.skip(j as int));
        assert(after_last_slash(s@.take(j as int)) =~= after_last_slash(s@.take(j - 1)).push(
            s@[j - 1],
        ));
        j = j - 1;
    }
    proof {
        if j > 0 {
            assert(s@.take(j as int).last() == '/');
        }
        assert(after_last_slash(s@.take(j as int)) =~= Seq::<char>::empty());
        assert(Seq::<char>::empty() + s@.skip(j as int) =~= s@.skip(j as int));
    }
    let r = copy_range(s, j, s.len());
    assert(r@ =~= s@.skip(j as int));
    r
}

fn exec_strip_prefix_repeatedly(s: &[char], prefix: &[char]) -> (r: Vec<char>)
    ensures
        r@ == strip_prefix_repeatedly(s@, prefix@),
{
    if prefix.len() == 0 {
        return copy_all(s);
    }
    let mut i: usize = 0;
    assert(s@.skip(0) =~= s@);
    loop
        invariant
            i <= s@.len(),
            prefix@.len() > 0,
            strip_prefix_repeatedly(s@.skip(i as int), prefix@) == strip_prefix_repeatedly(
                s@,
                prefix@,
            ),
        decreases s@.len() - i,
    {
        let rest = copy_range(s, i, s.len());
        assert(rest@ =~= s@.skip(i as int));
        if !starts_with_chars(rest.as_slice(), prefix) {
            return rest;
        }
        assert(s@.skip(i as int).skip(prefix@.len() as int) =~= s@.skip(i + prefix@.len()));
        i = i + prefix.len();
    }
}

fn exec_capitalized(word: &[char]) -> (r: Vec<char>)
    ensures
        r@ == capitalized(word@),
        word@.len() == 0 || (word@[0] as u32) < 128 ==> r@ == ascii_capitalized(word@),
{
    if word.len() == 0 {
        return Vec::new();
    }
    let mut out = char_uppercase(word[0]);
    let rest = copy_range(word, 1, word.len());
    assert(rest@ =~= word@.drop_first());
    let lower = lower_chars(rest.as_slice());
    push_all(&mut out, lower.as_slice());
    out
}

pub fn humanize_token(token: &[char]) -> (r: Vec<char>)
    ensures
        r@ == humanized(token@),
        ascii_text(token@) ==> r@ == humanized_ascii(token@),
{
    let last = exec_after_last_slash(token);
    let bc = chars_of("bc_");
    let name = exec_strip_prefix_repeatedly(last.as_slice(), bc.as_slice());
    let pieces = split_chars(name.as_slice(), CharClass::WordBreak);
    let ghost pv = views(pieces@);
    proof {
        if ascii_text(token@) {
            lemma_after_last_slash_ascii(token@);
            lemma_strip_prefix_ascii(last@, "bc_"@);
            lemma_split_ascii(name@, CharClass::WordBreak);
        }
    }
    let mut out: Vec<char> = Vec::new();
    let mut count: usize = 0;
    let mut i: usize = 0;
    while i < pieces.len()
        invariant
            i <= pieces@.len(),
            pv == views(pieces@),
            pv.len() == pieces@.len(),
            count <= i,
            count == nonempty_words(pv.take(i as int)).len(),
            out@ == join_words(
                nonempty_words(pv.take(i as int)).map_values(|w: Seq<char>| capitalized(w)),
            ),
            ascii_text(token@) ==> forall|k: int| 0 <= k < pv.len() ==> ascii_text(#[trigger] pv[k]),
            ascii_text(token@) ==> out@ == join_words(
                nonempty_words(pv.take(i as int)).map_values(|w: Seq<char>| ascii_capitalized(w)),
            ),
        decreases pieces@.len() - i,
    {
        let ghost words = nonempty_words(pv.take(i as int));
        assert(pv.take(i + 1).drop_last() =~= pv.take(i as int));
        assert(pv.take(i + 1).last() == pieces@[i as int]@);
        if pieces[i].len() > 0 {
            let w = exec_capitalized(pieces[i].as_slice());
            let ghost next = words.push(pieces@[i as int]@);
            let ghost caps = next.map_values(|w: Seq<char>| capitalized(w));
            assert(caps.drop_last() =~= words.map_values(|w: Seq<char>| capitalized(w)));
            let ghost acaps = next.map_values(|w: Seq<char>| ascii_capitalized(w));
            assert(acaps.drop_last() =~= words.map_values(|w: Seq<char>| ascii_capitalized(w)));
            proof {
                if ascii_text(token@) {
                    assert(ascii_text(pv[i as int]));
                    assert(pieces@[i as int]@[0] == pv[i as int][0]);
                }
            }
            if count > 0 {
                let space = chars_of(" ");
                push_all(&mut out, space.as_slice());
            } else {
                assert(caps.len() == 1);
            }
            push_all(&mut out, w.as_slice());
            count = count + 1;
        }
        i = i + 1;
    }
    assert(pv.take(i as int) =~= pv);
    if count == 0 {
        chars_of("Code Server")
    } else {
        out
    }
}

/// The name under which a session is listed, with `human` standing for its
/// humanized token: its title (trimmed) or else `human`, followed by ` · `
/// and the first eight characters of its ID when it has one.
pub open spec fn display_name_from(record: OodRecordView, human: Seq<char>) -> Seq<char> {
    let base = match record.title {
        Some(t) => if trim(t).len() > 0 {
            trim(t)
        } else {
            human
        },
        None => human,
    };
    let suffix = if record.id.len() > 8 {
        record.id.take(8)
    } else {
        record.id
    };
    if suffix.len() == 0 {
        base
    } else {
        base + " \u{b7} "@ + suffix
    }
}

/// The name under which a session is listed.
pub open spec fn display_name_of(record: OodRecordView) -> Seq<char> {
    display_name_from(record, humanized(record.token))
}

pub fn display_name(record: &OodSessionRecord) -> (r: String)
    ensures
        r@ == display_name_of(ood_view(*record)),
        ascii_text(record.token@) ==> r@ == display_name_from(
            ood_view(*record),
            humanized_ascii(record.token@),
        ),
{
    let mut base = match &record.title {
        Some(t) => {
            let tc = chars_of(t.as_str());
            let trimmed = trim_chars(tc.as_slice());
            if trimmed.len() > 0 {
                trimmed
            } else {
                humanize_token(chars_of(record.token.as_str()).as_slice())
            }
        },
        None => humanize_token(chars_of(record.token.as_str()).as_slice()),
    };
    let id = chars_of(record.id.as_str());
    let end = if id.len() > 8 {
        8
    } else {
        id.len()
    };
    let suffix = copy_range(id.as_slice(), 0, end);
    assert(suffix@ =~= (if id@.len() > 8 {
        id@.take(8)
    } else {
        id@
    }));
    if suffix.len() > 0 {
        let dot = chars_of(" \u{b7} ");
        push_all(&mut base, dot.as_slice());
        push_all(&mut base, suffix.as_slice());
    }
    string_of(base.as_slice())
}

pub open spec fn is_session_id_char(c: char) -> bool {
    is_ascii_alphanumeric(c) || c == '-' || c == '_' || c == '.'
}

pub open spec fn is_job_id_char(c: char) -> bool {
    is_ascii_alphanumeric(c) || c == '_' || c == '-' || c == '.' || c == '+'
}

/// A relative path that cannot leave the directory it is joined to: not
/// empty, not absolute, without `\`, line breaks, `\0`, empty components or
/// `..`.
pub open spec fn safe_relative_path(value: Seq<char>) -> bool {
    &&& value.len() > 0
    &&& !starts_with(value, "/"@)
    &&& !contains(value, "\\"@)
    &&& forall|i: int| 0 <= i < value.len() ==> !is_control_break(#[trigger] value[i])
    &&& forall|i: int|
        0 <= i < split(value, CharClass::Exactly('/')).len() ==> {
            let c = #[trigger] split(value, CharClass::Exactly('/'))[i];
            c.len() > 0 && c != ".."@
        }
}

fn is_literal(value: &[char], literal: &str) -> (r: bool)
    ensures
        r == (value@ == literal@),
{
    let l = chars_of(literal);
    chars_equal(value, l.as_slice())
}

pub fn validate_relative_ood_path(name: &str, value: &[char]) -> (r: Result<(), String>)
    ensures
        match r {
            Ok(()) => safe_relative_path(value@),
            Err(m) => !safe_relative_path(value@) && m@ == "The OOD "@ + name@
                + " is not a safe relative path"@,
        },
{
    let slash = chars_of("/");
    let backslash = chars_of("\\");
    let mut ok = value.len() > 0 && !starts_with_chars(value, slash.as_slice()) && !contains_chars(
        value,
        backslash.as_slice(),
    );
    let mut i: usize = 0;
    while i < value.len()
        invariant
            i <= value@.len(),
            ok ==> forall|j: int| 0 <= j < i ==> !is_control_break(#[trigger] value@[j]),
            !ok ==> !safe_relative_path(value@),
            ok == (value@.len() > 0 && !starts_with(value@, "/"@) && !contains(value@, "\\"@)
                && forall|j: int| 0 <= j < i ==> !is_control_break(#[trigger] value@[j])),
        decreases value@.len() - i,
    {
        if char_is_control_break(value[i]) {
            ok = false;
        }
        i = i + 1;
    }
    let parts = split_chars(value, CharClass::Exactly('/'));
    let ghost pv = views(parts@);
    let mut k: usize = 0;
    while k < parts.len()
        invariant
            k <= parts@.len(),
            pv == views(parts@),
            pv.len() == parts@.len(),
            pv == split(value@, CharClass::Exactly('/')),
            ok ==> forall|j: int| 0 <= j < k ==> pv[j].len() > 0 && pv[j] != ".."@,
            !ok ==> !safe_relative_path(value@),
            ok ==> value@.len() > 0 && !starts_with(value@, "/"@) && !contains(value@, "\\"@)
                && forall|j: int| 0 <= j < value@.len() ==> !is_control_break(#[trigger] value@[j]),
        decreases parts@.len() - k,
    {
        assert(pv[k as int] == parts@[k as int]@);
        if parts[k].len() == 0 || is_literal(parts[k].as_slice(), "..") {
            ok = false;
        }
        k = k + 1;
    }
    if ok {
        Ok(())
    } else {
        let mut m = chars_of("The OOD ");
        let n = chars_of(name);
        push_all(&mut m, n.as_slice());
        let tail = chars_of(" is not a safe relative path");
        push_all(&mut m, tail.as_slice());
        Err(string_of(m.as_slice()))
    }
}

/// The session's IDs may be used as components of remote paths.
pub open spec fn safe_session_paths(record: OodRecordView) -> bool {
    &&& record.id.len() > 0
    &&& forall|i: int| 0 <= i < record.id.len() ==> is_session_id_char(#[trigger] record.id[i])
    &&& safe_relative_path(record.token)
    &&& (record.cluster_id.len() > 0 ==> safe_relative_path(record.cluster_id))
}

/// What is wrong with a session's IDs as path components, the session ID
/// checked first, then the token, then the cluster ID; or nothing.
pub open spec fn session_path_error(record: OodRecordView) -> Option<Seq<char>> {
    if !(record.id.len() > 0 && forall|i: int|
        0 <= i < record.id.len() ==> is_session_id_char(#[trigger] record.id[i])) {
        Some("The OOD session ID cannot be used as a path component"@)
    } else if !safe_relative_path(record.token) {
        Some("The OOD "@ + "app token"@ + " is not a safe relative path"@)
    } else if record.cluster_id.len() > 0 && !safe_relative_path(record.cluster_id) {
        Some("The OOD "@ + "cluster ID"@ + " is not a safe relative path"@)
    } else {
        None
    }
}

pub fn validate_session_path_data(record: &OodSessionRecord) -> (r: Result<(), String>)
    ensures
        r is Ok <==> safe_session_paths(ood_view(*record)),
        r is Ok <==> session_path_error(ood_view(*record)) is None,
        r matches Err(m) ==> session_path_error(ood_view(*record)) == Some(m@),
{
    let id = chars_of(record.id.as_str());
    let mut ok = id.len() > 0;
    let mut i: usize = 0;
    while i < id.len()
        invariant
            i <= id@.len(),
            id@ == record.id@,
            ok == (id@.len() > 0 && forall|j: int| 0 <= j < i ==> is_session_id_char(
                #[trigger] id@[j],
            )),
        decreases id@.len() - i,
    {
        let c = id[i];
        if !(char_is_ascii_alphanumeric(c) || c == '-' || c == '_' || c == '.') {
            ok = false;
        }
        i = i + 1;
    }
    if !ok {
        return Err("The OOD session ID cannot be used as a path component".to_string());
    }
    let token = chars_of(record.token.as_str());
    match validate_relative_ood_path("app token", token.as_slice()) {
        Ok(()) => {},
        Err(m) => {
            return Err(m);
        },
    }
    let cluster = chars_of(record.cluster_id.as_str());
    if cluster.len() > 0 {
        match validate_relative_ood_path("cluster ID", cluster.as_slice()) {
            Ok(()) => {},
            Err(m) => {
                return Err(m);
            },
        }
    }
    Ok(())
}

/// A job ID that may be handed to `scancel`.
pub open spec fn valid_job_id(job_id: Seq<char>) -> bool {
    job_id.len() > 0 && forall|i: int| 0 <= i < job_id.len() ==> is_job_id_char(#[trigger] job_id[i])
}

pub fn validate_job_id(job_id: &[char]) -> (r: Result<(), String>)
    ensures
        match r {
            Ok(()) => valid_job_id(job_id@),
            Err(m) => !valid_job_id(job_id@) && m@ == "The scheduler job ID is invalid"@,
        },
{
    let mut ok = job_id.len() > 0;
    let mut i: usize = 0;
    while i < job_id.len()
        invariant
            i <= job_id@.len(),
            ok == (job_id@.len() > 0 && forall|j: int| 0 <= j < i ==> is_job_id_char(
                #[trigger] job_id@[j],
            )),
        decreases job_id@.len() - i,
    {
        let c = job_id[i];
        if !(char_is_ascii_alphanumeric(c) || c == '_' || c == '-' || c == '.' || c == '+') {
            ok = false;
        }
        i = i + 1;
    }
    if ok {
        Ok(())
    } else {
        Err("The scheduler job ID is invalid".to_string())
    }
}

} // verus!
