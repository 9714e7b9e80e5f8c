//! Character-level text handling: classes of characters, trimming, case
//! folding, splitting, searching and decimal numbers.
use vstd::prelude::*;

verus! {

/// Unicode `White_Space`, the property that `char::is_whitespace` reports.
pub open spec fn is_whitespace(c: char) -> bool {
    ||| ('\u{9}' <= c && c <= '\u{d}')
    ||| c == ' '
    ||| c == '\u{85}'
    ||| c == '\u{a0}'
    ||| c == '\u{1680}'
    ||| ('\u{2000}' <= c && c <= '\u{200a}')
    ||| c == '\u{2028}'
    ||| c == '\u{2029}'
    ||| c == '\u{202f}'
    ||| c == '\u{205f}'
    ||| c == '\u{3000}'
}

pub open spec fn is_ascii_digit(c: char) -> bool {
    '0' <= c && c <= '9'
}

pub open spec fn is_ascii_upper(c: char) -> bool {
    'A' <= c && c <= 'Z'
}

pub open spec fn is_ascii_lower(c: char) -> bool {
    'a' <= c && c <= 'z'
}

pub open spec fn is_ascii_alphabetic(c: char) -> bool {
    is_ascii_upper(c) || is_ascii_lower(c)
}

pub open spec fn is_ascii_alphanumeric(c: char) -> bool {
    is_ascii_alphabetic(c) || is_ascii_digit(c)
}

/// The characters that `u8::is_ascii_whitespace` accepts.
pub open spec fn is_ascii_whitespace(c: char) -> bool {
    c == ' ' || c == '\t' || c == '\n' || c == '\u{c}' || c == '\r'
}

/// `\0`, `\r` and `\n`: characters that would break a line-oriented value.
pub open spec fn is_control_break(c: char) -> bool {
    c == '\0' || c == '\r' || c == '\n'
}

pub open spec fn ascii_lower(c: char) -> char {
    if is_ascii_upper(c) {
        ((c as u32) + 32) as char
    } else {
        c
    }
}

pub open spec fn ascii_upper(c: char) -> char {
    if is_ascii_lower(c) {
        ((c as u32) - 32) as char
    } else {
        c
    }
}

pub open spec fn lower_seq(s: Seq<char>) -> Seq<char> {
    s.map_values(|c: char| ascii_lower(c))
}

pub open spec fn upper_seq(s: Seq<char>) -> Seq<char> {
    s.map_values(|c: char| ascii_upper(c))
}

/// The sets of characters by which the parsers trim and split text.
#[derive(Clone, Copy, PartialEq, Eq, Structural)]
pub enum CharClass {
    /// Unicode white space.
    Whitespace,
    /// `'` and `"`.
    Quote,
    /// `*`.
    Star,
    /// `/`, `:` and `=`: the separators inside a GPU resource.
    ResourceDelimiter,
    /// `_` and `-`: word breaks inside an application token.
    WordBreak,
    /// Everything but ASCII letters, digits and `-`.
    NotModelChar,
    /// Everything but ASCII digits.
    NonDigit,
    /// One given character.
    Exactly(char),
}

pub open spec fn in_class(c: char, class: CharClass) -> bool {
    match class {
        CharClass::Whitespace => is_whitespace(c),
        CharClass::Quote => c == '\'' || c == '"',
        CharClass::Star => c == '*',
        CharClass::ResourceDelimiter => c == '/' || c == ':' || c == '=',
        CharClass::WordBreak => c == '_' || c == '-',
        CharClass::NotModelChar => !is_ascii_alphanumeric(c) && c != '-',
        CharClass::NonDigit => !is_ascii_digit(c),
        CharClass::Exactly(d) => c == d,
    }
}

pub fn char_is_whitespace(c: char) -> (r: bool)
    ensures
        r == is_whitespace(c),
{
    ('\u{9}' <= c && c <= '\u{d}') || c == ' ' || c == '\u{85}' || c == '\u{a0}' || c == '\u{1680}'
        || ('\u{2000}' <= c && c <= '\u{200a}') || c == '\u{2028}' || c == '\u{2029}' || c
        == '\u{202f}' || c == '\u{205f}' || c == '\u{3000}'
}

pub fn char_is_ascii_digit(c: char) -> (r: bool)
    ensures
        r == is_ascii_digit(c),
{
    '0' <= c && c <= '9'
}

pub fn char_is_ascii_alphabetic(c: char) -> (r: bool)
    ensures
        r == is_ascii_alphabetic(c),
{
    ('A' <= c && c <= 'Z') || ('a' <= c && c <= 'z')
}

pub fn char_is_ascii_alphanumeric(c: char) -> (r: bool)
    ensures
        r == is_ascii_alphanumeric(c),
{
    char_is_ascii_alphabetic(c) || char_is_ascii_digit(c)
}

pub fn char_is_ascii_whitespace(c: char) -> (r: bool)
    ensures
        r == is_ascii_whitespace(c),
{
    c == ' ' || c == '\t' || c == '\n' || c == '\u{c}' || c == '\r'
}

pub fn char_is_control_break(c: char) -> (r: bool)
    ensures
        r == is_control_break(c),
{
    c == '\0' || c == '\r' || c == '\n'
}

pub fn char_in_class(c: char, class: CharClass) -> (r: bool)
    ensures
        r == in_class(c, class),
{
    match class {
        CharClass::Whitespace => char_is_whitespace(c),
        CharClass::Quote => c == '\'' || c == '"',
        CharClass::Star => c == '*',
        CharClass::ResourceDelimiter => c == '/' || c == ':' || c == '=',
        CharClass::WordBreak => c == '_' || c == '-',
        CharClass::NotModelChar => !char_is_ascii_alphanumeric(c) && c != '-',
        CharClass::NonDigit => !char_is_ascii_digit(c),
        CharClass::Exactly(d) => c == d,
    }
}

pub fn char_to_ascii_lower(c: char) -> (r: char)
    ensures
        r == ascii_lower(c),
{
    if 'A' <= c && c <= 'Z' {
        ((c as u8) + 32) as char
    } else {
        c
    }
}

pub fn char_to_ascii_upper(c: char) -> (r: char)
    ensures
        r == ascii_upper(c),
{
    if 'a' <= c && c <= 'z' {
        ((c as u8) - 32) as char
    } else {
        c
    }
}


/// Removes leading characters of `class`.
pub open spec fn strip_start(s: Seq<char>, class: CharClass) -> Seq<char>
    decreases s.len(),
{
    if s.len() > 0 && in_class(s[0], class) {
        strip_start(s.drop_first(), class)
    } else {
        s
    }
}

/// Removes trailing characters of `class`.
pub open spec fn strip_end(s: Seq<char>, class: CharClass) -> Seq<char>
    decreases s.len(),
{
    if s.len() > 0 && in_class(s.last(), class) {
        strip_end(s.drop_last(), class)
    } else {
        s
    }
}

/// Removes characters of `class` at both ends.
pub open spec fn strip(s: Seq<char>, class: CharClass) -> Seq<char> {
    strip_end(strip_start(s, class), class)
}

/// `str::trim`.
pub open spec fn trim(s: Seq<char>) -> Seq<char> {
    strip(s, CharClass::Whitespace)
}

pub open spec fn starts_with(s: Seq<char>, prefix: Seq<char>) -> bool {
    prefix.len() <= s.len() && s.take(prefix.len() as int) == prefix
}

pub open spec fn ends_with(s: Seq<char>, suffix: Seq<char>) -> bool {
    suffix.len() <= s.len() && s.skip(s.len() - suffix.len()) == suffix
}

pub open spec fn occurs_at<T>(hay: Seq<T>, needle: Seq<T>, i: int) -> bool {
    0 <= i && i + needle.len() <= hay.len() && hay.subrange(i, i + needle.len()) == needle
}

pub open spec fn contains<T>(hay: Seq<T>, needle: Seq<T>) -> bool {
    exists|i: int| occurs_at(hay, needle, i)
}

/// The first position at which `needle` occurs in `hay`.
#[verifier::opaque]
pub open spec fn find<T>(hay: Seq<T>, needle: Seq<T>) -> Option<int> {
    if contains(hay, needle) {
        Some(
            choose|i: int|
                occurs_at(hay, needle, i) && forall|j: int| 0 <= j < i ==> !occurs_at(hay, needle, j),
        )
    } else {
        None
    }
}

pub proof fn lemma_find_first<T>(hay: Seq<T>, needle: Seq<T>, i: int)
    requires
        occurs_at(hay, needle, i),
        forall|j: int| 0 <= j < i ==> !occurs_at(hay, needle, j),
    ensures
        find(hay, needle) == Some(i),
{
    reveal(find);
    let k = choose|k: int|
        occurs_at(hay, needle, k) && forall|j: int| 0 <= j < k ==> !occurs_at(hay, needle, j);
    assert(occurs_at(hay, needle, k));
    if k < i {
        assert(!occurs_at(hay, needle, k));
    }
    if i < k {
        assert(!occurs_at(hay, needle, i));
    }
}

/// The position of the first character of `class` in `s`, or -1.
pub open spec fn first_in_class(s: Seq<char>, class: CharClass) -> int
    decreases s.len(),
{
    if s.len() == 0 {
        -1
    } else if in_class(s[0], class) {
        0
    } else {
        let r = first_in_class(s.drop_first(), class);
        if r < 0 {
            -1
        } else {
            r + 1
        }
    }
}

pub proof fn lemma_first_in_class(s: Seq<char>, class: CharClass, i: int)
    requires
        0 <= i <= s.len(),
        forall|j: int| 0 <= j < i ==> !in_class(#[trigger] s[j], class),
        i == s.len() || in_class(s[i], class),
    ensures
        first_in_class(s, class) == (if i == s.len() {
            -1
        } else {
            i
        }),
    decreases i,
{
    if i > 0 {
        assert forall|j: int| 0 <= j < i - 1 implies !in_class(#[trigger] s.drop_first()[j], class) by {
            assert(s.drop_first()[j] == s[j + 1]);
        }
        if i < s.len() {
            assert(s.drop_first()[i - 1] == s[i]);
        }
        lemma_first_in_class(s.drop_first(), class, i - 1);
    }
}

/// `str::split` by the characters of `class`.
pub open spec fn split(s: Seq<char>, class: CharClass) -> Seq<Seq<char>>
    decreases s.len(),
{
    let i = first_in_class(s, class);
    if i < 0 {
        seq![s]
    } else {
        proof {
            lemma_first_in_class_bounds(s, class);
        }
        seq![s.take(i)] + split(s.skip(i + 1), class)
    }
}

/// `str::splitn`: at most `n` pieces, the last one holding the rest of `s`.
pub open spec fn splitn(s: Seq<char>, n: nat, class: CharClass) -> Seq<Seq<char>>
    decreases s.len(),
{
    let i = first_in_class(s, class);
    if n <= 1 || i < 0 {
        seq![s]
    } else {
        proof {
            lemma_first_in_class_bounds(s, class);
        }
        seq![s.take(i)] + splitn(s.skip(i + 1), (n - 1) as nat, class)
    }
}

pub proof fn lemma_first_in_class_bounds(s: Seq<char>, class: CharClass)
    ensures
        -1 <= first_in_class(s, class) < s.len(),
        first_in_class(s, class) >= 0 ==> in_class(s[first_in_class(s, class)], class),
        first_in_class(s, class) < 0 ==> forall|j: int| 0 <= j < s.len() ==> !in_class(#[trigger] s[j], class),
        forall|j: int| 0 <= j < first_in_class(s, class) ==> !in_class(#[trigger] s[j], class),
    decreases s.len(),
{
    if s.len() > 0 {
        lemma_first_in_class_bounds(s.drop_first(), class);
        assert forall|j: int| 0 < j < s.len() implies s[j] == s.drop_first()[j - 1] by {}
    }
}

pub proof fn lemma_strip_start_clean(s: Seq<char>, class: CharClass)
    ensures
        strip_start(s, class).len() == 0 || !in_class(strip_start(s, class)[0], class),
    decreases s.len(),
{
    if s.len() > 0 && in_class(s[0], class) {
        lemma_strip_start_clean(s.drop_first(), class);
    }
}

pub proof fn lemma_strip_end_prefix(s: Seq<char>, class: CharClass)
    ensures
        strip_end(s, class).len() <= s.len(),
        strip_end(s, class) == s.take(strip_end(s, class).len() as int),
        strip_end(s, class).len() == 0 || !in_class(strip_end(s, class).last(), class),
    decreases s.len(),
{
    if s.len() > 0 && in_class(s.last(), class) {
        lemma_strip_end_prefix(s.drop_last(), class);
        let r = strip_end(s.drop_last(), class);
        assert(s.drop_last().take(r.len() as int) =~= s.take(r.len() as int));
    } else {
        assert(s.take(s.len() as int) =~= s);
    }
}

/// Text that neither starts nor ends with white space is its own trim.
pub proof fn lemma_trim_unpadded(s: Seq<char>)
    requires
        s.len() > 0,
        !is_whitespace(s[0]),
        !is_whitespace(s.last()),
    ensures
        trim(s) == s,
{
    assert(strip_start(s, CharClass::Whitespace) == s);
    assert(strip_end(s, CharClass::Whitespace) == s);
}

/// Splitting text without `c` gives the text alone.
pub proof fn lemma_split_without(a: Seq<char>, c: char)
    requires
        forall|i: int| 0 <= i < a.len() ==> #[trigger] a[i] != c,
    ensures
        split(a, CharClass::Exactly(c)) == seq![a],
{
    lemma_first_in_class(a, CharClass::Exactly(c), a.len() as int);
}

/// Splitting `a`, `c`, `rest` at `c`, where `a` has no `c`, gives `a` and
/// then the pieces of `rest`.
pub proof fn lemma_split_after(a: Seq<char>, c: char, rest: Seq<char>)
    requires
        forall|i: int| 0 <= i < a.len() ==> #[trigger] a[i] != c,
    ensures
        split(a + seq![c] + rest, CharClass::Exactly(c)) == seq![a] + split(
            rest,
            CharClass::Exactly(c),
        ),
{
    let t = a + seq![c] + rest;
    assert forall|j: int| 0 <= j < a.len() implies !in_class(#[trigger] t[j], CharClass::Exactly(c)) by {
        assert(t[j] == a[j]);
    }
    assert(t[a.len() as int] == c);
    lemma_first_in_class(t, CharClass::Exactly(c), a.len() as int);
    assert(t.take(a.len() as int) =~= a);
    assert(t.skip(a.len() as int + 1) =~= rest);
}

/// What `str::parse` gives for a string of decimal digits whose value fits.
pub proof fn lemma_parse_digits(s: Seq<char>, max: nat)
    requires
        s.len() > 0,
        all_digits(s),
        digits_value(s) <= max,
    ensures
        parse_unsigned(s, max) == Some(digits_value(s)),
{
    assert(is_ascii_digit(s[0]));
}

/// Trimming trimmed text changes nothing.
pub proof fn lemma_trim_idempotent(s: Seq<char>)
    ensures
        trim(trim(s)) == trim(s),
{
    let y = strip_start(s, CharClass::Whitespace);
    let z = strip_end(y, CharClass::Whitespace);
    lemma_strip_start_clean(s, CharClass::Whitespace);
    lemma_strip_end_prefix(y, CharClass::Whitespace);
    if z.len() > 0 {
        assert(z[0] == y[0]);
        assert(strip_start(z, CharClass::Whitespace) == z);
        assert(strip_end(z, CharClass::Whitespace) == z);
    } else {
        assert(strip_start(z, CharClass::Whitespace) == z);
        assert(strip_end(z, CharClass::Whitespace) == z);
    }
}

/// The chars of `s` between `start` and `end`.
pub fn copy_range(s: &[char], start: usize, end: usize) -> (r: Vec<char>)
    requires
        start <= end <= s@.len(),
    ensures
        r@ == s@.subrange(start as int, end as int),
{
    let mut r: Vec<char> = Vec::new();
    let mut i: usize = start;
    while i < end
        invariant
            start <= i <= end <= s@.len(),
            r@ == s@.subrange(start as int, i as int),
        decreases end - i,
    {
        r.push(s[i]);
        i = i + 1;
    }
    r
}

pub fn copy_all(s: &[char]) -> (r: Vec<char>)
    ensures
        r@ == s@,
{
    let r = copy_range(s, 0, s.len());
    assert(s@.subrange(0, s@.len() as int) =~= s@);
    r
}

/// The index where the text stays after leading characters of `class` go.
pub fn strip_start_index(s: &[char], class: CharClass) -> (i: usize)
    ensures
        i <= s@.len(),
        s@.skip(i as int) == strip_start(s@, class),
{
    let mut i: usize = 0;
    assert(s@.skip(0) =~= s@);
    while i < s.len() && char_in_class(s[i], class)
        invariant
            i <= s@.len(),
            strip_start(s@.skip(i as int), class) == strip_start(s@, class),
        decreases s@.len() - i,
    {
        assert(s@.skip(i as int).drop_first() =~= s@.skip(i + 1));
        i = i + 1;
    }
    i
}

/// The index where the text ends after trailing characters of `class` go.
pub fn strip_end_index(s: &[char], start: usize, class: CharClass) -> (j: usize)
    requires
        start <= s@.len(),
    ensures
        start <= j <= s@.len(),
        s@.subrange(start as int, j as int) == strip_end(s@.skip(start as int), class),
{
    let mut j: usize = s.len();
    assert(s@.subrange(start as int, s@.len() as int) =~= s@.skip(start as int));
    while j > start && char_in_class(s[j - 1], class)
        invariant
            start <= j <= s@.len(),
            strip_end(s@.subrange(start as int, j as int), class) == strip_end(
                s@.skip(start as int),
                class,
            ),
        decreases j,
    {
        assert(s@.subrange(start as int, j as int).drop_last() =~= s@.subrange(
            start as int,
            j - 1,
        ));
        j = j - 1;
    }
    j
}

pub fn strip_start_chars(s: &[char], class: CharClass) -> (r: Vec<char>)
    ensures
        r@ == strip_start(s@, class),
{
    let i = strip_start_index(s, class);
    let r = copy_range(s, i, s.len());
    assert(s@.subrange(i as int, s@.len() as int) =~= s@.skip(i as int));
    r
}

pub fn strip_end_chars(s: &[char], class: CharClass) -> (r: Vec<char>)
    ensures
        r@ == strip_end(s@, class),
{
    assert(s@.skip(0) =~= s@);
    let j = strip_end_index(s, 0, class);
    copy_range(s, 0, j)
}

pub fn strip_chars(s: &[char], class: CharClass) -> (r: Vec<char>)
    ensures
        r@ == strip(s@, class),
{
    let i = strip_start_index(s, class);
    let j = strip_end_index(s, i, class);
    copy_range(s, i, j)
}

pub fn trim_chars(s: &[char]) -> (r: Vec<char>)
    ensures
        r@ == trim(s@),
{
    strip_chars(s, CharClass::Whitespace)
}

pub fn lower_chars(s: &[char]) -> (r: Vec<char>)
    ensures
        r@ == lower_seq(s@),
{
    let mut r: Vec<char> = Vec::new();
    let mut i: usize = 0;
    while i < s.len()
        invariant
            i <= s@.len(),
            r@ =~= lower_seq(s@.take(i as int)),
        decreases s@.len() - i,
    {
        r.push(char_to_ascii_lower(s[i]));
        i = i + 1;
        assert(lower_seq(s@.take(i as int)) =~= lower_seq(s@.take(i - 1)).push(ascii_lower(s@[i - 1])));
    }
    assert(s@.take(i as int) =~= s@);
    r
}

pub fn upper_chars(s: &[char]) -> (r: Vec<char>)
    ensures
        r@ == upper_seq(s@),
{
    let mut r: Vec<char> = Vec::new();
    let mut i: usize = 0;
    while i < s.len()
        invariant
            i <= s@.len(),
            r@ =~= upper_seq(s@.take(i as int)),
        decreases s@.len() - i,
    {
        r.push(char_to_ascii_upper(s[i]));
        i = i + 1;
        assert(upper_seq(s@.take(i as int)) =~= upper_seq(s@.take(i - 1)).push(ascii_upper(s@[i - 1])));
    }
    assert(s@.take(i as int) =~= s@);
    r
}

pub fn chars_equal(a: &[char], b: &[char]) -> (r: bool)
    ensures
        r == (a@ == b@),
{
    if a.len() != b.len() {
        return false;
    }
    let mut i: usize = 0;
    while i < a.len()
        invariant
            i <= a@.len(),
            a@.len() == b@.len(),
            forall|j: int| 0 <= j < i ==> a@[j] == b@[j],
        decreases a@.len() - i,
    {
        if a[i] != b[i] {
            return false;
        }
        i = i + 1;
    }
    assert(a@ =~= b@);
    true
}

pub fn chars_occur_at(hay: &[char], needle: &[char], i: usize) -> (r: bool)
    ensures
        r == occurs_at(hay@, needle@, i as int),
{
    if i > hay.len() || needle.len() > hay.len() - i {
        return false;
    }
    let mut k: usize = 0;
    while k < needle.len()
        invariant
            k <= needle@.len(),
            i + needle@.len() <= hay@.len(),
            forall|j: int| 0 <= j < k ==> hay@[i + j] == needle@[j],
        decreases needle@.len() - k,
    {
        assert(i + k < hay.len());
        if hay[i + k] != needle[k] {
            assert(hay@.subrange(i as int, i + needle@.len())[k as int] != needle@[k as int]);
            return false;
        }
        k = k + 1;
    }
    assert(hay@.subrange(i as int, i + needle@.len()) =~= needle@);
    true
}

pub fn starts_with_chars(s: &[char], prefix: &[char]) -> (r: bool)
    ensures
        r == starts_with(s@, prefix@),
{
    let r = chars_occur_at(s, prefix, 0);
    assert(s@.subrange(0, prefix@.len() as int) =~= s@.take(prefix@.len() as int));
    r
}

pub fn ends_with_chars(s: &[char], suffix: &[char]) -> (r: bool)
    ensures
        r == ends_with(s@, suffix@),
{
    if suffix.len() > s.len() {
        return false;
    }
    let r = chars_occur_at(s, suffix, s.len() - suffix.len());
    assert(s@.subrange(s@.len() - suffix@.len(), s@.len() as int) =~= s@.skip(
        s@.len() - suffix@.len(),
    ));
    r
}

pub fn find_chars(hay: &[char], needle: &[char]) -> (r: Option<usize>)
    ensures
        match r {
            Some(i) => find(hay@, needle@) == Some(i as int) && occurs_at(hay@, needle@, i as int),
            None => find(hay@, needle@) is None,
        },
{
    let mut i: usize = 0;
    loop
        invariant
            i <= hay@.len(),
            forall|j: int| 0 <= j < i ==> !occurs_at(hay@, needle@, j),
        decreases hay@.len() - i,
    {
        if chars_occur_at(hay, needle, i) {
            proof {
                lemma_find_first(hay@, needle@, i as int);
            }
            return Some(i);
        }
        if i == hay.len() {
            assert(!contains(hay@, needle@));
            reveal(find);
            return None;
        }
        i = i + 1;
    }
}

pub fn contains_chars(hay: &[char], needle: &[char]) -> (r: bool)
    ensures
        r == contains(hay@, needle@),
{
    match find_chars(hay, needle) {
        Some(i) => {
            assert(contains(hay@, needle@));
            true
        },
        None => {
            reveal(find);
            false
        },
    }
}

/// The position of the first character of `class` at or after `from`, or
/// `s.len()`.
pub fn index_in_class(s: &[char], from: usize, class: CharClass) -> (i: usize)
    requires
        from <= s@.len(),
    ensures
        from <= i <= s@.len(),
        first_in_class(s@.skip(from as int), class) == (if i == s@.len() {
            -1
        } else {
            i - from
        }),
{
    let mut i: usize = from;
    while i < s.len() && !char_in_class(s[i], class)
        invariant
            from <= i <= s@.len(),
            forall|j: int| from <= j < i ==> !in_class(#[trigger] s@[j], class),
        decreases s@.len() - i,
    {
        i = i + 1;
    }
    proof {
        let t = s@.skip(from as int);
        assert forall|j: int| 0 <= j < i - from implies !in_class(#[trigger] t[j], class) by {
            assert(t[j] == s@[from + j]);
        }
        if i < s.len() {
            assert(t[i - from] == s@[i as int]);
        }
        lemma_first_in_class(t, class, i - from);
    }
    i
}

pub open spec fn views(v: Seq<Vec<char>>) -> Seq<Seq<char>> {
    v.map_values(|x: Vec<char>| x@)
}

/// `str::splitn` by the characters of `class`.
pub fn splitn_chars(s: &[char], n: usize, class: CharClass) -> (r: Vec<Vec<char>>)
    requires
        n >= 1,
    ensures
        views(r@) == splitn(s@, n as nat, class),
{
    let mut pieces: Vec<Vec<char>> = Vec::new();
    let mut pos: usize = 0;
    assert(s@.skip(0) =~= s@);
    loop
        invariant
            pos <= s@.len(),
            pieces@.len() < n,
            views(pieces@) + splitn(s@.skip(pos as int), (n - pieces@.len()) as nat, class)
                == splitn(s@, n as nat, class),
        decreases s@.len() - pos,
    {
        let t = Ghost(s@.skip(pos as int));
        let k = (n - pieces.len()) as usize;
        let i = index_in_class(s, pos, class);
        if k <= 1 || i == s.len() {
            let rest = copy_range(s, pos, s.len());
            assert(rest@ =~= t@);
            pieces.push(rest);
            assert(views(pieces@) =~= views(pieces@.drop_last()) + seq![rest@]);
            return pieces;
        }
        let piece = copy_range(s, pos, i);
        assert(piece@ =~= t@.take(i - pos));
        assert(t@.skip(i - pos + 1) =~= s@.skip(i + 1));
        let ghost before = pieces@;
        pieces.push(piece);
        assert(views(pieces@) =~= views(before) + seq![piece@]);
        pos = i + 1;
    }
}

/// `str::split` by the characters of `class`.
pub fn split_chars(s: &[char], class: CharClass) -> (r: Vec<Vec<char>>)
    ensures
        views(r@) == split(s@, class),
{
    let mut pieces: Vec<Vec<char>> = Vec::new();
    let mut pos: usize = 0;
    assert(s@.skip(0) =~= s@);
    loop
        invariant
            pos <= s@.len(),
            views(pieces@) + split(s@.skip(pos as int), class) == split(s@, class),
        decreases s@.len() - pos,
    {
        let t = Ghost(s@.skip(pos as int));
        let i = index_in_class(s, pos, class);
        if i == s.len() {
            let rest = copy_range(s, pos, s.len());
            assert(rest@ =~= t@);
            let ghost before = pieces@;
            pieces.push(rest);
            assert(views(pieces@) =~= views(before) + seq![rest@]);
            return pieces;
        }
        let piece = copy_range(s, pos, i);
        assert(piece@ =~= t@.take(i - pos));
        assert(t@.skip(i - pos + 1) =~= s@.skip(i + 1));
        let ghost before = pieces@;
        pieces.push(piece);
        assert(views(pieces@) =~= views(before) + seq![piece@]);
        pos = i + 1;
    }
}


pub open spec fn digit_value(c: char) -> int {
    (c as int) - ('0' as int)
}

pub open spec fn all_digits(s: Seq<char>) -> bool {
    forall|i: int| 0 <= i < s.len() ==> is_ascii_digit(#[trigger] s[i])
}

/// The number that a string of decimal digits denotes.
pub open spec fn digits_value(s: Seq<char>) -> nat
    decreases s.len(),
{
    if s.len() == 0 {
        0
    } else {
        (digits_value(s.drop_last()) * 10 + digit_value(s.last())) as nat
    }
}

/// What `str::parse` gives for an unsigned integer type whose largest
/// value is `max`: an optional `+`, then one or more ASCII digits, denoting
/// at most `max`.
pub open spec fn parse_unsigned(s: Seq<char>, max: nat) -> Option<nat> {
    let d = if s.len() > 0 && s[0] == '+' {
        s.drop_first()
    } else {
        s
    };
    if d.len() > 0 && all_digits(d) && digits_value(d) <= max {
        Some(digits_value(d))
    } else {
        None
    }
}

pub proof fn lemma_digits_value_monotone(s: Seq<char>, i: int)
    requires
        0 <= i <= s.len(),
        all_digits(s),
    ensures
        digits_value(s.take(i)) <= digits_value(s),
    decreases s.len() - i,
{
    if i < s.len() {
        assert(s.drop_last().take(i) =~= s.take(i));
        assert(all_digits(s.drop_last()));
        lemma_digits_value_monotone(s.drop_last(), i);
    } else {
        assert(s.take(i) =~= s);
    }
}

/// `str::parse` into an unsigned integer no larger than `max`.
pub fn parse_decimal(s: &[char], max: u64) -> (r: Option<u64>)
    ensures
        match r {
            Some(v) => parse_unsigned(s@, max as nat) == Some(v as nat),
            None => parse_unsigned(s@, max as nat) is None,
        },
{
    let start: usize = if s.len() > 0 && s[0] == '+' {
        1
    } else {
        0
    };
    let ghost d = if s@.len() > 0 && s@[0] == '+' {
        s@.drop_first()
    } else {
        s@
    };
    assert(d =~= s@.skip(start as int));
    if start >= s.len() {
        return None;
    }
    let mut value: u64 = 0;
    let mut i: usize = start;
    while i < s.len()
        invariant
            start <= i <= s@.len(),
            d =~= s@.skip(start as int),
            d == (if s@.len() > 0 && s@[0] == '+' {
                s@.drop_first()
            } else {
                s@
            }),
            all_digits(s@.subrange(start as int, i as int)),
            value as nat == digits_value(s@.subrange(start as int, i as int)),
            value <= max,
        decreases s@.len() - i,
    {
        let c = s[i];
        let ghost prefix = s@.subrange(start as int, i + 1);
        assert(prefix.drop_last() =~= s@.subrange(start as int, i as int));
        if !char_is_ascii_digit(c) {
            assert(!is_ascii_digit(d[i - start]));
            assert(!all_digits(d));
            return None;
        }
        let digit = ((c as u32) - ('0' as u32)) as u64;
        assert(all_digits(prefix));
        proof {
            assert(d.take(i + 1 - start) =~= prefix);
        }
        match value.checked_mul(10) {
            None => {
                proof {
                    if all_digits(d) {
                        lemma_digits_value_monotone(d, i + 1 - start);
                    }
                }
                return None;
            },
            Some(tens) => {
                match tens.checked_add(digit) {
                    None => {
                        proof {
                            if all_digits(d) {
                                lemma_digits_value_monotone(d, i + 1 - start);
                            }
                        }
                        return None;
                    },
                    Some(next) => {
                        if next > max {
                            proof {
                                if all_digits(d) {
                                    lemma_digits_value_monotone(d, i + 1 - start);
                                }
                            }
                            return None;
                        }
                        value = next;
                    },
                }
            },
        }
        i = i + 1;
    }
    assert(s@.subrange(start as int, s@.len() as int) =~= d);
    Some(value)
}

pub open spec fn digit_char(d: nat) -> char {
    ((d + 48) as u32) as char
}

/// The decimal digits of `n`, as `u64::to_string` writes them.
pub open spec fn decimal(n: nat) -> Seq<char>
    decreases n,
{
    if n < 10 {
        seq![digit_char(n)]
    } else {
        decimal(n / 10).push(digit_char(n % 10))
    }
}

pub fn decimal_chars(n: u64) -> (r: Vec<char>)
    ensures
        r@ == decimal(n as nat),
    decreases n,
{
    let d = ((n % 10) as u8 + 48) as char;
    if n < 10 {
        let mut r: Vec<char> = Vec::new();
        r.push(d);
        assert(r@ =~= seq![digit_char(n as nat)]);
        r
    } else {
        let mut r = decimal_chars(n / 10);
        r.push(d);
        r
    }
}

/// `n` in decimal, with a minus sign when negative, as the `to_string` of
/// a signed integer type writes it.
pub open spec fn signed_decimal(n: int) -> Seq<char> {
    if n < 0 {
        seq!['-'] + decimal((-n) as nat)
    } else {
        decimal(n as nat)
    }
}

pub fn signed_decimal_chars(n: i64) -> (r: Vec<char>)
    ensures
        r@ == signed_decimal(n as int),
{
    if n < 0 {
        let magnitude: u64 = (0i128 - (n as i128)) as u64;
        let mut r: Vec<char> = Vec::new();
        r.push('-');
        let digits = decimal_chars(magnitude);
        let mut i: usize = 0;
        while i < digits.len()
            invariant
                i <= digits@.len(),
                r@ == seq!['-'] + digits@.take(i as int),
            decreases digits@.len() - i,
        {
            r.push(digits[i]);
            i = i + 1;
            assert(r@ =~= seq!['-'] + digits@.take(i as int));
        }
        assert(digits@.take(i as int) =~= digits@);
        r
    } else {
        decimal_chars(n as u64)
    }
}

/// Appends `tail` to `out`.
pub fn push_all(out: &mut Vec<char>, tail: &[char])
    ensures
        final(out)@ == old(out)@ + tail@,
{
    let mut i: usize = 0;
    while i < tail.len()
        invariant
            i <= tail@.len(),
            out@ =~= old(out)@ + tail@.take(i as int),
        decreases tail@.len() - i,
    {
        out.push(tail[i]);
        i = i + 1;
    }
    assert(tail@.take(i as int) =~= tail@);
}

/// `prefix`, the decimal digits of `n`, then `suffix`.
pub fn text_with_number(prefix: &str, n: u64, suffix: &str) -> (r: String)
    ensures
        r@ == prefix@ + decimal(n as nat) + suffix@,
{
    let mut out = chars_of(prefix);
    let digits = decimal_chars(n);
    push_all(&mut out, digits.as_slice());
    let tail = chars_of(suffix);
    push_all(&mut out, tail.as_slice());
    string_of(out.as_slice())
}

/// `prefix` followed by `tail`.
pub fn text_then(prefix: &str, tail: &[char]) -> (r: String)
    ensures
        r@ == prefix@ + tail@,
{
    let mut out = chars_of(prefix);
    push_all(&mut out, tail);
    string_of(out.as_slice())
}

/// `prefix`, `middle`, then `suffix`.
pub fn text_around(prefix: &str, middle: &[char], suffix: &str) -> (r: String)
    ensures
        r@ == prefix@ + middle@ + suffix@,
{
    let mut out = chars_of(prefix);
    push_all(&mut out, middle);
    let tail = chars_of(suffix);
    push_all(&mut out, tail.as_slice());
    string_of(out.as_slice())
}

/// The characters of a string.
pub(crate) fn chars_of(s: &str) -> (r: Vec<char>)
    ensures
        r@ == s@,
{
    broadcast use vstd::string::axiom_spec_iter;

    let mut out: Vec<char> = Vec::new();
    for c in it: s.chars()
        invariant
            it.seq() == s@,
            out@ == it.seq().take(it.index() as int),
    {
        out.push(c);
    }
    out
}

/// Collects the characters into a `String` (`FromIterator<char>`); the
/// contract claims that the string holds exactly these characters.
#[verifier::external_body]
pub(crate) fn string_of(chars: &[char]) -> (r: String)
    ensures
        r@ == chars@,
{
    chars.iter().collect()
}


/// Lexicographic order of characters by code point, the order of `String`.
pub open spec fn chars_less(a: Seq<char>, b: Seq<char>) -> bool
    decreases a.len(),
{
    if b.len() == 0 {
        false
    } else if a.len() == 0 {
        true
    } else if a[0] != b[0] {
        a[0] < b[0]
    } else {
        chars_less(a.drop_first(), b.drop_first())
    }
}

pub proof fn lemma_chars_less_irreflexive(a: Seq<char>)
    ensures
        !chars_less(a, a),
    decreases a.len(),
{
    if a.len() > 0 {
        lemma_chars_less_irreflexive(a.drop_first());
    }
}

pub proof fn lemma_chars_less_total(a: Seq<char>, b: Seq<char>)
    ensures
        a != b ==> chars_less(a, b) || chars_less(b, a),
        !(chars_less(a, b) && chars_less(b, a)),
    decreases a.len(),
{
    if a.len() > 0 && b.len() > 0 {
        lemma_chars_less_total(a.drop_first(), b.drop_first());
        if a[0] == b[0] && a.drop_first() == b.drop_first() {
            assert(a =~= seq![a[0]] + a.drop_first());
            assert(b =~= seq![b[0]] + b.drop_first());
        }
    } else if a.len() == 0 && b.len() == 0 {
        assert(a =~= b);
    }
}

pub proof fn lemma_chars_less_transitive(a: Seq<char>, b: Seq<char>, c: Seq<char>)
    requires
        chars_less(a, b),
        chars_less(b, c),
    ensures
        chars_less(a, c),
    decreases a.len(),
{
    if a.len() > 0 && b.len() > 0 && c.len() > 0 && a[0] == b[0] && b[0] == c[0] {
        lemma_chars_less_transitive(a.drop_first(), b.drop_first(), c.drop_first());
    }
}

pub fn chars_less_than(a: &[char], b: &[char]) -> (r: bool)
    ensures
        r == chars_less(a@, b@),
{
    let mut i: usize = 0;
    assert(a@.skip(0) =~= a@ && b@.skip(0) =~= b@);
    loop
        invariant
            i <= a@.len(),
            i <= b@.len(),
            chars_less(a@.skip(i as int), b@.skip(i as int)) == chars_less(a@, b@),
        decreases a@.len() - i,
    {
        if i == b.len() {
            return false;
        }
        if i == a.len() {
            return true;
        }
        if a[i] != b[i] {
            return a[i] < b[i];
        }
        assert(a@.skip(i as int).drop_first() =~= a@.skip(i + 1));
        assert(b@.skip(i as int).drop_first() =~= b@.skip(i + 1));
        i = i + 1;
    }
}

} // verus!
