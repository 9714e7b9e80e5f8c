//! The byte protocol of Butler's remote scripts: a marker line, then
//! records that `0x1e` separates, each a kind letter, `0x1f` and a payload.
use vstd::prelude::*;
use vstd::utf8::{decode_utf8, valid_utf8};
use crate::text::{chars_of, find, lemma_find_first, occurs_at, push_all, string_of};

verus! {

pub const RECORD_SEPARATOR: u8 = 0x1e;

pub const FIELD_SEPARATOR: u8 = 0x1f;

/// The position of the first `x` in `s`, or -1.
pub open spec fn first_index<T>(s: Seq<T>, x: T) -> int
    decreases s.len(),
{
    if s.len() == 0 {
        -1
    } else if s[0] == x {
        0
    } else {
        let r = first_index(s.drop_first(), x);
        if r < 0 {
            -1
        } else {
            r + 1
        }
    }
}

pub proof fn lemma_first_index<T>(s: Seq<T>, x: T, i: int)
    requires
        0 <= i <= s.len(),
        forall|j: int| 0 <= j < i ==> #[trigger] s[j] != x,
        i == s.len() || s[i] == x,
    ensures
        first_index(s, x) == (if i == s.len() {
            -1
        } else {
            i
        }),
    decreases i,
{
    if i > 0 {
        assert forall|j: int| 0 <= j < i - 1 implies #[trigger] s.drop_first()[j] != x by {
            assert(s.drop_first()[j] == s[j + 1]);
        }
        if i < s.len() {
            assert(s.drop_first()[i - 1] == s[i]);
        }
        lemma_first_index(s.drop_first(), x, i - 1);
    }
}

pub proof fn lemma_first_index_bounds<T>(s: Seq<T>, x: T)
    ensures
        -1 <= first_index(s, x) < s.len(),
    decreases s.len(),
{
    if s.len() > 0 {
        lemma_first_index_bounds(s.drop_first(), x);
    }
}

/// `<[u8]>::split` by `x`.
pub open spec fn split_on<T>(s: Seq<T>, x: T) -> Seq<Seq<T>>
    decreases s.len(),
{
    let i = first_index(s, x);
    if i < 0 {
        seq![s]
    } else {
        proof {
            lemma_first_index_bounds(s, x);
        }
        seq![s.take(i)] + split_on(s.skip(i + 1), x)
    }
}

pub open spec fn byte_views(v: Seq<Vec<u8>>) -> Seq<Seq<u8>> {
    v.map_values(|x: Vec<u8>| x@)
}

pub fn copy_bytes(s: &[u8], start: usize, end: usize) -> (r: Vec<u8>)
    requires
        start <= end <= s@.len(),
    ensures
        r@ == s@.subrange(start as int, end as int),
{
    let mut r: Vec<u8> = Vec::new();
    let mut i: usize = start;
    while i < end
        invariant
            start <= i <= end <= s@.len(),
            r@ == s@.subrange(start as int, i as int),
        decreases end - i,
    {
        r.push(s[i]);
        i = i + 1;
    }
    r
}

/// The position of the first `x` at or after `from`, or `s.len()`.
pub fn index_of_byte(s: &[u8], from: usize, x: u8) -> (i: usize)
    requires
        from <= s@.len(),
    ensures
        from <= i <= s@.len(),
        first_index(s@.skip(from as int), x) == (if i == s@.len() {
            -1
        } else {
            i - from
        }),
{
    let mut i: usize = from;
    while i < s.len() && s[i] != x
        invariant
            from <= i <= s@.len(),
            forall|j: int| from <= j < i ==> #[trigger] s@[j] != x,
        decreases s@.len() - i,
    {
        i = i + 1;
    }
    proof {
        let t = s@.skip(from as int);
        assert forall|j: int| 0 <= j < i - from implies #[trigger] t[j] != x by {
            assert(t[j] == s@[from + j]);
        }
        if i < s.len() {
            assert(t[i - from] == s@[i as int]);
        }
        lemma_first_index(t, x, i - from);
    }
    i
}

pub fn split_bytes(s: &[u8], x: u8) -> (r: Vec<Vec<u8>>)
    ensures
        byte_views(r@) == split_on(s@, x),
{
    let mut pieces: Vec<Vec<u8>> = Vec::new();
    let mut pos: usize = 0;
    assert(s@.skip(0) =~= s@);
    loop
        invariant
            pos <= s@.len(),
            byte_views(pieces@) + split_on(s@.skip(pos as int), x) == split_on(s@, x),
        decreases s@.len() - pos,
    {
        let t = Ghost(s@.skip(pos as int));
        let i = index_of_byte(s, pos, x);
        if i == s.len() {
            let rest = copy_bytes(s, pos, s.len());
            assert(rest@ =~= t@);
            let ghost before = pieces@;
            pieces.push(rest);
            assert(byte_views(pieces@) =~= byte_views(before) + seq![rest@]);
            return pieces;
        }
        let piece = copy_bytes(s, pos, i);
        assert(piece@ =~= t@.take(i - pos));
        assert(t@.skip(i - pos + 1) =~= s@.skip(i + 1));
        let ghost before = pieces@;
        pieces.push(piece);
        assert(byte_views(pieces@) =~= byte_views(before) + seq![piece@]);
        pos = i + 1;
    }
}

pub fn bytes_occur_at(hay: &[u8], needle: &[u8], i: usize) -> (r: bool)
    ensures
        r == occurs_at(hay@, needle@, i as int),
{
    if i > hay.len() || needle.len() > hay.len() - i {
        return false;
    }
    let mut k: usize = 0;
    while k < needle.len()
        invariant
            k <= needle@.len(),
            i + needle@.len() <= hay@.len(),
            forall|j: int| 0 <= j < k ==> hay@[i + j] == needle@[j],
        decreases needle@.len() - k,
    {
        assert(i + k < hay.len());
        if hay[i + k] != needle[k] {
            assert(hay@.subrange(i as int, i + needle@.len())[k as int] != needle@[k as int]);
            return false;
        }
        k = k + 1;
    }
    assert(hay@.subrange(i as int, i + needle@.len()) =~= needle@);
    true
}

pub fn find_bytes(hay: &[u8], needle: &[u8]) -> (r: Option<usize>)
    ensures
        match r {
            Some(i) => find(hay@, needle@) == Some(i as int) && occurs_at(hay@, needle@, i as int),
            None => find(hay@, needle@) is None,
        },
{
    let mut i: usize = 0;
    loop
        invariant
            i <= hay@.len(),
            forall|j: int| 0 <= j < i ==> !occurs_at(hay@, needle@, j),
        decreases hay@.len() - i,
    {
        if bytes_occur_at(hay, needle, i) {
            proof {
                lemma_find_first(hay@, needle@, i as int);
            }
            return Some(i);
        }
        if i == hay.len() {
            assert(!crate::text::contains(hay@, needle@));
            reveal(find);
            return None;
        }
        i = i + 1;
    }
}

/// What follows the first occurrence of `marker` in `output`.
pub open spec fn after_marker(output: Seq<u8>, marker: Seq<u8>) -> Option<Seq<u8>> {
    match find(output, marker) {
        Some(p) => Some(output.skip(p + marker.len())),
        None => None,
    }
}

/// The bytes of an ASCII text.
pub open spec fn ascii_bytes(s: Seq<char>) -> Seq<u8> {
    s.map_values(|c: char| c as u8)
}

pub fn ascii_bytes_of(s: &str) -> (r: Vec<u8>)
    ensures
        r@ == ascii_bytes(s@),
{
    let chars = chars_of(s);
    let mut r: Vec<u8> = Vec::new();
    let mut i: usize = 0;
    while i < chars.len()
        invariant
            i <= chars@.len(),
            chars@ == s@,
            r@ =~= ascii_bytes(chars@.take(i as int)),
        decreases chars@.len() - i,
    {
        r.push(chars[i] as u8);
        i = i + 1;
        assert(ascii_bytes(chars@.take(i as int)) =~= ascii_bytes(chars@.take(i - 1)).push(
            chars@[i - 1] as u8,
        ));
    }
    assert(chars@.take(i as int) =~= chars@);
    r
}

/// What follows Butler's protocol `marker` in the output of a remote
/// script; `label` names the script in the error.
pub fn marker_payload(output: &[u8], marker: &[u8], label: &str) -> (r: Result<Vec<u8>, String>)
    requires
        marker@.len() > 0,
    ensures
        match r {
            Ok(p) => after_marker(output@, marker@) == Some(p@),
            Err(m) => after_marker(output@, marker@) is None && m@ == "SSH "@ + label@
                + " output did not contain Butler's protocol marker"@,
        },
{
    match find_bytes(output, marker) {
        Some(p) => {
            assert(p + marker.len() <= output.len());
            let rest = copy_bytes(output, p + marker.len(), output.len());
            assert(rest@ =~= output@.skip(p + marker@.len()));
            Ok(rest)
        },
        None => {
            let mut m = chars_of("SSH ");
            let l = chars_of(label);
            push_all(&mut m, l.as_slice());
            let tail = chars_of(" output did not contain Butler's protocol marker");
            push_all(&mut m, tail.as_slice());
            Err(string_of(m.as_slice()))
        },
    }
}

/// Decodes strict UTF-8 with `std::str::from_utf8`: some text exactly when
/// the bytes are valid UTF-8, and then the characters they encode.
#[verifier::external_body]
pub(crate) fn utf8_text(bytes: &[u8]) -> (r: Option<Vec<char>>)
    ensures
        r is Some <==> valid_utf8(bytes@),
        r matches Some(v) ==> v@ == decode_utf8(bytes@),
{
    std::str::from_utf8(bytes).ok().map(|text| text.chars().collect())
}

/// What `String::from_utf8_lossy` gives for `bytes`.
pub uninterp spec fn lossy_utf8(bytes: Seq<u8>) -> Seq<char>;

/// Decodes UTF-8 with `String::from_utf8_lossy`, each invalid sequence
/// replaced by U+FFFD. The contract claims that the result is that
/// function's, named `lossy_utf8`, and that valid UTF-8 decodes as it does
/// strictly; how invalid sequences are replaced is left unsaid.
#[verifier::external_body]
pub(crate) fn lossy_text(bytes: &[u8]) -> (r: Vec<char>)
    ensures
        r@ == lossy_utf8(bytes@),
        valid_utf8(bytes@) ==> r@ == decode_utf8(bytes@),
{
    String::from_utf8_lossy(bytes).chars().collect()
}

} // verus!
