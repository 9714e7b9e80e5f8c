//! What `squeue` reports of a job: its state, its resource fields, its
//! durations and its GPUs.
use vstd::prelude::*;
use crate::models::{opt_view, GpuAllocation, SessionState};
use crate::text::{
    ascii_lower, ascii_upper, char_is_ascii_alphabetic, char_to_ascii_lower, char_to_ascii_upper,
    is_ascii_alphabetic,
    chars_equal, chars_less, chars_less_than, chars_of, copy_all, copy_range, decimal, find,
    find_chars,
    lemma_chars_less_irreflexive, lemma_chars_less_total, lemma_chars_less_transitive, lower_chars,
    lower_seq, splitn, splitn_chars, strip, strip_chars, strip_end, text_with_number, strip_start, strip_end_chars, strip_start_chars, string_of, first_in_class, index_in_class, parse_decimal,
    parse_unsigned, split, split_chars, trim, trim_chars, upper_chars, upper_seq, views, CharClass,
    all_digits, digits_value, in_class, is_ascii_digit, lemma_first_in_class, lemma_parse_digits,
    lemma_split_after, lemma_split_without, lemma_trim_unpadded,
};

verus! {

/// The state that a Slurm state code stands for.
pub open spec fn session_state_of(value: Seq<char>) -> SessionState {
    let u = upper_seq(trim(value));
    if u == "PD"@ || u == "PENDING"@ || u == "CF"@ || u == "CONFIGURING"@ {
        SessionState::Pending
    } else if u == "R"@ || u == "RUNNING"@ {
        SessionState::Running
    } else if u == "CG"@ || u == "COMPLETING"@ {
        SessionState::Cancelling
    } else {
        SessionState::Unknown
    }
}

fn is_literal(value: &[char], literal: &str) -> (r: bool)
    ensures
        r == (value@ == literal@),
{
    let l = chars_of(literal);
    chars_equal(value, l.as_slice())
}

pub fn parse_session_state(value: &[char]) -> (r: SessionState)
    ensures
        r == session_state_of(value@),
{
    let t = trim_chars(value);
    let u = upper_chars(t.as_slice());
    let u = u.as_slice();
    if is_literal(u, "PD") || is_literal(u, "PENDING") || is_literal(u, "CF") || is_literal(
        u,
        "CONFIGURING",
    ) {
        SessionState::Pending
    } else if is_literal(u, "R") || is_literal(u, "RUNNING") {
        SessionState::Running
    } else if is_literal(u, "CG") || is_literal(u, "COMPLETING") {
        SessionState::Cancelling
    } else {
        SessionState::Unknown
    }
}

/// The state names that `squeue` prints, long (`%T`) and short (`%t`), in
/// any ASCII case and with white space around them: pending and
/// configuring jobs are pending, running jobs running, and completing jobs
/// (those being cancelled) cancelling.
pub proof fn lemma_state_names(value: Seq<char>)
    ensures
        upper_seq(trim(value)) == "PENDING"@ ==> session_state_of(value) == SessionState::Pending,
        upper_seq(trim(value)) == "PD"@ ==> session_state_of(value) == SessionState::Pending,
        upper_seq(trim(value)) == "CONFIGURING"@ ==> session_state_of(value) == SessionState::Pending,
        upper_seq(trim(value)) == "CF"@ ==> session_state_of(value) == SessionState::Pending,
        upper_seq(trim(value)) == "RUNNING"@ ==> session_state_of(value) == SessionState::Running,
        upper_seq(trim(value)) == "R"@ ==> session_state_of(value) == SessionState::Running,
        upper_seq(trim(value)) == "COMPLETING"@ ==> session_state_of(value)
            == SessionState::Cancelling,
        upper_seq(trim(value)) == "CG"@ ==> session_state_of(value) == SessionState::Cancelling,
        upper_seq(trim(value)) != "PENDING"@ && upper_seq(trim(value)) != "PD"@ && upper_seq(
            trim(value),
        ) != "CONFIGURING"@ && upper_seq(trim(value)) != "CF"@ && upper_seq(trim(value))
            != "RUNNING"@ && upper_seq(trim(value)) != "R"@ && upper_seq(trim(value))
            != "COMPLETING"@ && upper_seq(trim(value)) != "CG"@ ==> session_state_of(value)
            == SessionState::Unknown,
{
    reveal_strlit("PENDING");
    reveal_strlit("PD");
    reveal_strlit("CONFIGURING");
    reveal_strlit("CF");
    reveal_strlit("RUNNING");
    reveal_strlit("R");
    reveal_strlit("COMPLETING");
    reveal_strlit("CG");
    let names = seq!["PD"@, "PENDING"@, "CF"@, "CONFIGURING"@, "R"@, "RUNNING"@, "CG"@, "COMPLETING"@];
    assert forall|i: int, j: int| 0 <= i < j < names.len() implies #[trigger] names[i] != #[trigger] names[j] by {
        if names[i].len() == names[j].len() {
            assert(names[i][0] != names[j][0] || names[i][1] != names[j][1]);
        }
    }
    assert(names[0] == "PD"@ && names[1] == "PENDING"@ && names[2] == "CF"@ && names[3] == "CONFIGURING"@);
    assert(names[4] == "R"@ && names[5] == "RUNNING"@ && names[6] == "CG"@ && names[7] == "COMPLETING"@);
}

/// The order of states in the sidebar: running first, finished last.
pub open spec fn spec_state_rank(state: SessionState) -> u8 {
    match state {
        SessionState::Running => 0,
        SessionState::Pending => 1,
        SessionState::Cancelling => 2,
        SessionState::Unknown => 3,
        _ => 4,
    }
}

pub fn state_rank(state: SessionState) -> (r: u8)
    ensures
        r == spec_state_rank(state),
{
    match state {
        SessionState::Running => 0,
        SessionState::Pending => 1,
        SessionState::Cancelling => 2,
        SessionState::Unknown => 3,
        SessionState::Completed | SessionState::Cancelled | SessionState::Expired => 4,
    }
}

pub open spec fn spec_state_label(state: SessionState) -> Seq<char> {
    match state {
        SessionState::Pending => "pending"@,
        SessionState::Running => "running"@,
        SessionState::Cancelling => "completing"@,
        SessionState::Completed => "completed"@,
        SessionState::Cancelled => "cancelled"@,
        SessionState::Expired => "expired"@,
        SessionState::Unknown => "unknown"@,
    }
}

pub fn state_label(state: SessionState) -> (r: &'static str)
    ensures
        r@ == spec_state_label(state),
{
    match state {
        SessionState::Pending => "pending",
        SessionState::Running => "running",
        SessionState::Cancelling => "completing",
        SessionState::Completed => "completed",
        SessionState::Cancelled => "cancelled",
        SessionState::Expired => "expired",
        SessionState::Unknown => "unknown",
    }
}

/// A trimmed `squeue` field, or `None` where Slurm writes no value.
pub open spec fn slurm_value(value: Seq<char>) -> Option<Seq<char>> {
    let v = trim(value);
    let u = upper_seq(v);
    if v.len() == 0 || u == "N/A"@ || u == "NONE"@ || u == "(NULL)"@ || u == "NOT_SET"@ || u
        == "INVALID"@ || u == "UNLIMITED"@ {
        None
    } else {
        Some(v)
    }
}

pub fn optional_slurm_value(value: &[char]) -> (r: Option<Vec<char>>)
    ensures
        match r {
            Some(v) => slurm_value(value@) == Some(v@),
            None => slurm_value(value@) is None,
        },
{
    let v = trim_chars(value);
    let u = upper_chars(v.as_slice());
    let u = u.as_slice();
    if v.len() == 0 || is_literal(u, "N/A") || is_literal(u, "NONE") || is_literal(u, "(NULL)")
        || is_literal(u, "NOT_SET") || is_literal(u, "INVALID") || is_literal(u, "UNLIMITED") {
        None
    } else {
        Some(v)
    }
}

pub open spec fn optional_u32_of(value: Seq<char>) -> Option<nat> {
    match slurm_value(value) {
        Some(v) => parse_unsigned(v, u32::MAX as nat),
        None => None,
    }
}

pub fn parse_optional_u32(value: &[char]) -> (r: Option<u32>)
    ensures
        match r {
            Some(n) => optional_u32_of(value@) == Some(n as nat),
            None => optional_u32_of(value@) is None,
        },
{
    match optional_slurm_value(value) {
        Some(v) => match parse_decimal(v.as_slice(), u32::MAX as u64) {
            Some(n) => Some(n as u32),
            None => None,
        },
        None => None,
    }
}

pub open spec fn parse_u64_of(s: Seq<char>) -> Option<nat> {
    parse_unsigned(s, u64::MAX as nat)
}

/// Hours, minutes and seconds of a Slurm clock: `MM`, `MM:SS` or `HH:MM:SS`.
pub open spec fn clock_parts(clock: Seq<char>) -> Option<(nat, nat, nat)> {
    let p = split(clock, CharClass::Exactly(':'));
    if p.len() == 2 {
        match (parse_u64_of(p[0]), parse_u64_of(p[1])) {
            (Some(m), Some(s)) => Some((0nat, m, s)),
            _ => None,
        }
    } else if p.len() == 3 {
        match (parse_u64_of(p[0]), parse_u64_of(p[1]), parse_u64_of(p[2])) {
            (Some(h), Some(m), Some(s)) => Some((h, m, s)),
            _ => None,
        }
    } else if p.len() == 1 {
        match parse_u64_of(p[0]) {
            Some(m) => Some((0nat, m, 0nat)),
            None => None,
        }
    } else {
        None
    }
}

/// The seconds that a Slurm duration (`[D-]HH:MM:SS`, `MM:SS`, `MM`)
/// denotes, when it is a duration and the total fits in a `u64`.
pub open spec fn duration_seconds(value: Seq<char>) -> Option<nat> {
    let v = trim(value);
    let u = upper_seq(v);
    if v.len() == 0 || u == "N/A"@ || u == "NONE"@ || u == "NOT_SET"@ || u == "INVALID"@ || u
        == "UNLIMITED"@ || u == "PARTITION_LIMIT"@ {
        None
    } else {
        let dash = first_in_class(v, CharClass::Exactly('-'));
        let days = if dash >= 0 {
            parse_u64_of(v.take(dash))
        } else {
            Some(0nat)
        };
        let clock = if dash >= 0 {
            v.skip(dash + 1)
        } else {
            v
        };
        match (days, clock_parts(clock)) {
            (Some(d), Some((h, m, s))) => {
                let total = d * 86400 + h * 3600 + m * 60 + s;
                if total <= u64::MAX {
                    Some(total)
                } else {
                    None
                }
            },
            _ => None,
        }
    }
}

fn parse_u64(s: &[char]) -> (r: Option<u64>)
    ensures
        match r {
            Some(n) => parse_u64_of(s@) == Some(n as nat),
            None => parse_u64_of(s@) is None,
        },
{
    parse_decimal(s, u64::MAX)
}

fn parse_clock(clock: &[char]) -> (r: Option<(u64, u64, u64)>)
    ensures
        match r {
            Some((h, m, s)) => clock_parts(clock@) == Some((h as nat, m as nat, s as nat)),
            None => clock_parts(clock@) is None,
        },
{
    let p = split_chars(clock, CharClass::Exactly(':'));
    assert(views(p@).len() == p@.len());
    if p.len() == 2 {
        assert(views(p@)[0] == p@[0]@ && views(p@)[1] == p@[1]@);
        match (parse_u64(p[0].as_slice()), parse_u64(p[1].as_slice())) {
            (Some(m), Some(s)) => Some((0, m, s)),
            _ => None,
        }
    } else if p.len() == 3 {
        assert(views(p@)[0] == p@[0]@ && views(p@)[1] == p@[1]@ && views(p@)[2] == p@[2]@);
        match (parse_u64(p[0].as_slice()), parse_u64(p[1].as_slice()), parse_u64(p[2].as_slice())) {
            (Some(h), Some(m), Some(s)) => Some((h, m, s)),
            _ => None,
        }
    } else if p.len() == 1 {
        assert(views(p@)[0] == p@[0]@);
        match parse_u64(p[0].as_slice()) {
            Some(m) => Some((0, m, 0)),
            None => None,
        }
    } else {
        None
    }
}

pub fn parse_slurm_duration(value: &[char]) -> (r: Option<u64>)
    ensures
        match r {
            Some(n) => duration_seconds(value@) == Some(n as nat),
            None => duration_seconds(value@) is None,
        },
{
    let v = trim_chars(value);
    let u = upper_chars(v.as_slice());
    let u = u.as_slice();
    if v.len() == 0 || is_literal(u, "N/A") || is_literal(u, "NONE") || is_literal(u, "NOT_SET")
        || is_literal(u, "INVALID") || is_literal(u, "UNLIMITED") || is_literal(
        u,
        "PARTITION_LIMIT",
    ) {
        return None;
    }
    let v = v.as_slice();
    let dash = index_in_class(v, 0, CharClass::Exactly('-'));
    assert(v@.skip(0) =~= v@);
    let (days, clock) = if dash < v.len() {
        let head = copy_range(v, 0, dash);
        assert(head@ =~= v@.take(dash as int));
        let tail = copy_range(v, dash + 1, v.len());
        assert(tail@ =~= v@.skip(dash + 1));
        match parse_u64(head.as_slice()) {
            Some(d) => (d, tail),
            None => return None,
        }
    } else {
        (0u64, copy_all(v))
    };
    let (h, m, s) = match parse_clock(clock.as_slice()) {
        Some(parts) => parts,
        None => return None,
    };
    let a = match days.checked_mul(86400) {
        Some(a) => a,
        None => return None,
    };
    let b = match h.checked_mul(3600) {
        Some(b) => b,
        None => return None,
    };
    let ab = match a.checked_add(b) {
        Some(x) => x,
        None => return None,
    };
    let c = match m.checked_mul(60) {
        Some(c) => c,
        None => return None,
    };
    let abc = match ab.checked_add(c) {
        Some(x) => x,
        None => return None,
    };
    abc.checked_add(s)
}


/// A group of a duration's digits: one or more ASCII digits.
pub open spec fn digit_group(s: Seq<char>) -> bool {
    s.len() > 0 && all_digits(s)
}

proof fn lemma_group_chars(g: Seq<char>)
    requires
        digit_group(g),
    ensures
        forall|i: int| 0 <= i < g.len() ==> #[trigger] g[i] != ':' && g[i] != '-' && is_ascii_digit(g[i]),
{
    assert forall|i: int| 0 <= i < g.len() implies #[trigger] g[i] != ':' && g[i] != '-' && is_ascii_digit(g[i]) by {
        assert(is_ascii_digit(g[i]));
    }
}

/// The clock `h:m:s` has the parts `h`, `m` and `s`, and `m:s` the parts
/// zero, `m` and `s`.
proof fn lemma_clock_of_groups(h: Seq<char>, m: Seq<char>, sec: Seq<char>)
    requires
        digit_group(h),
        digit_group(m),
        digit_group(sec),
        digits_value(h) <= u64::MAX,
        digits_value(m) <= u64::MAX,
        digits_value(sec) <= u64::MAX,
    ensures
        clock_parts(h + seq![':'] + m + seq![':'] + sec) == Some(
            (digits_value(h), digits_value(m), digits_value(sec)),
        ),
        clock_parts(m + seq![':'] + sec) == Some((0nat, digits_value(m), digits_value(sec))),
{
    lemma_group_chars(h);
    lemma_group_chars(m);
    lemma_group_chars(sec);
    let colon = CharClass::Exactly(':');
    lemma_split_without(sec, ':');
    lemma_split_after(m, ':', sec);
    assert(h + seq![':'] + m + seq![':'] + sec == h + seq![':'] + (m + seq![':'] + sec));
    lemma_split_after(h, ':', m + seq![':'] + sec);
    let p3 = split(h + seq![':'] + m + seq![':'] + sec, colon);
    assert(p3 =~= seq![h, m, sec]);
    let p2 = split(m + seq![':'] + sec, colon);
    assert(p2 =~= seq![m, sec]);
    lemma_parse_digits(h, u64::MAX as nat);
    lemma_parse_digits(m, u64::MAX as nat);
    lemma_parse_digits(sec, u64::MAX as nat);
}

/// Text that starts with a digit is none of the words that mean "no
/// duration", and is its own trim when it also ends with one.
proof fn lemma_numeric_text(v: Seq<char>)
    requires
        v.len() > 0,
        is_ascii_digit(v[0]),
        is_ascii_digit(v.last()),
    ensures
        trim(v) == v,
        upper_seq(v) != "N/A"@,
        upper_seq(v) != "NONE"@,
        upper_seq(v) != "NOT_SET"@,
        upper_seq(v) != "INVALID"@,
        upper_seq(v) != "UNLIMITED"@,
        upper_seq(v) != "PARTITION_LIMIT"@,
{
    lemma_trim_unpadded(v);
    reveal_strlit("N/A");
    reveal_strlit("NONE");
    reveal_strlit("NOT_SET");
    reveal_strlit("INVALID");
    reveal_strlit("UNLIMITED");
    reveal_strlit("PARTITION_LIMIT");
    assert(upper_seq(v)[0] == v[0]);
}

/// A clock `h:mm:ss` with no day part lasts `h` hours, `m` minutes and
/// `s` seconds, whatever digits write them (`11:04:03` is 39,843 seconds).
pub proof fn lemma_duration_of_clock(h: Seq<char>, m: Seq<char>, sec: Seq<char>)
    requires
        digit_group(h),
        digit_group(m),
        digit_group(sec),
        digits_value(h) * 3600 + digits_value(m) * 60 + digits_value(sec) <= u64::MAX,
    ensures
        duration_seconds(h + seq![':'] + m + seq![':'] + sec) == Some(
            digits_value(h) * 3600 + digits_value(m) * 60 + digits_value(sec),
        ),
{
    let v = h + seq![':'] + m + seq![':'] + sec;
    let (hv, mv, sv) = (digits_value(h), digits_value(m), digits_value(sec));
    assert(hv <= hv * 3600 && mv <= mv * 60) by (nonlinear_arith);
    lemma_clock_of_groups(h, m, sec);
    lemma_group_chars(h);
    lemma_group_chars(m);
    lemma_group_chars(sec);
    assert(v[0] == h[0]);
    assert(v.last() == sec.last());
    lemma_numeric_text(v);
    assert forall|j: int| 0 <= j < v.len() implies !in_class(#[trigger] v[j], CharClass::Exactly('-')) by {
        if j < h.len() {
            assert(v[j] == h[j]);
        } else if j == h.len() {
        } else if j < h.len() + 1 + m.len() {
            assert(v[j] == m[j - h.len() - 1]);
        } else if j == h.len() + 1 + m.len() {
        } else {
            assert(v[j] == sec[j - h.len() - m.len() - 2]);
        }
    }
    lemma_first_in_class(v, CharClass::Exactly('-'), v.len() as int);
}

/// A clock `m:ss` lasts `m` minutes and `s` seconds, and a lone number
/// `m` lasts `m` minutes.
pub proof fn lemma_duration_of_minutes(m: Seq<char>, sec: Seq<char>)
    requires
        digit_group(m),
        digit_group(sec),
        digits_value(m) * 60 + digits_value(sec) <= u64::MAX,
    ensures
        duration_seconds(m + seq![':'] + sec) == Some(digits_value(m) * 60 + digits_value(sec)),
        duration_seconds(m) == Some(digits_value(m) * 60),
{
    let v = m + seq![':'] + sec;
    let (mv, sv) = (digits_value(m), digits_value(sec));
    assert(mv <= mv * 60) by (nonlinear_arith);
    lemma_clock_of_groups(m, m, sec);
    lemma_group_chars(m);
    lemma_group_chars(sec);
    assert(v[0] == m[0]);
    assert(v.last() == sec.last());
    lemma_numeric_text(v);
    lemma_numeric_text(m);
    assert forall|j: int| 0 <= j < v.len() implies !in_class(#[trigger] v[j], CharClass::Exactly('-')) by {
        if j < m.len() {
            assert(v[j] == m[j]);
        } else if j > m.len() {
            assert(v[j] == sec[j - m.len() - 1]);
        }
    }
    lemma_first_in_class(v, CharClass::Exactly('-'), v.len() as int);
    assert forall|j: int| 0 <= j < m.len() implies !in_class(#[trigger] m[j], CharClass::Exactly('-')) by {}
    lemma_first_in_class(m, CharClass::Exactly('-'), m.len() as int);
    lemma_split_without(m, ':');
    lemma_parse_digits(m, u64::MAX as nat);
}

/// Blank text and the words by which Slurm says there is no limit or no
/// value, in any ASCII case, are no duration.
pub proof fn lemma_no_duration(value: Seq<char>)
    ensures
        trim(value).len() == 0 ==> duration_seconds(value) is None,
        upper_seq(trim(value)) == "UNLIMITED"@ ==> duration_seconds(value) is None,
        upper_seq(trim(value)) == "N/A"@ ==> duration_seconds(value) is None,
        upper_seq(trim(value)) == "NONE"@ ==> duration_seconds(value) is None,
        upper_seq(trim(value)) == "NOT_SET"@ ==> duration_seconds(value) is None,
        upper_seq(trim(value)) == "INVALID"@ ==> duration_seconds(value) is None,
        upper_seq(trim(value)) == "PARTITION_LIMIT"@ ==> duration_seconds(value) is None,
{
}

/// A duration `d-h:mm:ss` lasts `d` days, `h` hours, `m` minutes and `s`
/// seconds, and `d-mm:ss` lasts `d` days, `m` minutes and `s` seconds.
#[verifier::rlimit(40)]
pub proof fn lemma_duration_of_days(d: Seq<char>, h: Seq<char>, m: Seq<char>, sec: Seq<char>)
    requires
        digit_group(d),
        digit_group(h),
        digit_group(m),
        digit_group(sec),
        digits_value(d) * 86400 + digits_value(h) * 3600 + digits_value(m) * 60 + digits_value(sec)
            <= u64::MAX,
    ensures
        duration_seconds(d + seq!['-'] + h + seq![':'] + m + seq![':'] + sec) == Some(
            digits_value(d) * 86400 + digits_value(h) * 3600 + digits_value(m) * 60 + digits_value(
                sec,
            ),
        ),
        duration_seconds(d + seq!['-'] + m + seq![':'] + sec) == Some(
            digits_value(d) * 86400 + digits_value(m) * 60 + digits_value(sec),
        ),
{
    let (dv, hv, mv, sv) = (digits_value(d), digits_value(h), digits_value(m), digits_value(sec));
    assert(dv <= dv * 86400 && hv <= hv * 3600 && mv <= mv * 60 && 0 <= hv * 3600) by (nonlinear_arith);
    lemma_clock_of_groups(h, m, sec);
    lemma_group_chars(d);
    lemma_group_chars(sec);
    lemma_parse_digits(d, u64::MAX as nat);
    let c3 = h + seq![':'] + m + seq![':'] + sec;
    let c2 = m + seq![':'] + sec;
    let v3 = d + seq!['-'] + h + seq![':'] + m + seq![':'] + sec;
    let v2 = d + seq!['-'] + m + seq![':'] + sec;
    assert(v3 =~= d + seq!['-'] + c3);
    assert(v2 =~= d + seq!['-'] + c2);
    assert(v3[0] == d[0] && v2[0] == d[0]);
    assert(v3.last() == sec.last() && v2.last() == sec.last());
    lemma_numeric_text(v3);
    lemma_numeric_text(v2);
    assert forall|j: int| 0 <= j < d.len() implies !in_class(#[trigger] v3[j], CharClass::Exactly('-'))
        && !in_class(v2[j], CharClass::Exactly('-')) by {
        assert(v3[j] == d[j] && v2[j] == d[j]);
    }
    assert(v3[d.len() as int] == '-' && v2[d.len() as int] == '-');
    lemma_first_in_class(v3, CharClass::Exactly('-'), d.len() as int);
    lemma_first_in_class(v2, CharClass::Exactly('-'), d.len() as int);
    assert(v3.take(d.len() as int) =~= d && v2.take(d.len() as int) =~= d);
    assert(v3.skip(d.len() as int + 1) =~= c3 && v2.skip(d.len() as int + 1) =~= c2);
}


/// How many ASCII digits `s` starts with.
pub open spec fn leading_digit_count(s: Seq<char>) -> int {
    let i = first_in_class(s, CharClass::NonDigit);
    if i < 0 {
        s.len() as int
    } else {
        i
    }
}

/// The number that the leading ASCII digits of `s` denote, when there are
/// some and it fits in a `u32`.
pub open spec fn leading_u32_of(s: Seq<char>) -> Option<nat> {
    let d = s.take(leading_digit_count(s));
    if d.len() == 0 {
        None
    } else {
        parse_unsigned(d, u32::MAX as nat)
    }
}

pub fn leading_u32(s: &[char]) -> (r: Option<u32>)
    ensures
        match r {
            Some(n) => leading_u32_of(s@) == Some(n as nat),
            None => leading_u32_of(s@) is None,
        },
{
    let i = index_in_class(s, 0, CharClass::NonDigit);
    assert(s@.skip(0) =~= s@);
    let d = copy_range(s, 0, i);
    assert(d@ =~= s@.take(leading_digit_count(s@)));
    if i == 0 {
        return None;
    }
    match parse_decimal(d.as_slice(), u32::MAX as u64) {
        Some(n) => Some(n as u32),
        None => None,
    }
}

pub open spec fn dash_for_underscore(s: Seq<char>) -> Seq<char> {
    s.map_values(
        |c: char|
            if c == '_' {
                '-'
            } else {
                c
            },
    )
}

/// A GPU model as the sidebar names it: without surrounding punctuation,
/// `_` written `-`, in ASCII capitals.
pub open spec fn gpu_model_name(model: Seq<char>) -> Seq<char> {
    upper_seq(dash_for_underscore(strip(model, CharClass::NotModelChar)))
}

pub fn normalize_gpu_model(model: &[char]) -> (r: Vec<char>)
    ensures
        r@ == gpu_model_name(model@),
{
    let s = strip_chars(model, CharClass::NotModelChar);
    let mut d: Vec<char> = Vec::new();
    let mut i: usize = 0;
    while i < s.len()
        invariant
            i <= s@.len(),
            d@ =~= dash_for_underscore(s@.take(i as int)),
        decreases s@.len() - i,
    {
        let c = s[i];
        d.push(
            if c == '_' {
                '-'
            } else {
                c
            },
        );
        i = i + 1;
        assert(dash_for_underscore(s@.take(i as int)) =~= dash_for_underscore(
            s@.take(i - 1),
        ).push(d@.last()));
    }
    assert(s@.take(i as int) =~= s@);
    upper_chars(d.as_slice())
}

/// The trimmed pieces that are not empty.
pub open spec fn trimmed_nonempty(pieces: Seq<Seq<char>>) -> Seq<Seq<char>>
    decreases pieces.len(),
{
    if pieces.len() == 0 {
        Seq::empty()
    } else {
        let r = trimmed_nonempty(pieces.drop_last());
        let t = trim(pieces.last());
        if t.len() > 0 {
            r.push(t)
        } else {
            r
        }
    }
}

/// The parts of a GPU resource that follow the word `gpu`.
pub open spec fn gpu_parts(rest: Seq<char>) -> Seq<Seq<char>> {
    trimmed_nonempty(
        split(
            strip_start(trim(rest), CharClass::ResourceDelimiter),
            CharClass::ResourceDelimiter,
        ),
    )
}

/// The model named by the last part before `parts[k]` that is not a count.
pub open spec fn model_before(parts: Seq<Seq<char>>, k: int) -> Option<Seq<char>>
    decreases k,
{
    if k <= 0 {
        None
    } else if leading_u32_of(parts[k - 1]) is None {
        Some(gpu_model_name(parts[k - 1]))
    } else {
        model_before(parts, k - 1)
    }
}

/// The model and count that the parts of one GPU resource give.
pub open spec fn gpu_of_parts(parts: Seq<Seq<char>>) -> (Option<Seq<char>>, nat) {
    if parts.len() == 0 {
        (None, 1)
    } else if parts.len() == 1 {
        match leading_u32_of(parts[0]) {
            Some(n) => (None, n),
            None => (Some(gpu_model_name(parts[0])), 1),
        }
    } else {
        let count = match leading_u32_of(parts.last()) {
            Some(n) => n,
            None => 1,
        };
        (model_before(parts, parts.len() - 1), count)
    }
}

/// The GPUs that one comma-separated resource of `tres_per_node` requests,
/// or `None` when it names no GPU.
pub open spec fn gpu_entry(raw: Seq<char>) -> Option<(Option<Seq<char>>, nat)> {
    match find(lower_seq(raw), "gpu"@) {
        Some(p) => Some(gpu_of_parts(gpu_parts(raw.skip(p + "gpu"@.len())))),
        None => None,
    }
}

pub open spec fn entries_of(raws: Seq<Seq<char>>) -> Seq<(Option<Seq<char>>, nat)>
    decreases raws.len(),
{
    if raws.len() == 0 {
        Seq::empty()
    } else {
        let r = entries_of(raws.drop_last());
        match gpu_entry(raws.last()) {
            Some(e) => r.push(e),
            None => r,
        }
    }
}

/// The GPU requests of a `tres_per_node` value, in order.
pub open spec fn gpu_entries(value: Seq<char>) -> Seq<(Option<Seq<char>>, nat)> {
    entries_of(split(value, CharClass::Exactly(',')))
}

/// The order of models: the unnamed model first, then by name.
pub open spec fn model_less(a: Option<Seq<char>>, b: Option<Seq<char>>) -> bool {
    match (a, b) {
        (None, Some(_)) => true,
        (Some(x), Some(y)) => chars_less(x, y),
        _ => false,
    }
}

pub open spec fn saturate_u32(n: nat) -> nat {
    if n > u32::MAX {
        u32::MAX as nat
    } else {
        n
    }
}

/// The number of GPUs of `model` that `entries` request, saturated at
/// `u32::MAX`.
pub open spec fn gpu_total(entries: Seq<(Option<Seq<char>>, nat)>, model: Option<Seq<char>>) -> nat
    decreases entries.len(),
{
    if entries.len() == 0 {
        0
    } else {
        let t = gpu_total(entries.drop_last(), model);
        if entries.last().0 == model {
            saturate_u32(t + entries.last().1)
        } else {
            t
        }
    }
}

pub open spec fn has_model(entries: Seq<(Option<Seq<char>>, nat)>, model: Option<Seq<char>>) -> bool {
    exists|i: int| 0 <= i < entries.len() && (#[trigger] entries[i]).0 == model
}

/// `totals` lists each model that `entries` request once, in model order,
/// with its total.
pub open spec fn gpu_summary(
    totals: Seq<(Option<Seq<char>>, nat)>,
    entries: Seq<(Option<Seq<char>>, nat)>,
) -> bool {
    &&& forall|i: int, j: int|
        0 <= i < j < totals.len() ==> model_less(#[trigger] totals[i].0, #[trigger] totals[j].0)
    &&& forall|i: int|
        0 <= i < totals.len() ==> has_model(entries, (#[trigger] totals[i]).0) && totals[i].1
            == gpu_total(entries, totals[i].0)
    &&& forall|m: Option<Seq<char>>|
        has_model(entries, m) ==> exists|i: int| 0 <= i < totals.len() && (#[trigger] totals[i]).0 == m
}

pub open spec fn gpu_view(g: GpuAllocation) -> (Option<Seq<char>>, nat) {
    (opt_view(g.model), g.count as nat)
}

pub open spec fn opt_chars_view(m: Option<Vec<char>>) -> Option<Seq<char>> {
    match m {
        Some(v) => Some(v@),
        None => None,
    }
}

pub open spec fn tally_view(t: Seq<(Option<Vec<char>>, u32)>) -> Seq<(Option<Seq<char>>, nat)> {
    t.map_values(|e: (Option<Vec<char>>, u32)| (opt_chars_view(e.0), e.1 as nat))
}

pub proof fn lemma_model_less_total(a: Option<Seq<char>>, b: Option<Seq<char>>)
    ensures
        a != b ==> model_less(a, b) || model_less(b, a),
        !(model_less(a, b) && model_less(b, a)),
        !model_less(a, a),
{
    match (a, b) {
        (Some(x), Some(y)) => {
            lemma_chars_less_total(x, y);
            lemma_chars_less_irreflexive(x);
        },
        (Some(x), None) => {
            lemma_chars_less_irreflexive(x);
        },
        _ => {},
    }
}

pub proof fn lemma_model_less_transitive(a: Option<Seq<char>>, b: Option<Seq<char>>, c: Option<Seq<char>>)
    requires
        model_less(a, b),
        model_less(b, c),
    ensures
        model_less(a, c),
{
    match (a, b, c) {
        (Some(x), Some(y), Some(z)) => {
            lemma_chars_less_transitive(x, y, z);
        },
        _ => {},
    }
}

fn model_less_than(a: &Option<Vec<char>>, b: &Option<Vec<char>>) -> (r: bool)
    ensures
        r == model_less(opt_chars_view(*a), opt_chars_view(*b)),
{
    match (a, b) {
        (None, Some(_)) => true,
        (Some(x), Some(y)) => chars_less_than(x.as_slice(), y.as_slice()),
        _ => false,
    }
}

fn model_equal(a: &Option<Vec<char>>, b: &Option<Vec<char>>) -> (r: bool)
    ensures
        r == (opt_chars_view(*a) == opt_chars_view(*b)),
{
    match (a, b) {
        (None, None) => true,
        (Some(x), Some(y)) => chars_equal(x.as_slice(), y.as_slice()),
        _ => false,
    }
}

/// Adds one GPU request to a tally that `gpu_summary` describes.
fn add_gpu(
    tally: &mut Vec<(Option<Vec<char>>, u32)>,
    model: Option<Vec<char>>,
    count: u32,
    Ghost(entries): Ghost<Seq<(Option<Seq<char>>, nat)>>,
)
    requires
        gpu_summary(tally_view(old(tally)@), entries),
    ensures
        gpu_summary(tally_view(final(tally)@), entries.push((opt_chars_view(model), count as nat))),
{
    let ghost m = opt_chars_view(model);
    let ghost e2 = entries.push((m, count as nat));
    let ghost before = tally_view(tally@);
    assert(e2.drop_last() =~= entries);
    assert forall|k: Option<Seq<char>>| k != m implies gpu_total(e2, k) == gpu_total(entries, k) by {}
    assert forall|k: Option<Seq<char>>| #[trigger] has_model(e2, k) == (has_model(entries, k) || k == m) by {
        if has_model(entries, k) {
            let i = choose|i: int| 0 <= i < entries.len() && (#[trigger] entries[i]).0 == k;
            assert(e2[i] == entries[i]);
        }
        if k == m {
            assert(e2[entries.len() as int].0 == k);
        }
        if has_model(e2, k) && k != m {
            let i = choose|i: int| 0 <= i < e2.len() && (#[trigger] e2[i]).0 == k;
            assert(entries[i] == e2[i]);
        }
    }
    let mut i: usize = 0;
    while i < tally.len() && model_less_than(&tally[i].0, &model)
        invariant
            i <= tally@.len(),
            tally@ == old(tally)@,
            m == opt_chars_view(model),
            forall|j: int| 0 <= j < i ==> model_less(#[trigger] tally_view(tally@)[j].0, m),
        decreases tally@.len() - i,
    {
        assert(tally_view(tally@)[i as int] == (
            opt_chars_view(tally@[i as int].0),
            tally@[i as int].1 as nat,
        ));
        i = i + 1;
    }
    if i < tally.len() && model_equal(&tally[i].0, &model) {
        let (key, old_count) = tally.remove(i);
        let total = old_count.saturating_add(count);
        tally.insert(i, (key, total));
        proof {
            let after = tally_view(tally@);
            assert(after.len() == before.len());
            assert forall|j: int| 0 <= j < after.len() implies #[trigger] after[j] == (if j == i {
                (m, total as nat)
            } else {
                before[j]
            }) by {}
            assert(gpu_total(e2, m) == total);
            assert forall|j: int| 0 <= j < after.len() && j != i implies after[j].0 != m by {
                lemma_model_less_total(before[j].0, m);
                if j < i {
                } else {
                    assert(model_less(before[i as int].0, before[j].0));
                    lemma_model_less_total(before[i as int].0, before[j].0);
                }
            }
            assert forall|k: Option<Seq<char>>| has_model(e2, k) implies exists|j: int|
                0 <= j < after.len() && (#[trigger] after[j]).0 == k by {
                if k == m {
                    assert(after[i as int].0 == k);
                } else {
                    let j = choose|j: int| 0 <= j < before.len() && (#[trigger] before[j]).0 == k;
                    assert(after[j].0 == k);
                }
            }
        }
    } else {
        proof {
            if i < tally.len() {
                lemma_model_less_total(tally_view(tally@)[i as int].0, m);
            }
            assert forall|j: int| 0 <= j < before.len() implies before[j].0 != m by {
                if j < i {
                    lemma_model_less_total(before[j].0, m);
                } else {
                    assert(model_less(m, before[i as int].0));
                    if j > i {
                        lemma_model_less_transitive(m, before[i as int].0, before[j].0);
                    }
                    lemma_model_less_total(m, before[j].0);
                }
            }
            assert(!has_model(entries, m));
            assert(gpu_total(entries, m) == 0) by {
                lemma_total_absent(entries, m);
            }
        }
        tally.insert(i, (model, count));
        proof {
            let after = tally_view(tally@);
            assert(after.len() == before.len() + 1);
            assert forall|j: int| 0 <= j < after.len() implies #[trigger] after[j] == (if j < i {
                before[j]
            } else if j == i {
                (m, count as nat)
            } else {
                before[j - 1]
            }) by {}
            assert forall|a: int, b: int| 0 <= a < b < after.len() implies model_less(
                #[trigger] after[a].0,
                #[trigger] after[b].0,
            ) by {
                if a == i && b > i + 1 {
                    lemma_model_less_transitive(m, before[i as int].0, before[b - 1].0);
                }
            }
            assert forall|k: Option<Seq<char>>| has_model(e2, k) implies exists|j: int|
                0 <= j < after.len() && (#[trigger] after[j]).0 == k by {
                if k == m {
                    assert(after[i as int].0 == k);
                } else {
                    let j = choose|j: int| 0 <= j < before.len() && (#[trigger] before[j]).0 == k;
                    if j < i {
                        assert(after[j].0 == k);
                    } else {
                        assert(after[j + 1].0 == k);
                    }
                }
            }
        }
    }
}

pub proof fn lemma_total_absent(entries: Seq<(Option<Seq<char>>, nat)>, m: Option<Seq<char>>)
    requires
        !has_model(entries, m),
    ensures
        gpu_total(entries, m) == 0,
    decreases entries.len(),
{
    if entries.len() > 0 {
        assert(entries.last() == entries[entries.len() - 1]);
        assert forall|i: int| 0 <= i < entries.len() - 1 implies (#[trigger] entries.drop_last()[i]).0 != m by {
            assert(entries.drop_last()[i] == entries[i]);
        }
        lemma_total_absent(entries.drop_last(), m);
    }
}


fn exec_gpu_parts(rest: &[char]) -> (r: Vec<Vec<char>>)
    ensures
        views(r@) == gpu_parts(rest@),
{
    let t = trim_chars(rest);
    let s = strip_start_chars(t.as_slice(), CharClass::ResourceDelimiter);
    let pieces = split_chars(s.as_slice(), CharClass::ResourceDelimiter);
    let ghost pv = views(pieces@);
    let mut out: Vec<Vec<char>> = Vec::new();
    let mut i: usize = 0;
    while i < pieces.len()
        invariant
            i <= pieces@.len(),
            pv == views(pieces@),
            pv.len() == pieces@.len(),
            views(out@) == trimmed_nonempty(pv.take(i as int)),
        decreases pieces@.len() - i,
    {
        let p = trim_chars(pieces[i].as_slice());
        assert(pv.take(i + 1).drop_last() =~= pv.take(i as int));
        assert(pv.take(i + 1).last() == pieces@[i as int]@);
        if p.len() > 0 {
            let ghost before = out@;
            out.push(p);
            assert(views(out@) =~= views(before).push(p@));
        }
        i = i + 1;
    }
    assert(pv.take(i as int) =~= pv);
    out
}

fn exec_model_before(parts: &Vec<Vec<char>>, k: usize) -> (r: Option<Vec<char>>)
    requires
        k <= parts@.len(),
    ensures
        opt_chars_view(r) == model_before(views(parts@), k as int),
    decreases k,
{
    if k == 0 {
        return None;
    }
    assert(views(parts@)[k - 1] == parts@[k - 1]@);
    if leading_u32(parts[k - 1].as_slice()).is_none() {
        Some(normalize_gpu_model(parts[k - 1].as_slice()))
    } else {
        exec_model_before(parts, k - 1)
    }
}

fn exec_gpu_of_parts(parts: &Vec<Vec<char>>) -> (r: (Option<Vec<char>>, u32))
    ensures
        (opt_chars_view(r.0), r.1 as nat) == gpu_of_parts(views(parts@)),
{
    let ghost pv = views(parts@);
    if parts.len() == 0 {
        (None, 1)
    } else if parts.len() == 1 {
        assert(pv[0] == parts@[0]@);
        match leading_u32(parts[0].as_slice()) {
            Some(n) => (None, n),
            None => (Some(normalize_gpu_model(parts[0].as_slice())), 1),
        }
    } else {
        let last = parts.len() - 1;
        assert(pv.last() == parts@[last as int]@);
        let count = match leading_u32(parts[last].as_slice()) {
            Some(n) => n,
            None => 1,
        };
        (exec_model_before(parts, last), count)
    }
}

#[verifier::rlimit(40)]
fn exec_gpu_entry(raw: &[char]) -> (r: Option<(Option<Vec<char>>, u32)>)
    ensures
        match r {
            Some(e) => gpu_entry(raw@) == Some((opt_chars_view(e.0), e.1 as nat)),
            None => gpu_entry(raw@) is None,
        },
{
    let lower = lower_chars(raw);
    let needle = chars_of("gpu");
    match find_chars(lower.as_slice(), needle.as_slice()) {
        Some(p) => {
            assert(p + needle@.len() <= raw@.len());
            assert(p + needle.len() <= raw.len());
            let rest = copy_range(raw, p + needle.len(), raw.len());
            assert(rest@ =~= raw@.skip(p + "gpu"@.len()));
            let parts = exec_gpu_parts(rest.as_slice());
            Some(exec_gpu_of_parts(&parts))
        },
        None => None,
    }
}

/// The GPUs that a `tres_per_node` value requests, one entry per model in
/// model order, with the counts of each model summed (saturating).
pub fn parse_gpu_allocations(value: &[char]) -> (r: Vec<GpuAllocation>)
    ensures
        gpu_summary(r@.map_values(|g: GpuAllocation| gpu_view(g)), gpu_entries(value@)),
{
    let raws = split_chars(value, CharClass::Exactly(','));
    let ghost rv = views(raws@);
    let mut tally: Vec<(Option<Vec<char>>, u32)> = Vec::new();
    let mut i: usize = 0;
    while i < raws.len()
        invariant
            i <= raws@.len(),
            rv == views(raws@),
            rv.len() == raws@.len(),
            gpu_summary(tally_view(tally@), entries_of(rv.take(i as int))),
        decreases raws@.len() - i,
    {
        assert(rv.take(i + 1).drop_last() =~= rv.take(i as int));
        assert(rv.take(i + 1).last() == raws@[i as int]@);
        match exec_gpu_entry(raws[i].as_slice()) {
            Some((model, count)) => {
                add_gpu(&mut tally, model, count, Ghost(entries_of(rv.take(i as int))));
            },
            None => {},
        }
        i = i + 1;
    }
    assert(rv.take(i as int) =~= rv);
    let mut out: Vec<GpuAllocation> = Vec::new();
    let mut j: usize = 0;
    while j < tally.len()
        invariant
            j <= tally@.len(),
            out@.map_values(|g: GpuAllocation| gpu_view(g)) =~= tally_view(tally@).take(j as int),
        decreases tally@.len() - j,
    {
        let model = match &tally[j].0 {
            Some(m) => Some(string_of(m.as_slice())),
            None => None,
        };
        let g = GpuAllocation { model, count: tally[j].1 };
        assert(gpu_view(g) == tally_view(tally@)[j as int]);
        let ghost before = out@;
        out.push(g);
        assert(out@.map_values(|g: GpuAllocation| gpu_view(g)) =~= before.map_values(
            |g: GpuAllocation| gpu_view(g),
        ).push(gpu_view(g)));
        j = j + 1;
    }
    assert(tally_view(tally@).take(j as int) =~= tally_view(tally@));
    out
}


/// One row of `squeue --format='%i|%T|%N|%D|%C|%m|%L|%l|%P|%b'`.
#[derive(Clone, Debug)]
pub struct SlurmJob {
    pub id: String,
    pub state: SessionState,
    pub nodes: Option<u32>,
    pub cpus: Option<u32>,
    pub minimum_memory: Option<String>,
    pub time_left: Option<String>,
    pub time_limit: Option<String>,
    pub partition: Option<String>,
    pub tres_per_node: Option<String>,
}

/// The ten trimmed fields of an `squeue` row (fewer when the row has fewer).
pub open spec fn job_fields(line: Seq<char>) -> Seq<Seq<char>> {
    splitn(line, 10, CharClass::Exactly('|')).map_values(|f: Seq<char>| trim(f))
}

pub open spec fn opt_u32_view(o: Option<u32>) -> Option<nat> {
    match o {
        Some(n) => Some(n as nat),
        None => None,
    }
}

pub open spec fn partition_of(field: Seq<char>) -> Option<Seq<char>> {
    match slurm_value(field) {
        Some(v) => Some(strip_end(v, CharClass::Star)),
        None => None,
    }
}

/// What a row of `squeue` says of a job.
pub struct SlurmJobView {
    pub id: Seq<char>,
    pub state: SessionState,
    pub nodes: Option<nat>,
    pub cpus: Option<nat>,
    pub minimum_memory: Option<Seq<char>>,
    pub time_left: Option<Seq<char>>,
    pub time_limit: Option<Seq<char>>,
    pub partition: Option<Seq<char>>,
    pub tres_per_node: Option<Seq<char>>,
}

pub open spec fn job_view(job: SlurmJob) -> SlurmJobView {
    SlurmJobView {
        id: job.id@,
        state: job.state,
        nodes: opt_u32_view(job.nodes),
        cpus: opt_u32_view(job.cpus),
        minimum_memory: opt_view(job.minimum_memory),
        time_left: opt_view(job.time_left),
        time_limit: opt_view(job.time_limit),
        partition: opt_view(job.partition),
        tres_per_node: opt_view(job.tres_per_node),
    }
}

/// An `squeue` row read: exactly ten `|`-separated fields (the last one
/// keeps any further `|`), trimmed, the first one a job ID; the third (the
/// node list) is not kept.
pub open spec fn slurm_row(line: Seq<char>) -> Result<SlurmJobView, Seq<char>> {
    let f = job_fields(line);
    if f.len() != 10 {
        Err("Slurm returned an unexpected squeue row with "@ + decimal(f.len()) + " fields"@)
    } else if f[0].len() == 0 {
        Err("Slurm returned a job with no ID"@)
    } else {
        Ok(
            SlurmJobView {
                id: f[0],
                state: session_state_of(f[1]),
                nodes: optional_u32_of(f[3]),
                cpus: optional_u32_of(f[4]),
                minimum_memory: slurm_value(f[5]),
                time_left: slurm_value(f[6]),
                time_limit: slurm_value(f[7]),
                partition: partition_of(f[8]),
                tres_per_node: slurm_value(f[9]),
            },
        )
    }
}

fn optional_string(value: &[char]) -> (r: Option<String>)
    ensures
        opt_view(r) == slurm_value(value@),
{
    match optional_slurm_value(value) {
        Some(v) => Some(string_of(v.as_slice())),
        None => None,
    }
}

/// Parses one `squeue` row.
pub fn parse_slurm_job(line: &[char]) -> (r: Result<SlurmJob, String>)
    ensures
        match r {
            Ok(job) => slurm_row(line@) == Ok::<_, Seq<char>>(job_view(job)),
            Err(m) => slurm_row(line@) == Err::<SlurmJobView, _>(m@),
        },
{
    let raw = splitn_chars(line, 10, CharClass::Exactly('|'));
    let ghost rv = views(raw@);
    let mut fields: Vec<Vec<char>> = Vec::new();
    let mut i: usize = 0;
    while i < raw.len()
        invariant
            i <= raw@.len(),
            rv == views(raw@),
            rv.len() == raw@.len(),
            views(fields@) =~= rv.take(i as int).map_values(|f: Seq<char>| trim(f)),
        decreases raw@.len() - i,
    {
        let t = trim_chars(raw[i].as_slice());
        let ghost before = fields@;
        fields.push(t);
        assert(views(fields@) =~= views(before).push(t@));
        assert(rv[i as int] == raw@[i as int]@);
        i = i + 1;
    }
    assert(rv.take(i as int) =~= rv);
    let ghost f = views(fields@);
    assert(f == job_fields(line@));
    if fields.len() != 10 {
        return Err(
            text_with_number(
                "Slurm returned an unexpected squeue row with ",
                fields.len() as u64,
                " fields",
            ),
        );
    }
    assert forall|k: int| 0 <= k < 10 implies f[k] == fields@[k]@ by {}
    if fields[0].len() == 0 {
        return Err("Slurm returned a job with no ID".to_string());
    }
    let partition = match optional_slurm_value(fields[8].as_slice()) {
        Some(v) => Some(string_of(strip_end_chars(v.as_slice(), CharClass::Star).as_slice())),
        None => None,
    };
    Ok(
        SlurmJob {
            id: string_of(fields[0].as_slice()),
            state: parse_session_state(fields[1].as_slice()),
            nodes: parse_optional_u32(fields[3].as_slice()),
            cpus: parse_optional_u32(fields[4].as_slice()),
            minimum_memory: optional_string(fields[5].as_slice()),
            time_left: optional_string(fields[6].as_slice()),
            time_limit: optional_string(fields[7].as_slice()),
            partition,
            tres_per_node: optional_string(fields[9].as_slice()),
        },
    )
}


/// What a Slurm memory amount is per: each allocated CPU, each node, or the
/// whole job.
#[derive(Clone, Copy, Debug, PartialEq, Eq, Structural)]
pub enum MemoryScope {
    PerCpu,
    PerNode,
    Whole,
}

/// A Slurm memory amount taken apart: its number (still text), the power of
/// 1024 of its unit (`K` is 1, ..., `P` is 5) and its scope.
#[derive(Clone, Debug)]
pub struct MemoryRequest {
    pub number: String,
    pub unit_power: u32,
    pub scope: MemoryScope,
}

pub open spec fn scope_of(c: char) -> Option<MemoryScope> {
    let l = ascii_lower(c);
    if l == 'c' {
        Some(MemoryScope::PerCpu)
    } else if l == 'n' {
        Some(MemoryScope::PerNode)
    } else {
        None
    }
}

pub open spec fn unit_power_of(unit: char) -> Option<u32> {
    if unit == 'K' {
        Some(1)
    } else if unit == 'M' {
        Some(2)
    } else if unit == 'G' {
        Some(3)
    } else if unit == 'T' {
        Some(4)
    } else if unit == 'P' {
        Some(5)
    } else {
        None
    }
}

/// A memory amount such as `4Gc`, `64G` or `4000`: a number, an optional
/// unit letter (megabytes when none) and an optional `c` (per CPU) or `n`
/// (per node). `None` when empty or when the unit is not one of `KMGTP`.
pub open spec fn memory_request_of(value: Seq<char>) -> Option<(Seq<char>, u32, MemoryScope)> {
    let v = trim(value);
    if v.len() == 0 {
        None
    } else {
        let scope = scope_of(v.last());
        let v1 = if scope is Some {
            v.drop_last()
        } else {
            v
        };
        let lettered = v1.len() > 0 && is_ascii_alphabetic(v1.last());
        let unit = if lettered {
            ascii_upper(v1.last())
        } else {
            'M'
        };
        let number = if lettered {
            v1.drop_last()
        } else {
            v1
        };
        match unit_power_of(unit) {
            Some(p) => Some(
                (
                    number,
                    p,
                    match scope {
                        Some(sc) => sc,
                        None => MemoryScope::Whole,
                    },
                ),
            ),
            None => None,
        }
    }
}

pub fn memory_request(value: &[char]) -> (r: Option<MemoryRequest>)
    ensures
        match r {
            Some(m) => memory_request_of(value@) == Some((m.number@, m.unit_power, m.scope)),
            None => memory_request_of(value@) is None,
        },
{
    let v = trim_chars(value);
    if v.len() == 0 {
        return None;
    }
    let last = char_to_ascii_lower(v[v.len() - 1]);
    let scope = if last == 'c' {
        Some(MemoryScope::PerCpu)
    } else if last == 'n' {
        Some(MemoryScope::PerNode)
    } else {
        None
    };
    let end = if scope.is_some() {
        v.len() - 1
    } else {
        v.len()
    };
    let lettered = end > 0 && char_is_ascii_alphabetic(v[end - 1]);
    let unit = if lettered {
        char_to_ascii_upper(v[end - 1])
    } else {
        'M'
    };
    let number_end = if lettered {
        end - 1
    } else {
        end
    };
    let number = copy_range(v.as_slice(), 0, number_end);
    proof {
        let v1 = if scope is Some {
            v@.drop_last()
        } else {
            v@
        };
        assert(v1 =~= v@.take(end as int));
        if lettered {
            assert(number@ =~= v1.drop_last());
        } else {
            assert(number@ =~= v1);
        }
    }
    let unit_power: u32 = if unit == 'K' {
        1
    } else if unit == 'M' {
        2
    } else if unit == 'G' {
        3
    } else if unit == 'T' {
        4
    } else if unit == 'P' {
        5
    } else {
        return None;
    };
    Some(
        MemoryRequest {
            number: string_of(number.as_slice()),
            unit_power,
            scope: match scope {
                Some(sc) => sc,
                None => MemoryScope::Whole,
            },
        },
    )
}

pub open spec fn spec_scope_factor(scope: MemoryScope, cpus: Option<u32>, nodes: Option<u32>) -> u32 {
    match scope {
        MemoryScope::PerCpu => match cpus {
            Some(n) => n,
            None => 1,
        },
        MemoryScope::PerNode => match nodes {
            Some(n) => n,
            None => 1,
        },
        MemoryScope::Whole => 1,
    }
}

/// The number that a memory amount of `scope` is multiplied by: the CPU or
/// node count (one when unknown), or one for the whole job.
pub fn scope_factor(scope: MemoryScope, cpus: Option<u32>, nodes: Option<u32>) -> (r: u32)
    ensures
        r == spec_scope_factor(scope, cpus, nodes),
{
    match scope {
        MemoryScope::PerCpu => match cpus {
            Some(n) => n,
            None => 1,
        },
        MemoryScope::PerNode => match nodes {
            Some(n) => n,
            None => 1,
        },
        MemoryScope::Whole => 1,
    }
}

/// 2 to the 53rd: below it, whole numbers and their products with powers
/// of two are exact in `f64`.
pub const EXACT_LIMIT: u64 = 9007199254740992;

pub open spec fn pow1024(p: nat) -> nat
    decreases p,
{
    if p == 0 {
        1
    } else {
        1024 * pow1024((p - 1) as nat)
    }
}

pub proof fn lemma_pow1024_positive(p: nat)
    ensures
        pow1024(p) >= 1,
    decreases p,
{
    if p > 0 {
        lemma_pow1024_positive((p - 1) as nat);
    }
}

/// The bytes of a memory amount whose number is written as a whole number,
/// where whole-number arithmetic settles them: `Some(None)` for zero, which
/// is no amount, and `Some(Some(b))` for `b` bytes below 2 to the 53rd,
/// where floating-point arithmetic is exact as well. `None` leaves the
/// amount to floating-point arithmetic: a fraction, an exponent, or a
/// larger amount.
pub open spec fn exact_memory(number: Seq<char>, unit_power: u32, factor: u32) -> Option<Option<nat>> {
    match parse_unsigned(number, (EXACT_LIMIT - 1) as nat) {
        None => None,
        Some(n) => if n == 0 {
            Some(None)
        } else {
            let b = n * pow1024(unit_power as nat) * factor;
            if b < EXACT_LIMIT {
                Some(Some(b as nat))
            } else {
                None
            }
        },
    }
}

pub open spec fn opt_opt_view(o: Option<Option<u64>>) -> Option<Option<nat>> {
    match o {
        Some(Some(b)) => Some(Some(b as nat)),
        Some(None) => Some(None),
        None => None,
    }
}

/// The bytes of a memory request of a job with `cpus` CPUs on `nodes`
/// nodes, where whole-number arithmetic settles them; see `exact_memory`.
pub fn exact_memory_bytes(request: &MemoryRequest, cpus: Option<u32>, nodes: Option<u32>) -> (r:
    Option<Option<u64>>)
    ensures
        opt_opt_view(r) == exact_memory(
            request.number@,
            request.unit_power,
            spec_scope_factor(request.scope, cpus, nodes),
        ),
{
    let factor = scope_factor(request.scope, cpus, nodes);
    let digits = chars_of(request.number.as_str());
    let n = match parse_decimal(digits.as_slice(), EXACT_LIMIT - 1) {
        Some(n) => n,
        None => {
            return None;
        },
    };
    if n == 0 {
        return Some(None);
    }
    let p = request.unit_power;
    let ghost whole = n * pow1024(p as nat) * factor;
    if factor == 0 {
        assert(whole == 0) by (nonlinear_arith)
            requires
                whole == n * pow1024(p as nat) * factor,
                factor == 0,
        ;
        return Some(Some(0));
    }
    let mut partial: u64 = n;
    let mut k: u32 = 0;
    assert(pow1024(0) == 1);
    assert(n * 1 == n);
    while k < p
        invariant
            k <= p,
            0 < n < EXACT_LIMIT,
            factor >= 1,
            partial < EXACT_LIMIT,
            partial == n * pow1024(k as nat),
            whole == n * pow1024(p as nat) * factor,
            p == request.unit_power,
            factor == spec_scope_factor(request.scope, cpus, nodes),
            parse_unsigned(request.number@, (EXACT_LIMIT - 1) as nat) == Some(n as nat),
        decreases p - k,
    {
        let next = partial * 1024;
        proof {
            assert(pow1024((k + 1) as nat) == 1024 * pow1024(k as nat));
            assert(next == n * pow1024((k + 1) as nat)) by (nonlinear_arith)
                requires
                    next == partial * 1024,
                    partial == n * pow1024(k as nat),
                    pow1024((k + 1) as nat) == 1024 * pow1024(k as nat),
            ;
        }
        if next >= EXACT_LIMIT {
            proof {
                lemma_pow_split((k + 1) as nat, p as nat);
                let rest = pow1024((p - k - 1) as nat);
                lemma_pow1024_positive((p - k - 1) as nat);
                assert(whole >= next) by (nonlinear_arith)
                    requires
                        whole == n * pow1024(p as nat) * factor,
                        pow1024(p as nat) == pow1024((k + 1) as nat) * rest,
                        next == n * pow1024((k + 1) as nat),
                        rest >= 1,
                        factor >= 1,
                        n > 0,
                ;
            }
            return None;
        }
        partial = next;
        k = k + 1;
    }
    assert((partial as u128) * (factor as u128) < 0x1_0000_0000_0000_0000_0000_0000u128) by (
    nonlinear_arith)
        requires
            partial < EXACT_LIMIT,
            factor <= u32::MAX,
    ;
    let total: u128 = (partial as u128) * (factor as u128);
    proof {
        assert(total == whole) by (nonlinear_arith)
            requires
                total == partial * factor,
                partial == n * pow1024(p as nat),
                whole == n * pow1024(p as nat) * factor,
        ;
    }
    if total >= EXACT_LIMIT as u128 {
        return None;
    }
    Some(Some(total as u64))
}

/// The unit letters of a memory amount written as digits and a letter, in
/// either case: `K`, `M`, `G`, `T` and `P` are the first to fifth powers of
/// 1024, and an amount with no letter is in megabytes. With no `c` or `n`
/// the amount is for the whole job.
pub proof fn lemma_memory_units(number: Seq<char>)
    requires
        number.len() > 0,
        all_digits(number),
    ensures
        memory_request_of(number) == Some((number, 2u32, MemoryScope::Whole)),
        memory_request_of(number.push('K')) == Some((number, 1u32, MemoryScope::Whole)),
        memory_request_of(number.push('M')) == Some((number, 2u32, MemoryScope::Whole)),
        memory_request_of(number.push('G')) == Some((number, 3u32, MemoryScope::Whole)),
        memory_request_of(number.push('T')) == Some((number, 4u32, MemoryScope::Whole)),
        memory_request_of(number.push('P')) == Some((number, 5u32, MemoryScope::Whole)),
        memory_request_of(number.push('k')) == Some((number, 1u32, MemoryScope::Whole)),
        memory_request_of(number.push('m')) == Some((number, 2u32, MemoryScope::Whole)),
        memory_request_of(number.push('g')) == Some((number, 3u32, MemoryScope::Whole)),
        memory_request_of(number.push('t')) == Some((number, 4u32, MemoryScope::Whole)),
        memory_request_of(number.push('p')) == Some((number, 5u32, MemoryScope::Whole)),
{
    assert(is_ascii_digit(number[0]) && is_ascii_digit(number.last()));
    lemma_trim_unpadded(number);
    lemma_lettered_amount(number, 'K');
    lemma_lettered_amount(number, 'M');
    lemma_lettered_amount(number, 'G');
    lemma_lettered_amount(number, 'T');
    lemma_lettered_amount(number, 'P');
    lemma_lettered_amount(number, 'k');
    lemma_lettered_amount(number, 'm');
    lemma_lettered_amount(number, 'g');
    lemma_lettered_amount(number, 't');
    lemma_lettered_amount(number, 'p');
}

proof fn lemma_lettered_amount(number: Seq<char>, letter: char)
    requires
        number.len() > 0,
        all_digits(number),
        is_ascii_alphabetic(letter),
        ascii_lower(letter) != 'c',
        ascii_lower(letter) != 'n',
    ensures
        memory_request_of(number.push(letter)) == match unit_power_of(ascii_upper(letter)) {
            Some(p) => Some((number, p, MemoryScope::Whole)),
            None => None,
        },
{
    let v = number.push(letter);
    assert(is_ascii_digit(number[0]));
    assert(v[0] == number[0]);
    lemma_trim_unpadded(v);
    assert(v.drop_last() =~= number);
}

/// A trailing `c` or `n`, in either case, makes a memory amount one per
/// allocated CPU or per node, after its unit letter or with none; the
/// bytes of such an amount are multiplied by the CPU or node count, or by
/// one when that is unknown.
pub proof fn lemma_memory_scopes(number: Seq<char>, cpus: Option<u32>, nodes: Option<u32>)
    requires
        number.len() > 0,
        all_digits(number),
    ensures
        memory_request_of(number.push('G').push('c')) == Some((number, 3u32, MemoryScope::PerCpu)),
        memory_request_of(number.push('G').push('C')) == Some((number, 3u32, MemoryScope::PerCpu)),
        memory_request_of(number.push('G').push('n')) == Some((number, 3u32, MemoryScope::PerNode)),
        memory_request_of(number.push('G').push('N')) == Some((number, 3u32, MemoryScope::PerNode)),
        memory_request_of(number.push('c')) == Some((number, 2u32, MemoryScope::PerCpu)),
        memory_request_of(number.push('n')) == Some((number, 2u32, MemoryScope::PerNode)),
        spec_scope_factor(MemoryScope::PerCpu, cpus, nodes) == (match cpus {
            Some(c) => c,
            None => 1,
        }),
        spec_scope_factor(MemoryScope::PerNode, cpus, nodes) == (match nodes {
            Some(n) => n,
            None => 1,
        }),
        spec_scope_factor(MemoryScope::Whole, cpus, nodes) == 1,
{
    assert(is_ascii_digit(number[0]) && is_ascii_digit(number.last()));
    let a = number.push('G');
    assert(a.drop_last() =~= number);
    let ps = seq![a.push('c'), a.push('C'), a.push('n'), a.push('N'), number.push('c'), number.push('n')];
    assert forall|k: int| 0 <= k < ps.len() implies trim(#[trigger] ps[k]) == ps[k] by {
        assert(ps[k][0] == number[0]);
        lemma_trim_unpadded(ps[k]);
    }
    assert(trim(ps[0]) == ps[0] && trim(ps[1]) == ps[1] && trim(ps[2]) == ps[2]);
    assert(trim(ps[3]) == ps[3] && trim(ps[4]) == ps[4] && trim(ps[5]) == ps[5]);
    assert(a.push('c').drop_last() =~= a && a.push('C').drop_last() =~= a);
    assert(a.push('n').drop_last() =~= a && a.push('N').drop_last() =~= a);
    assert(number.push('c').drop_last() =~= number && number.push('n').drop_last() =~= number);
}

/// The bytes of a whole number of gigabytes per CPU or per node are the
/// number times 1024³ times the (positive) count, where they stay below 2 to the
/// 53rd.
pub proof fn lemma_memory_scaled_bytes(number: Seq<char>, count: u32)
    requires
        number.len() > 0,
        all_digits(number),
        digits_value(number) > 0,
        count > 0,
        digits_value(number) * 1073741824 * count < EXACT_LIMIT,
    ensures
        exact_memory(number, 3, count) == Some(
            Some((digits_value(number) * 1073741824 * count) as nat),
        ),
{
    let n = digits_value(number);
    reveal_with_fuel(pow1024, 4);
    assert(pow1024(3) == 1073741824);
    assert(n <= n * 1073741824 * count) by (nonlinear_arith)
        requires
            n > 0,
            count > 0,
    ;
    lemma_parse_digits(number, (EXACT_LIMIT - 1) as nat);
}

/// A whole number of kilobytes, megabytes, gigabytes, terabytes or
/// petabytes is that number times 1024, 1024², 1024³, 1024⁴ or 1024⁵ bytes,
/// where the bytes stay below 2 to the 53rd (`1T` is 1,099,511,627,776
/// bytes); a job-wide amount is not multiplied further.
pub proof fn lemma_memory_unit_bytes(number: Seq<char>)
    requires
        number.len() > 0,
        all_digits(number),
        digits_value(number) > 0,
    ensures
        ({
            let n = digits_value(number);
            &&& n * 1024 < EXACT_LIMIT ==> exact_memory(number, 1, 1) == Some(Some(n * 1024))
            &&& n * 1048576 < EXACT_LIMIT ==> exact_memory(number, 2, 1) == Some(Some(n * 1048576))
            &&& n * 1073741824 < EXACT_LIMIT ==> exact_memory(number, 3, 1) == Some(
                Some(n * 1073741824),
            )
            &&& n * 1099511627776 < EXACT_LIMIT ==> exact_memory(number, 4, 1) == Some(
                Some(n * 1099511627776),
            )
            &&& n * 1125899906842624 < EXACT_LIMIT ==> exact_memory(number, 5, 1) == Some(
                Some(n * 1125899906842624),
            )
        }),
        spec_scope_factor(MemoryScope::Whole, None, None) == 1,
{
    let n = digits_value(number);
    reveal_with_fuel(pow1024, 6);
    assert(pow1024(1) == 1024);
    assert(pow1024(2) == 1048576);
    assert(pow1024(3) == 1073741824);
    assert(pow1024(4) == 1099511627776);
    assert(pow1024(5) == 1125899906842624);
    assert(n <= n * 1024) by (nonlinear_arith);
    if n * 1024 < EXACT_LIMIT {
        lemma_parse_digits(number, (EXACT_LIMIT - 1) as nat);
    }
    assert(n * 1024 <= n * 1048576 <= n * 1073741824 <= n * 1099511627776 <= n * 1125899906842624)
        by (nonlinear_arith);
}

/// `1024^b` is `1024^a` times `1024^(b - a)`.
pub proof fn lemma_pow_split(a: nat, b: nat)
    requires
        a <= b,
    ensures
        pow1024(b) == pow1024(a) * pow1024((b - a) as nat),
    decreases a,
{
    if a > 0 {
        lemma_pow_split((a - 1) as nat, (b - 1) as nat);
        assert(pow1024(b) == 1024 * pow1024((b - 1) as nat));
        assert(pow1024(a) == 1024 * pow1024((a - 1) as nat));
        assert(pow1024(b) == pow1024(a) * pow1024((b - a) as nat)) by (nonlinear_arith)
            requires
                pow1024(b) == 1024 * pow1024((b - 1) as nat),
                pow1024(a) == 1024 * pow1024((a - 1) as nat),
                pow1024((b - 1) as nat) == pow1024((a - 1) as nat) * pow1024((b - a) as nat),
        ;
    } else {
        assert(pow1024(0) == 1);
        assert(1 * pow1024(b) == pow1024(b));
    }
}

} // verus!
