//! The shapes one comma-separated element of a cron field can take, each
//! stated as a grammar over characters and recognised by a verified scanner:
//! step ranges `a-b/s`, `*/s`, `v/s`, the nearest-weekday `15w`/`w15`, the
//! nth-weekday `fri#3`/`l5`, and month and weekday names.
use vstd::prelude::*;
use crate::consts::days_in_month;
use crate::datetime::{days_before_year, days_from_civil, weekday_of};
use crate::hash::divisor_text;
use crate::text::{all_digits, chars_equal_str, digit_run, is_ascii_digit, lemma_digit_run_unique, sub_chars};

verus! {

/// A `[A-Za-z0-9_]` character (the ASCII part of the regex class `\w`).
pub open spec fn is_word_char(c: char) -> bool {
    ('a' <= c && c <= 'z') || ('A' <= c && c <= 'Z') || ('0' <= c && c <= '9') || c == '_'
}

pub open spec fn all_word(s: Seq<char>) -> bool {
    s.len() > 0 && forall|i: int| 0 <= i < s.len() ==> #[trigger] is_word_char(s[i])
}

/// The first index at or after `start` of `c` in `v`, or the length.
pub fn find_char(v: &Vec<char>, c: char, start: usize) -> (r: usize)
    requires
        start <= v@.len(),
    ensures
        start <= r <= v@.len(),
        forall|i: int| start <= i < r ==> #[trigger] v@[i] != c,
        r < v@.len() ==> v@[r as int] == c,
{
    let mut i: usize = start;
    while i < v.len() && v[i] != c
        invariant
            start <= i <= v@.len(),
            forall|k: int| start <= k < i ==> #[trigger] v@[k] != c,
        decreases v.len() - i,
    {
        i = i + 1;
    }
    i
}

/// The first index at or after `start` of `c1` or `c2` in `v`, or the length.
fn find_either(v: &Vec<char>, c1: char, c2: char, start: usize) -> (r: usize)
    requires
        start <= v@.len(),
    ensures
        start <= r <= v@.len(),
        forall|i: int| start <= i < r ==> #[trigger] v@[i] != c1 && v@[i] != c2,
        r < v@.len() ==> v@[r as int] == c1 || v@[r as int] == c2,
{
    let mut i: usize = start;
    while i < v.len() && v[i] != c1 && v[i] != c2
        invariant
            start <= i <= v@.len(),
            forall|k: int| start <= k < i ==> #[trigger] v@[k] != c1 && v@[k] != c2,
        decreases v.len() - i,
    {
        i = i + 1;
    }
    i
}

/// Two places that are each the first at or after `start` where `stop`
/// holds (or the end) are the same place.
pub proof fn lemma_first_stop_unique(s: Seq<char>, start: int, n1: int, n2: int, stop: spec_fn(char) -> bool)
    requires
        0 <= start,
        0 <= n1,
        0 <= n2,
        start + n1 <= s.len(),
        start + n2 <= s.len(),
        forall|i: int| start <= i < start + n1 ==> !stop(#[trigger] s[i]),
        forall|i: int| start <= i < start + n2 ==> !stop(#[trigger] s[i]),
        start + n1 < s.len() ==> stop(s[start + n1]),
        start + n2 < s.len() ==> stop(s[start + n2]),
    ensures
        n1 == n2,
{
    if n1 < n2 {
        assert(!stop(s[start + n1]));
    } else if n2 < n1 {
        assert(!stop(s[start + n2]));
    }
}

// ---------------------------------------------------------------------------
// `a-b` and `a-b/s`: the regex `^([^-]+)-([^-/]+)(/(\d+))?$`.

/// `t` is the step range `low-high` or `low-high/step`.
pub open spec fn is_step_form(t: Seq<char>, low: Seq<char>, high: Seq<char>, step: Option<Seq<char>>) -> bool {
    &&& t == low + seq!['-'] + high + divisor_text(step)
    &&& low.len() > 0 && !low.contains('-')
    &&& high.len() > 0 && !high.contains('-') && !high.contains('/')
    &&& (step matches Some(d) ==> all_digits(d))
}

/// Where the parts of a step range sit in its text.
proof fn lemma_step_layout(t: Seq<char>, low: Seq<char>, high: Seq<char>, step: Option<Seq<char>>)
    requires
        is_step_form(t, low, high, step),
    ensures
        t.len() == low.len() + 1 + high.len() + divisor_text(step).len(),
        forall|i: int| 0 <= i < low.len() ==> #[trigger] t[i] == low[i],
        t[low.len() as int] == '-',
        forall|i: int| 0 <= i < high.len() ==> #[trigger] t[low.len() + 1 + i] == high[i],
        step matches Some(d) ==> {
            &&& t[low.len() + 1 + high.len() as int] == '/'
            &&& forall|i: int| 0 <= i < d.len() ==> #[trigger] t[low.len() + 2 + high.len() + i] == d[i]
        },
        step is None ==> t.len() == low.len() + 1 + high.len(),
{
    let p1 = low + seq!['-'];
    let p2 = p1 + high;
    assert(t == p2 + divisor_text(step));
    assert forall|i: int| 0 <= i < low.len() implies #[trigger] t[i] == low[i] by {
        assert(p1[i] == low[i]);
        assert(p2[i] == p1[i]);
    }
    assert(p2[low.len() as int] == p1[low.len() as int]);
    assert forall|i: int| 0 <= i < high.len() implies #[trigger] t[low.len() + 1 + i] == high[i] by {
        assert(p2[low.len() + 1 + i] == high[i]);
    }
    if let Some(d) = step {
        let dt = divisor_text(step);
        assert(dt[0] == '/');
        assert(t[p2.len() as int] == dt[0]);
        assert forall|i: int| 0 <= i < d.len() implies #[trigger] t[low.len() + 2 + high.len() + i] == d[i] by {
            assert(dt[1 + i] == d[i]);
            assert(t[p2.len() + (1 + i)] == dt[1 + i]);
        }
    }
}

/// A text is a step range in at most one way.
pub proof fn lemma_step_unique(t: Seq<char>, l1: Seq<char>, h1: Seq<char>, s1: Option<Seq<char>>, l2: Seq<char>, h2: Seq<char>, s2: Option<Seq<char>>)
    requires
        is_step_form(t, l1, h1, s1),
        is_step_form(t, l2, h2, s2),
    ensures
        l1 == l2 && h1 == h2 && s1 == s2,
{
    lemma_step_layout(t, l1, h1, s1);
    lemma_step_layout(t, l2, h2, s2);
    let ghost dash: spec_fn(char) -> bool = |c: char| c == '-';
    assert forall|i: int| 0 <= i < l1.len() implies !dash(#[trigger] t[i]) by {
        assert(t[i] == l1[i]);
        assert(l1.contains(l1[i]));
    }
    assert forall|i: int| 0 <= i < l2.len() implies !dash(#[trigger] t[i]) by {
        assert(t[i] == l2[i]);
        assert(l2.contains(l2[i]));
    }
    lemma_first_stop_unique(t, 0, l1.len() as int, l2.len() as int, dash);
    assert(l1 =~= l2) by {
        assert forall|i: int| 0 <= i < l1.len() implies l1[i] == l2[i] by {
            assert(t[i] == l1[i]);
            assert(t[i] == l2[i]);
        }
    }
    let st: int = l1.len() as int + 1;
    let ghost sep: spec_fn(char) -> bool = |c: char| c == '-' || c == '/';
    assert forall|i: int| st <= i < st + h1.len() implies !sep(#[trigger] t[i]) by {
        assert(t[l1.len() + 1 + (i - st)] == h1[i - st]);
        assert(h1.contains(h1[i - st]));
    }
    assert forall|i: int| st <= i < st + h2.len() implies !sep(#[trigger] t[i]) by {
        assert(t[l2.len() + 1 + (i - st)] == h2[i - st]);
        assert(h2.contains(h2[i - st]));
    }
    lemma_first_stop_unique(t, st, h1.len() as int, h2.len() as int, sep);
    assert(h1 =~= h2) by {
        assert forall|i: int| 0 <= i < h1.len() implies h1[i] == h2[i] by {
            assert(t[l1.len() + 1 + i] == h1[i]);
            assert(t[l2.len() + 1 + i] == h2[i]);
        }
    }
    if let (Some(d1), Some(d2)) = (s1, s2) {
        assert(d1 =~= d2) by {
            assert forall|i: int| 0 <= i < d1.len() implies d1[i] == d2[i] by {
                assert(t[l1.len() + 2 + h1.len() + i] == d1[i]);
                assert(t[l2.len() + 2 + h2.len() + i] == d2[i]);
            }
        }
    }
}

/// The parts of a step range as found in a text.
pub struct StepParts {
    pub low: Vec<char>,
    pub high: Vec<char>,
    pub step: Option<Vec<char>>,
}

impl StepParts {
    pub open spec fn step_view(&self) -> Option<Seq<char>> {
        match self.step {
            Some(d) => Some(d@),
            None => None,
        }
    }
}

/// Recognises a step range; `None` when `t` is not one.
pub fn match_step(t: &Vec<char>) -> (r: Option<StepParts>)
    ensures
        r matches Some(p) ==> is_step_form(t@, p.low@, p.high@, p.step_view()),
        r is None ==> forall|l: Seq<char>, h: Seq<char>, s: Option<Seq<char>>| !is_step_form(t@, l, h, s),
{
    let n = t.len();
    let i = find_char(t, '-', 0);
    let ghost dash: spec_fn(char) -> bool = |c: char| c == '-';
    proof {
        // In any reading as a step range, `low` ends at the first `-`.
        assert forall|l: Seq<char>, h: Seq<char>, s: Option<Seq<char>>| #[trigger] is_step_form(t@, l, h, s)
            implies l.len() == i by {
            lemma_step_layout(t@, l, h, s);
            assert forall|q: int| 0 <= q < l.len() implies !dash(#[trigger] t@[q]) by {
                assert(t@[q] == l[q]);
                assert(l.contains(l[q]));
            }
            assert forall|q: int| 0 <= q < i implies !dash(#[trigger] t@[q]) by {}
            lemma_first_stop_unique(t@, 0, l.len() as int, i as int, dash);
        }
    }
    if i == 0 || i == n {
        proof {
            assert forall|l: Seq<char>, h: Seq<char>, s: Option<Seq<char>>| !is_step_form(t@, l, h, s) by {
                if is_step_form(t@, l, h, s) {
                    lemma_step_layout(t@, l, h, s);
                }
            }
        }
        return None;
    }
    let j = find_either(t, '-', '/', i + 1);
    let ghost sep: spec_fn(char) -> bool = |c: char| c == '-' || c == '/';
    proof {
        assert forall|l: Seq<char>, h: Seq<char>, s: Option<Seq<char>>| #[trigger] is_step_form(t@, l, h, s)
            implies i + 1 + h.len() == j by {
            lemma_step_layout(t@, l, h, s);
            assert forall|q: int| i + 1 <= q < i + 1 + h.len() implies !sep(#[trigger] t@[q]) by {
                assert(t@[l.len() + 1 + (q - i - 1)] == h[q - i - 1]);
                assert(h.contains(h[q - i - 1]));
            }
            assert forall|q: int| i + 1 <= q < j implies !sep(#[trigger] t@[q]) by {}
            if let Some(d) = s {
                assert(t@[l.len() + 1 + h.len() as int] == '/');
            }
            lemma_first_stop_unique(t@, i + 1, h.len() as int, j - i - 1, sep);
        }
    }
    if j == i + 1 || (j < n && t[j] == '-') {
        proof {
            assert forall|l: Seq<char>, h: Seq<char>, s: Option<Seq<char>>| !is_step_form(t@, l, h, s) by {
                if is_step_form(t@, l, h, s) {
                    lemma_step_layout(t@, l, h, s);
                    if j < n && s is None {
                        assert(false);
                    }
                }
            }
        }
        return None;
    }
    let low = sub_chars(t, 0, i);
    let high = sub_chars(t, i + 1, j);
    proof {
        assert(!low@.contains('-')) by {
            if low@.contains('-') {
                let q = choose|q: int| 0 <= q < low@.len() && low@[q] == '-';
                assert(t@[q] != '-');
            }
        }
        assert(!high@.contains('-') && !high@.contains('/')) by {
            if high@.contains('-') || high@.contains('/') {
                let q = choose|q: int| 0 <= q < high@.len() && (high@[q] == '-' || high@[q] == '/');
                assert(t@[i + 1 + q] == high@[q]);
            }
        }
    }
    if j == n {
        let p = StepParts { low, high, step: None };
        proof {
            assert(t@ =~= low@ + seq!['-'] + high@ + divisor_text(None));
        }
        return Some(p);
    }
    let k = digit_run(t, j + 1);
    if k == j + 1 || k != n {
        proof {
            assert forall|l: Seq<char>, h: Seq<char>, s: Option<Seq<char>>| !is_step_form(t@, l, h, s) by {
                if is_step_form(t@, l, h, s) {
                    lemma_step_layout(t@, l, h, s);
                    let d = s->0;
                    assert forall|q: int| j + 1 <= q < j + 1 + d.len() implies #[trigger] is_ascii_digit(t@[q]) by {
                        assert(t@[l.len() + 2 + h.len() + (q - j - 1)] == d[q - j - 1]);
                        assert(is_ascii_digit(d[q - j - 1]));
                    }
                    lemma_digit_run_unique(t@, j + 1, d.len() as int, k - j - 1);
                }
            }
        }
        return None;
    }
    let digits = sub_chars(t, j + 1, n);
    let p = StepParts { low, high, step: Some(digits) };
    proof {
        assert(all_digits(digits@)) by {
            assert forall|q: int| 0 <= q < digits@.len() implies #[trigger] is_ascii_digit(digits@[q]) by {
                assert(digits@[q] == t@[j + 1 + q]);
            }
        }
        assert(t@ =~= low@ + seq!['-'] + high@ + divisor_text(Some(digits@)));
    }
    Some(p)
}

// ---------------------------------------------------------------------------
// `*/s` (the regex `^\*(/.+)$`) and `v/s` (`^(.+)/(.+)$`, split at the last
// `/` that has something after it).

/// `e` is `*/` followed by at least one character.
pub open spec fn is_star_slash(e: Seq<char>) -> bool {
    e.len() >= 3 && e[0] == '*' && e[1] == '/'
}

pub fn star_slash(e: &Vec<char>) -> (r: bool)
    ensures
        r == is_star_slash(e@),
{
    e.len() >= 3 && e[0] == '*' && e[1] == '/'
}

/// `k` is where `^(.+)/(.+)$` splits `e`: the last `/` with at least one
/// character on each side.
pub open spec fn is_value_slash_at(e: Seq<char>, k: int) -> bool {
    &&& 1 <= k <= e.len() - 2
    &&& e[k] == '/'
    &&& forall|j: int| k < j <= e.len() - 2 ==> #[trigger] e[j] != '/'
}

pub proof fn lemma_value_slash_unique(e: Seq<char>, k1: int, k2: int)
    requires
        is_value_slash_at(e, k1),
        is_value_slash_at(e, k2),
    ensures
        k1 == k2,
{
    if k1 < k2 {
        assert(e[k2] != '/');
    } else if k2 < k1 {
        assert(e[k1] != '/');
    }
}

pub fn value_slash(e: &Vec<char>) -> (r: Option<usize>)
    ensures
        r matches Some(k) ==> is_value_slash_at(e@, k as int),
        r is None ==> forall|k: int| !is_value_slash_at(e@, k),
{
    if e.len() < 3 {
        return None;
    }
    let mut k: usize = e.len() - 2;
    while k >= 1 && e[k] != '/'
        invariant
            0 <= k <= e@.len() - 2,
            e@.len() >= 3,
            forall|j: int| k < j <= e@.len() - 2 ==> #[trigger] e@[j] != '/',
        decreases k,
    {
        k = k - 1;
    }
    if k == 0 {
        proof {
            assert forall|q: int| !is_value_slash_at(e@, q) by {
                if is_value_slash_at(e@, q) {
                    assert(e@[q] != '/');
                }
            }
        }
        None
    } else {
        Some(k)
    }
}

// ---------------------------------------------------------------------------
// `15w` / `w15`: the regex `^(?:(\d+)w|w(\d+))$`.

/// The digits of a nearest-weekday element, if `e` is one.
pub open spec fn nearest_w_digits(e: Seq<char>) -> Option<Seq<char>> {
    if e.len() >= 2 && e.last() == 'w' && all_digits(e.drop_last()) {
        Some(e.drop_last())
    } else if e.len() >= 2 && e[0] == 'w' && all_digits(e.drop_first()) {
        Some(e.drop_first())
    } else {
        None
    }
}

pub fn all_digits_in(v: &Vec<char>, from: usize, to: usize) -> (r: bool)
    requires
        from <= to <= v@.len(),
    ensures
        r == all_digits(v@.subrange(from as int, to as int)),
{
    if from == to {
        return false;
    }
    let e = digit_run(v, from);
    proof {
        let s = v@.subrange(from as int, to as int);
        if e >= to {
            assert forall|q: int| 0 <= q < s.len() implies #[trigger] is_ascii_digit(s[q]) by {
                assert(s[q] == v@[from + q]);
            }
        } else {
            assert(s[e - from] == v@[e as int]);
        }
    }
    e >= to
}

pub fn nearest_w(e: &Vec<char>) -> (r: Option<Vec<char>>)
    ensures
        r matches Some(d) ==> nearest_w_digits(e@) == Some(d@),
        r is None ==> nearest_w_digits(e@) is None,
{
    let n = e.len();
    if n < 2 {
        return None;
    }
    assert(e@.drop_last() =~= e@.subrange(0, n - 1));
    assert(e@.drop_first() =~= e@.subrange(1, n as int));
    if e[n - 1] == 'w' && all_digits_in(e, 0, n - 1) {
        return Some(sub_chars(e, 0, n - 1));
    }
    if e[0] == 'w' && all_digits_in(e, 1, n) {
        return Some(sub_chars(e, 1, n));
    }
    None
}

// ---------------------------------------------------------------------------
// Month and weekday names.

pub open spec fn month_number(s: Seq<char>) -> Option<int> {
    if s == "jan"@ { Some(1) }
    else if s == "feb"@ { Some(2) }
    else if s == "mar"@ { Some(3) }
    else if s == "apr"@ { Some(4) }
    else if s == "may"@ { Some(5) }
    else if s == "jun"@ { Some(6) }
    else if s == "jul"@ { Some(7) }
    else if s == "aug"@ { Some(8) }
    else if s == "sep"@ { Some(9) }
    else if s == "oct"@ { Some(10) }
    else if s == "nov"@ { Some(11) }
    else if s == "dec"@ { Some(12) }
    else { None }
}

pub open spec fn weekday_number(s: Seq<char>) -> Option<int> {
    if s == "sun"@ { Some(0) }
    else if s == "mon"@ { Some(1) }
    else if s == "tue"@ { Some(2) }
    else if s == "wed"@ { Some(3) }
    else if s == "thu"@ { Some(4) }
    else if s == "fri"@ { Some(5) }
    else if s == "sat"@ { Some(6) }
    else { None }
}

/// Month abbreviations name the calendar months in order, `jan` being 1
/// and `dec` 12: each names the month whose length in 2023 (a common year)
/// is the familiar one, no two names share a number, and every number a
/// name gives is a month.
pub proof fn lemma_month_names()
    ensures
        month_number("jan"@) == Some(1int) && days_in_month(2023, 1) == 31,
        month_number("feb"@) == Some(2int) && days_in_month(2023, 2) == 28,
        month_number("mar"@) == Some(3int) && days_in_month(2023, 3) == 31,
        month_number("apr"@) == Some(4int) && days_in_month(2023, 4) == 30,
        month_number("may"@) == Some(5int) && days_in_month(2023, 5) == 31,
        month_number("jun"@) == Some(6int) && days_in_month(2023, 6) == 30,
        month_number("jul"@) == Some(7int) && days_in_month(2023, 7) == 31,
        month_number("aug"@) == Some(8int) && days_in_month(2023, 8) == 31,
        month_number("sep"@) == Some(9int) && days_in_month(2023, 9) == 30,
        month_number("oct"@) == Some(10int) && days_in_month(2023, 10) == 31,
        month_number("nov"@) == Some(11int) && days_in_month(2023, 11) == 30,
        month_number("dec"@) == Some(12int) && days_in_month(2023, 12) == 31,
        forall|a: Seq<char>, b: Seq<char>| #[trigger] month_number(a) is Some && month_number(a) == #[trigger] month_number(b)
            ==> a == b,
        forall|a: Seq<char>| #[trigger] month_number(a) matches Some(m) ==> 1 <= m <= 12,
{
    reveal_strlit("jan"); reveal_strlit("feb"); reveal_strlit("mar"); reveal_strlit("apr");
    reveal_strlit("may"); reveal_strlit("jun"); reveal_strlit("jul"); reveal_strlit("aug");
    reveal_strlit("sep"); reveal_strlit("oct"); reveal_strlit("nov"); reveal_strlit("dec");
    assert("jan"@[0] == 'j' && "jan"@[1] == 'a' && "jan"@[2] == 'n');
    assert("feb"@[0] == 'f' && "feb"@[1] == 'e' && "feb"@[2] == 'b');
    assert("mar"@[0] == 'm' && "mar"@[1] == 'a' && "mar"@[2] == 'r');
    assert("apr"@[0] == 'a' && "apr"@[1] == 'p' && "apr"@[2] == 'r');
    assert("may"@[0] == 'm' && "may"@[1] == 'a' && "may"@[2] == 'y');
    assert("jun"@[0] == 'j' && "jun"@[1] == 'u' && "jun"@[2] == 'n');
    assert("jul"@[0] == 'j' && "jul"@[1] == 'u' && "jul"@[2] == 'l');
    assert("aug"@[0] == 'a' && "aug"@[1] == 'u' && "aug"@[2] == 'g');
    assert("sep"@[0] == 's' && "sep"@[1] == 'e' && "sep"@[2] == 'p');
    assert("oct"@[0] == 'o' && "oct"@[1] == 'c' && "oct"@[2] == 't');
    assert("nov"@[0] == 'n' && "nov"@[1] == 'o' && "nov"@[2] == 'v');
    assert("dec"@[0] == 'd' && "dec"@[1] == 'e' && "dec"@[2] == 'c');
    assert(crate::consts::spec_is_leap(2023) == false);
}

/// Weekday abbreviations number the days of the week from Sunday (0) to
/// Saturday (6): each gives the day of the week of the date in the first
/// week of 2023 (1 January 2023 was a Sunday) that bears its name, no two
/// names share a number, and every number a name gives is a day of the
/// week.
pub proof fn lemma_weekday_names()
    ensures
        weekday_number("sun"@) == Some(weekday_of(2023, 1, 1)),
        weekday_number("mon"@) == Some(weekday_of(2023, 1, 2)),
        weekday_number("tue"@) == Some(weekday_of(2023, 1, 3)),
        weekday_number("wed"@) == Some(weekday_of(2023, 1, 4)),
        weekday_number("thu"@) == Some(weekday_of(2023, 1, 5)),
        weekday_number("fri"@) == Some(weekday_of(2023, 1, 6)),
        weekday_number("sat"@) == Some(weekday_of(2023, 1, 7)),
        forall|a: Seq<char>, b: Seq<char>| #[trigger] weekday_number(a) is Some && weekday_number(a) == #[trigger] weekday_number(b)
            ==> a == b,
        forall|a: Seq<char>| #[trigger] weekday_number(a) matches Some(w) ==> 0 <= w < 7,
{
    reveal_strlit("sun"); reveal_strlit("mon"); reveal_strlit("tue"); reveal_strlit("wed");
    reveal_strlit("thu"); reveal_strlit("fri"); reveal_strlit("sat");
    assert("sun"@[0] == 's' && "sun"@[1] == 'u' && "sun"@[2] == 'n');
    assert("mon"@[0] == 'm' && "mon"@[1] == 'o' && "mon"@[2] == 'n');
    assert("tue"@[0] == 't' && "tue"@[1] == 'u' && "tue"@[2] == 'e');
    assert("wed"@[0] == 'w' && "wed"@[1] == 'e' && "wed"@[2] == 'd');
    assert("thu"@[0] == 't' && "thu"@[1] == 'h' && "thu"@[2] == 'u');
    assert("fri"@[0] == 'f' && "fri"@[1] == 'r' && "fri"@[2] == 'i');
    assert("sat"@[0] == 's' && "sat"@[1] == 'a' && "sat"@[2] == 't');
    reveal(days_before_year);
    assert(days_from_civil(2023, 1, 1) == 19358);
}

/// The number of a month abbreviation (`jan` is 1).
pub fn month_of(s: &Vec<char>) -> (r: Option<i64>)
    ensures
        r matches Some(v) ==> month_number(s@) == Some(v as int),
        r is None ==> month_number(s@) is None,
{

    if chars_equal_str(s, "jan") { Some(1) }
    else if chars_equal_str(s, "feb") { Some(2) }
    else if chars_equal_str(s, "mar") { Some(3) }
    else if chars_equal_str(s, "apr") { Some(4) }
    else if chars_equal_str(s, "may") { Some(5) }
    else if chars_equal_str(s, "jun") { Some(6) }
    else if chars_equal_str(s, "jul") { Some(7) }
    else if chars_equal_str(s, "aug") { Some(8) }
    else if chars_equal_str(s, "sep") { Some(9) }
    else if chars_equal_str(s, "oct") { Some(10) }
    else if chars_equal_str(s, "nov") { Some(11) }
    else if chars_equal_str(s, "dec") { Some(12) }
    else { None }
}

/// The number of a weekday abbreviation (`sun` is 0).
pub fn weekday_of_name(s: &Vec<char>) -> (r: Option<i64>)
    ensures
        r matches Some(v) ==> weekday_number(s@) == Some(v as int),
        r is None ==> weekday_number(s@) is None,
{

    if chars_equal_str(s, "sun") { Some(0) }
    else if chars_equal_str(s, "mon") { Some(1) }
    else if chars_equal_str(s, "tue") { Some(2) }
    else if chars_equal_str(s, "wed") { Some(3) }
    else if chars_equal_str(s, "thu") { Some(4) }
    else if chars_equal_str(s, "fri") { Some(5) }
    else if chars_equal_str(s, "sat") { Some(6) }
    else { None }
}

// ---------------------------------------------------------------------------
// `fri#3`, `1#2`, `mon-fri#2` and `l5`: the regex
// `^((weekday(-weekday)?|month(-month)?|\w+)#|l)(\d+)$`.

/// Two weekday names or two month names joined by `-`.
pub open spec fn is_name_range(he: Seq<char>) -> bool {
    &&& he.len() == 7
    &&& he[3] == '-'
    &&& ((weekday_number(he.subrange(0, 3)) is Some && weekday_number(he.subrange(4, 7)) is Some)
        || (month_number(he.subrange(0, 3)) is Some && month_number(he.subrange(4, 7)) is Some))
}

/// What may stand before `#`: a word, or a range of names.
pub open spec fn is_nth_head(he: Seq<char>) -> bool {
    all_word(he) || is_name_range(he)
}

/// `e` is `he#last`.
pub open spec fn is_nth_form(e: Seq<char>, he: Seq<char>, last: Seq<char>) -> bool {
    &&& e == he + seq!['#'] + last
    &&& is_nth_head(he)
    &&& all_digits(last)
}

/// `e` is `l` followed by digits (the last such weekday of the month).
pub open spec fn is_last_nth_form(e: Seq<char>, last: Seq<char>) -> bool {
    e == seq!['l'] + last && all_digits(last)
}

proof fn lemma_nth_head_no_hash(he: Seq<char>)
    requires
        is_nth_head(he),
    ensures
        forall|i: int| 0 <= i < he.len() ==> #[trigger] he[i] != '#',
{
    if all_word(he) {
        assert forall|i: int| 0 <= i < he.len() implies #[trigger] he[i] != '#' by {
            assert(is_word_char(he[i]));
        }
    } else {
        reveal_strlit("sun"); reveal_strlit("mon"); reveal_strlit("tue"); reveal_strlit("wed");
        reveal_strlit("thu"); reveal_strlit("fri"); reveal_strlit("sat");
        reveal_strlit("jan"); reveal_strlit("feb"); reveal_strlit("mar"); reveal_strlit("apr");
        reveal_strlit("may"); reveal_strlit("jun"); reveal_strlit("jul"); reveal_strlit("aug");
        reveal_strlit("sep"); reveal_strlit("oct"); reveal_strlit("nov"); reveal_strlit("dec");
        assert forall|i: int| 0 <= i < he.len() implies #[trigger] he[i] != '#' by {
            if i < 3 {
                assert(he.subrange(0, 3)[i] == he[i]);
            } else if i > 3 {
                assert(he.subrange(4, 7)[i - 4] == he[i]);
            }
        }
    }
}

/// An element is `he#last` in at most one way.
pub proof fn lemma_nth_unique(e: Seq<char>, h1: Seq<char>, l1: Seq<char>, h2: Seq<char>, l2: Seq<char>)
    requires
        is_nth_form(e, h1, l1),
        is_nth_form(e, h2, l2),
    ensures
        h1 == h2 && l1 == l2,
{
    lemma_nth_head_no_hash(h1);
    lemma_nth_head_no_hash(h2);
    let hash = |c: char| c == '#';
    assert forall|i: int| 0 <= i < h1.len() implies !hash(#[trigger] e[i]) by {
        assert((h1 + seq!['#'])[i] == h1[i]);
    }
    assert forall|i: int| 0 <= i < h2.len() implies !hash(#[trigger] e[i]) by {
        assert((h2 + seq!['#'])[i] == h2[i]);
    }
    assert(e[h1.len() as int] == (h1 + seq!['#'])[h1.len() as int]);
    assert(e[h2.len() as int] == (h2 + seq!['#'])[h2.len() as int]);
    lemma_first_stop_unique(e, 0, h1.len() as int, h2.len() as int, hash);
    assert(h1 =~= h2) by {
        assert forall|i: int| 0 <= i < h1.len() implies h1[i] == h2[i] by {
            assert(e[i] == (h1 + seq!['#'])[i]);
            assert(e[i] == (h2 + seq!['#'])[i]);
            assert((h1 + seq!['#'])[i] == h1[i]);
            assert((h2 + seq!['#'])[i] == h2[i]);
        }
    }
    let p1 = h1 + seq!['#'];
    let p2 = h2 + seq!['#'];
    assert(e == p1 + l1);
    assert(e == p2 + l2);
    assert(h1.len() == h2.len());
    assert(e.len() == p1.len() + l1.len());
    assert(e.len() == p2.len() + l2.len());
    assert(l1.len() == l2.len());
    assert(l1 =~= l2) by {
        assert forall|i: int| 0 <= i < l1.len() implies l1[i] == l2[i] by {
            assert(e[p1.len() + i] == l1[i]);
            assert(e[p2.len() + i] == l2[i]);
        }
    }
}

fn is_all_word(v: &Vec<char>) -> (r: bool)
    ensures
        r == all_word(v@),
{
    if v.len() == 0 {
        return false;
    }
    let mut i: usize = 0;
    while i < v.len()
        invariant
            i <= v@.len(),
            forall|k: int| 0 <= k < i ==> #[trigger] is_word_char(v@[k]),
        decreases v.len() - i,
    {
        let c = v[i];
        if !(('a' <= c && c <= 'z') || ('A' <= c && c <= 'Z') || ('0' <= c && c <= '9') || c == '_') {
            assert(!is_word_char(v@[i as int]));
            return false;
        }
        i = i + 1;
    }
    true
}

fn name_range(v: &Vec<char>) -> (r: bool)
    ensures
        r == is_name_range(v@),
{
    if v.len() != 7 || v[3] != '-' {
        return false;
    }
    let a = sub_chars(v, 0, 3);
    let b = sub_chars(v, 4, 7);
    let days = weekday_of_name(&a).is_some() && weekday_of_name(&b).is_some();
    let months = month_of(&a).is_some() && month_of(&b).is_some();
    days || months
}

/// The ways a day-of-week element can carry an nth qualifier.
pub enum SpecialDow {
    /// `he#last`.
    Nth(Vec<char>, Vec<char>),
    /// `l` followed by digits.
    LastOf(Vec<char>),
    /// Neither.
    Plain,
}

/// Recognises the nth-weekday forms of a day-of-week element.
pub fn match_special_dow(e: &Vec<char>) -> (r: SpecialDow)
    ensures
        r matches SpecialDow::Nth(he, last) ==> is_nth_form(e@, he@, last@),
        !(r is Nth) ==> forall|he: Seq<char>, last: Seq<char>| !is_nth_form(e@, he, last),
        r matches SpecialDow::LastOf(last) ==> is_last_nth_form(e@, last@),
        r is Plain ==> forall|last: Seq<char>| !is_last_nth_form(e@, last),
{
    let n = e.len();
    let i = find_char(e, '#', 0);
    let ghost hash: spec_fn(char) -> bool = |c: char| c == '#';
    proof {
        assert forall|he: Seq<char>, last: Seq<char>| #[trigger] is_nth_form(e@, he, last)
            implies he.len() == i by {
            lemma_nth_head_no_hash(he);
            assert forall|q: int| 0 <= q < he.len() implies !hash(#[trigger] e@[q]) by {
                assert((he + seq!['#'])[q] == he[q]);
            }
            assert forall|q: int| 0 <= q < i implies !hash(#[trigger] e@[q]) by {}
            assert(e@[he.len() as int] == (he + seq!['#'])[he.len() as int]);
            lemma_first_stop_unique(e@, 0, he.len() as int, i as int, hash);
        }
    }
    if i < n {
        proof {
            assert forall|last: Seq<char>| !is_last_nth_form(e@, last) by {
                if is_last_nth_form(e@, last) {
                    if i == 0 {
                        assert(e@[0] == 'l');
                    } else {
                        assert(e@[i as int] == last[i - 1]);
                        assert(crate::text::is_ascii_digit(last[i - 1]));
                    }
                }
            }
        }
        let he = sub_chars(e, 0, i);
        let last = sub_chars(e, i + 1, n);
        if i > 0 && all_digits_in(e, i + 1, n) && (is_all_word(&he) || name_range(&he)) {
            proof {
                assert(e@ =~= he@ + seq!['#'] + last@);
            }
            return SpecialDow::Nth(he, last);
        }
        proof {
            assert forall|h: Seq<char>, l: Seq<char>| !is_nth_form(e@, h, l) by {
                if is_nth_form(e@, h, l) {
                    assert(h =~= he@) by {
                        assert forall|q: int| 0 <= q < h.len() implies h[q] == he@[q] by {
                            assert((h + seq!['#'])[q] == h[q]);
                        }
                    }
                    assert(l =~= last@) by {
                        assert forall|q: int| 0 <= q < l.len() implies l[q] == last@[q] by {
                            assert(e@[h.len() + 1 + q] == l[q]);
                        }
                    }
                    if i == 0 {
                        assert(!all_word(h));
                        assert(!is_name_range(h));
                    }
                }
            }
        }
        return SpecialDow::Plain;
    }
    proof {
        assert forall|h: Seq<char>, l: Seq<char>| !is_nth_form(e@, h, l) by {
            if is_nth_form(e@, h, l) {
                assert(e@[h.len() as int] == (h + seq!['#'])[h.len() as int]);
            }
        }
    }
    if n >= 2 && e[0] == 'l' && all_digits_in(e, 1, n) {
        let last = sub_chars(e, 1, n);
        proof {
            assert(e@ =~= seq!['l'] + last@);
        }
        return SpecialDow::LastOf(last);
    }
    proof {
        assert forall|l: Seq<char>| !is_last_nth_form(e@, l) by {
            if is_last_nth_form(e@, l) {
                assert(l =~= e@.subrange(1, n as int));
            }
        }
    }
    SpecialDow::Plain
}

} // verus!
