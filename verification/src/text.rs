//! Character-level text primitives with their mathematical meaning.
//!
//! Texts are modelled as `Seq<char>`, the view of `str` and `String`.
//! The executable functions work on `&[char]` so that windows of a text can
//! be handed around without copying.
use vstd::prelude::*;
use vstd::slice::slice_subrange;

verus! {

broadcast use vstd::string::group_string_axioms;

// ---------------------------------------------------------------------------
// Whitespace and trimming
// ---------------------------------------------------------------------------
/// Unicode `White_Space`, the property behind `char::is_whitespace`.
pub open spec fn is_ws(c: char) -> bool {
    ||| ('\u{9}' <= c && c <= '\u{d}')
    ||| c == ' '
    ||| c == '\u{85}'
    ||| c == '\u{a0}'
    ||| c == '\u{1680}'
    ||| ('\u{2000}' <= c && c <= '\u{200a}')
    ||| c == '\u{2028}'
    ||| c == '\u{2029}'
    ||| c == '\u{202f}'
    ||| c == '\u{205f}'
    ||| c == '\u{3000}'
}

/// The text without its leading whitespace.
pub open spec fn trim_start(s: Seq<char>) -> Seq<char>
    decreases s.len(),
{
    if s.len() > 0 && is_ws(s[0]) {
        trim_start(s.drop_first())
    } else {
        s
    }
}

/// The text without its trailing whitespace.
pub open spec fn trim_end(s: Seq<char>) -> Seq<char>
    decreases s.len(),
{
    if s.len() > 0 && is_ws(s.last()) {
        trim_end(s.drop_last())
    } else {
        s
    }
}

/// The text without leading and trailing whitespace.
pub open spec fn trim(s: Seq<char>) -> Seq<char> {
    trim_end(trim_start(s))
}

/// Whether `c` is whitespace.
pub fn is_whitespace(c: char) -> (r: bool)
    ensures
        r == is_ws(c),
{
    ('\u{9}' <= c && c <= '\u{d}') || c == ' ' || c == '\u{85}' || c == '\u{a0}' || c
        == '\u{1680}' || ('\u{2000}' <= c && c <= '\u{200a}') || c == '\u{2028}' || c
        == '\u{2029}' || c == '\u{202f}' || c == '\u{205f}' || c == '\u{3000}'
}

/// Number of leading whitespace characters of `s`.
pub fn leading_ws(s: &[char]) -> (n: usize)
    ensures
        n <= s@.len(),
        s@.skip(n as int) == trim_start(s@),
{
    let mut i: usize = 0;
    assert(s@.skip(0) =~= s@);
    while i < s.len() && is_whitespace(s[i])
        invariant
            i <= s@.len(),
            trim_start(s@.skip(i as int)) == trim_start(s@),
        decreases s.len() - i,
    {
        assert(s@.skip(i as int).drop_first() =~= s@.skip(i + 1));
        i = i + 1;
    }
    i
}

/// Length of `s` once its trailing whitespace is removed.
pub fn trimmed_end(s: &[char]) -> (n: usize)
    ensures
        n <= s@.len(),
        s@.take(n as int) == trim_end(s@),
{
    let mut n: usize = s.len();
    assert(s@.take(n as int) =~= s@);
    while n > 0 && is_whitespace(s[n - 1])
        invariant
            n <= s@.len(),
            trim_end(s@.take(n as int)) == trim_end(s@),
        decreases n,
    {
        assert(s@.take(n as int).drop_last() =~= s@.take(n - 1));
        n = n - 1;
    }
    n
}

/// `s` without leading whitespace.
pub fn trim_start_slice(s: &[char]) -> (r: &[char])
    ensures
        r@ == trim_start(s@),
{
    let a = leading_ws(s);
    slice_subrange(s, a, s.len())
}

/// `s` without leading and trailing whitespace.
pub fn trim_slice(s: &[char]) -> (r: &[char])
    ensures
        r@ == trim(s@),
{
    let t = trim_start_slice(s);
    let b = trimmed_end(t);
    slice_subrange(t, 0, b)
}

// ---------------------------------------------------------------------------
// Prefixes, suffixes and occurrences
// ---------------------------------------------------------------------------
/// `s` begins with `p`.
pub open spec fn starts_with(s: Seq<char>, p: Seq<char>) -> bool {
    p.len() <= s.len() && s.take(p.len() as int) == p
}

/// `s` ends with `p`.
pub open spec fn ends_with(s: Seq<char>, p: Seq<char>) -> bool {
    p.len() <= s.len() && s.skip(s.len() - p.len()) == p
}

/// `p` occurs in `s` at position `i`.
pub open spec fn matches_at(s: Seq<char>, p: Seq<char>, i: int) -> bool {
    0 <= i && i + p.len() <= s.len() && s.subrange(i, i + p.len()) == p
}

/// `p` occurs somewhere in `s`.
pub open spec fn contains(s: Seq<char>, p: Seq<char>) -> bool {
    exists|i: int| matches_at(s, p, i)
}

/// `i` is the position of the first occurrence of `p` in `s`.
pub open spec fn is_first_match(s: Seq<char>, p: Seq<char>, i: int) -> bool {
    matches_at(s, p, i) && forall|j: int| 0 <= j < i ==> !matches_at(s, p, j)
}

/// Position of the first occurrence of `p` in `s`, if any.
pub open spec fn find(s: Seq<char>, p: Seq<char>) -> Option<int> {
    if exists|i: int| is_first_match(s, p, i) {
        Some(choose|i: int| is_first_match(s, p, i))
    } else {
        None
    }
}

/// There is at most one first occurrence.
pub proof fn lemma_first_match_unique(s: Seq<char>, p: Seq<char>, i: int, j: int)
    requires
        is_first_match(s, p, i),
        is_first_match(s, p, j),
    ensures
        i == j,
{
}

/// Whether `p` occurs in `s` at position `i`.
pub fn matches_at_exec(s: &[char], p: &[char], i: usize) -> (r: bool)
    ensures
        r == matches_at(s@, p@, i as int),
{
    if i > s.len() || p.len() > s.len() - i {
        return false;
    }
    let mut k: usize = 0;
    while k < p.len()
        invariant
            i + p@.len() <= s@.len(),
            i + p@.len() <= s.len(),
            k <= p@.len(),
            forall|m: int| 0 <= m < k ==> s@[i + m] == p@[m],
        decreases p.len() - k,
    {
        if s[i + k] != p[k] {
            assert(s@.subrange(i as int, i + p@.len())[k as int] != p@[k as int]);
            return false;
        }
        k = k + 1;
    }
    assert(s@.subrange(i as int, i + p@.len()) =~= p@);
    true
}

/// Whether `s` begins with `p`.
pub fn starts_with_exec(s: &[char], p: &[char]) -> (r: bool)
    ensures
        r == starts_with(s@, p@),
{
    let r = matches_at_exec(s, p, 0);
    assert(r == starts_with(s@, p@));
    r
}

/// Position of the first occurrence of `p` in `s`.
pub fn find_exec(s: &[char], p: &[char]) -> (r: Option<usize>)
    ensures
        match r {
            Some(i) => find(s@, p@) == Some(i as int),
            None => find(s@, p@) is None,
        },
        r is Some ==> is_first_match(s@, p@, r->0 as int),
        r is None ==> !contains(s@, p@),
{
    if p.len() > s.len() {
        assert(!contains(s@, p@));
        assert(!(exists|i: int| is_first_match(s@, p@, i)));
        return None;
    }
    let last = s.len() - p.len();
    let mut i: usize = 0;
    while i <= last
        invariant_except_break
            i <= last,
        invariant
            last + p@.len() == s@.len(),
            forall|j: int| 0 <= j < i ==> !matches_at(s@, p@, j),
        ensures
            forall|j: int| 0 <= j <= last ==> !matches_at(s@, p@, j),
        decreases last - i,
    {
        if matches_at_exec(s, p, i) {
            assert(is_first_match(s@, p@, i as int));
            proof {
                let c = choose|k: int| is_first_match(s@, p@, k);
                lemma_first_match_unique(s@, p@, c, i as int);
            }
            return Some(i);
        }
        if i == last {
            break ;
        }
        i = i + 1;
    }
    assert forall|j: int| !matches_at(s@, p@, j) by {
        if 0 <= j <= last {
        }
    }
    assert(!contains(s@, p@));
    assert(!(exists|k: int| is_first_match(s@, p@, k)));
    None
}

/// Whether `p` occurs in `s`.
pub fn contains_exec(s: &[char], p: &[char]) -> (r: bool)
    ensures
        r == contains(s@, p@),
{
    let f = find_exec(s, p);
    match f {
        Some(i) => {
            assert(matches_at(s@, p@, i as int));
            true
        },
        None => false,
    }
}


// ---------------------------------------------------------------------------
// Lines
// ---------------------------------------------------------------------------
/// Number of characters before the first `'\n'` (the whole length if none).
pub open spec fn line_break(s: Seq<char>) -> nat
    decreases s.len(),
{
    if s.len() == 0 || s[0] == '\n' {
        0
    } else {
        1 + line_break(s.drop_first())
    }
}

/// A line that ended in `"\r\n"` loses its `'\r'`.
pub open spec fn strip_cr(l: Seq<char>) -> Seq<char> {
    if l.len() > 0 && l.last() == '\r' {
        l.drop_last()
    } else {
        l
    }
}

/// The lines of a text, as `str::lines` yields them: split at `'\n'`, a
/// line terminated by `"\r\n"` without its `'\r'`, and no empty line after
/// a final `'\n'`.
pub open spec fn lines(s: Seq<char>) -> Seq<Seq<char>>
    decreases s.len(),
{
    if s.len() == 0 {
        Seq::empty()
    } else if line_break(s) >= s.len() {
        seq![s]
    } else {
        seq![strip_cr(s.take(line_break(s) as int))] + lines(s.skip(line_break(s) as int + 1))
    }
}

/// `s` holds no `'\n'`.
pub open spec fn no_newline(s: Seq<char>) -> bool {
    forall|i: int| 0 <= i < s.len() ==> s[i] != '\n'
}

pub proof fn lemma_line_break_props(s: Seq<char>)
    ensures
        line_break(s) <= s.len(),
        forall|j: int| 0 <= j < line_break(s) ==> s[j] != '\n',
        line_break(s) < s.len() ==> s[line_break(s) as int] == '\n',
    decreases s.len(),
{
    if s.len() > 0 && s[0] != '\n' {
        let t = s.drop_first();
        lemma_line_break_props(t);
        assert forall|j: int| 0 <= j < line_break(s) implies s[j] != '\n' by {
            if j > 0 {
                assert(s[j] == t[j - 1]);
            }
        }
        if line_break(s) < s.len() {
            assert(s[line_break(s) as int] == t[line_break(t) as int]);
        }
    }
}

/// No line of a text holds a `'\n'`.
pub proof fn lemma_lines_no_newline(s: Seq<char>)
    ensures
        forall|i: int| 0 <= i < lines(s).len() ==> no_newline(#[trigger] lines(s)[i]),
    decreases s.len(),
{
    if s.len() > 0 {
        lemma_line_break_props(s);
        let k = line_break(s) as int;
        if k < s.len() {
            lemma_lines_no_newline(s.skip(k + 1));
            let first = strip_cr(s.take(k));
            assert(no_newline(first)) by {
                assert forall|j: int| 0 <= j < first.len() implies first[j] != '\n' by {
                    assert(first[j] == s[j]);
                }
            }
            let rest = lines(s.skip(k + 1));
            assert forall|i: int| 0 <= i < lines(s).len() implies no_newline(
                #[trigger] lines(s)[i],
            ) by {
                if i > 0 {
                    assert(lines(s)[i] == rest[i - 1]);
                }
            }
        }
    }
}

/// Removing leading whitespace keeps a text free of `'\n'`.
pub proof fn lemma_trim_start_no_newline(s: Seq<char>)
    requires
        no_newline(s),
    ensures
        no_newline(trim_start(s)),
        trim_start(s).len() <= s.len(),
    decreases s.len(),
{
    if s.len() > 0 && is_ws(s[0]) {
        let t = s.drop_first();
        assert forall|i: int| 0 <= i < t.len() implies t[i] != '\n' by {
            assert(t[i] == s[i + 1]);
        }
        lemma_trim_start_no_newline(t);
    }
}

/// Removing trailing whitespace keeps a text free of `'\n'`.
pub proof fn lemma_trim_end_no_newline(s: Seq<char>)
    requires
        no_newline(s),
    ensures
        no_newline(trim_end(s)),
    decreases s.len(),
{
    if s.len() > 0 && is_ws(s.last()) {
        let t = s.drop_last();
        assert forall|i: int| 0 <= i < t.len() implies t[i] != '\n' by {
            assert(t[i] == s[i]);
        }
        lemma_trim_end_no_newline(t);
    }
}

/// Whitespace after some non-whitespace does not move the start.
pub proof fn lemma_trim_start_append(x: Seq<char>, y: Seq<char>)
    requires
        trim_start(x).len() > 0,
    ensures
        trim_start(x + y) == trim_start(x) + y,
    decreases x.len(),
{
    if x.len() > 0 && is_ws(x[0]) {
        assert((x + y).drop_first() =~= x.drop_first() + y);
        lemma_trim_start_append(x.drop_first(), y);
    } else {
        assert(x.len() > 0);
        assert((x + y)[0] == x[0]);
    }
}

/// The windows of `s` that `bounds` delimit.
pub open spec fn windows(s: Seq<char>, bounds: Seq<(usize, usize)>) -> Seq<Seq<char>> {
    Seq::new(bounds.len(), |k: int| s.subrange(bounds[k].0 as int, bounds[k].1 as int))
}

/// Every pair of `bounds` is a window of `s`.
pub open spec fn valid_bounds(s: Seq<char>, bounds: Seq<(usize, usize)>) -> bool {
    forall|k: int| 0 <= k < bounds.len() ==> (#[trigger] bounds[k]).0 <= bounds[k].1 <= s.len()
}

pub proof fn lemma_line_break_at(s: Seq<char>, k: int)
    requires
        0 <= k <= s.len(),
        forall|j: int| 0 <= j < k ==> s[j] != '\n',
        k == s.len() || s[k] == '\n',
    ensures
        line_break(s) == k,
    decreases k,
{
    if k > 0 {
        let t = s.drop_first();
        assert forall|j: int| 0 <= j < k - 1 implies t[j] != '\n' by {
            assert(t[j] == s[j + 1]);
        }
        if k < s.len() {
            assert(t[k - 1] == s[k]);
        }
        lemma_line_break_at(t, k - 1);
    }
}

/// The line windows of `s`, in order.
pub fn line_bounds(s: &[char]) -> (r: Vec<(usize, usize)>)
    ensures
        valid_bounds(s@, r@),
        windows(s@, r@) == lines(s@),
{
    let mut r: Vec<(usize, usize)> = Vec::new();
    let mut start: usize = 0;
    let mut i: usize = 0;
    assert(s@.skip(0) =~= s@);
    assert(windows(s@, r@) + lines(s@.skip(0)) =~= lines(s@));
    while i < s.len()
        invariant
            start <= i <= s@.len(),
            i <= s.len(),
            forall|j: int| start <= j < i ==> s@[j] != '\n',
            valid_bounds(s@, r@),
            windows(s@, r@) + lines(s@.skip(start as int)) == lines(s@),
        decreases s.len() - i,
    {
        if s[i] == '\n' {
            let mut end = i;
            if end > start && s[end - 1] == '\r' {
                end = end - 1;
            }
            proof {
                let t = s@.skip(start as int);
                let k = i - start;
                assert forall|j: int| 0 <= j < k implies t[j] != '\n' by {
                    assert(t[j] == s@[start + j]);
                }
                assert(t[k] == s@[i as int]);
                lemma_line_break_at(t, k);
                assert(t.skip(k + 1) =~= s@.skip(i + 1));
                assert(strip_cr(t.take(k)) =~= s@.subrange(start as int, end as int));
                assert(lines(t) =~= seq![s@.subrange(start as int, end as int)] + lines(
                    s@.skip(i + 1),
                ));
            }
            let ghost old_r = r@;
            r.push((start, end));
            assert(windows(s@, r@) =~= windows(s@, old_r).push(
                s@.subrange(start as int, end as int),
            ));
            start = i + 1;
        }
        i = i + 1;
    }
    if start < s.len() {
        proof {
            let t = s@.skip(start as int);
            assert forall|j: int| 0 <= j < t.len() implies t[j] != '\n' by {
                assert(t[j] == s@[start + j]);
            }
            lemma_line_break_at(t, t.len() as int);
            assert(lines(t) =~= seq![s@.subrange(start as int, s@.len() as int)]);
        }
        let ghost old_r = r@;
        r.push((start, s.len()));
        assert(windows(s@, r@) =~= windows(s@, old_r).push(
            s@.subrange(start as int, s@.len() as int),
        ));
    } else {
        assert(s@.skip(start as int) =~= Seq::<char>::empty());
        assert(windows(s@, r@) =~= lines(s@));
    }
    r
}


// ---------------------------------------------------------------------------
// Numbers
// ---------------------------------------------------------------------------
/// Number of characters before the first whitespace (the whole length if none).
pub open spec fn word_len(s: Seq<char>) -> nat
    decreases s.len(),
{
    if s.len() == 0 || is_ws(s[0]) {
        0
    } else {
        1 + word_len(s.drop_first())
    }
}

pub proof fn lemma_word_len_bound(s: Seq<char>)
    ensures
        word_len(s) <= s.len(),
        s.len() > 0 && !is_ws(s[0]) ==> word_len(s) >= 1,
    decreases s.len(),
{
    if s.len() > 0 && !is_ws(s[0]) {
        lemma_word_len_bound(s.drop_first());
    }
}

pub proof fn lemma_word_len_at(s: Seq<char>, k: int)
    requires
        0 <= k <= s.len(),
        forall|j: int| 0 <= j < k ==> !is_ws(s[j]),
        k == s.len() || is_ws(s[k]),
    ensures
        word_len(s) == k,
    decreases k,
{
    if k > 0 {
        let t = s.drop_first();
        assert forall|j: int| 0 <= j < k - 1 implies !is_ws(t[j]) by {
            assert(t[j] == s[j + 1]);
        }
        if k < s.len() {
            assert(t[k - 1] == s[k]);
        }
        lemma_word_len_at(t, k - 1);
    }
}

/// An ASCII decimal digit.
pub open spec fn is_digit(c: char) -> bool {
    '0' <= c && c <= '9'
}

/// The value of an ASCII decimal digit.
pub open spec fn digit_value(c: char) -> nat {
    (c as int - '0' as int) as nat
}

/// Every character of `d` is an ASCII decimal digit.
pub open spec fn all_digits(d: Seq<char>) -> bool {
    forall|i: int| 0 <= i < d.len() ==> #[trigger] is_digit(d[i])
}

/// The number that the decimal digits `d` spell.
pub open spec fn digits_value(d: Seq<char>) -> nat
    decreases d.len(),
{
    if d.len() == 0 {
        0
    } else {
        digits_value(d.drop_last()) * 10 + digit_value(d.last())
    }
}

/// `usize::from_str`: an optional `'+'` followed by at least one ASCII digit,
/// with a value that fits in `usize`.
pub open spec fn parse_usize(w: Seq<char>) -> Option<usize> {
    let d = if w.len() > 1 && w[0] == '+' {
        w.drop_first()
    } else {
        w
    };
    if d.len() > 0 && all_digits(d) && digits_value(d) <= usize::MAX {
        Some(digits_value(d) as usize)
    } else {
        None
    }
}

/// The first whitespace-separated word of `s` that parses as a `usize`.
pub open spec fn first_number(s: Seq<char>) -> Option<usize>
    decreases s.len(),
{
    if s.len() == 0 {
        None
    } else if is_ws(s[0]) {
        first_number(s.drop_first())
    } else {
        proof {
            lemma_word_len_bound(s);
        }
        match parse_usize(s.take(word_len(s) as int)) {
            Some(v) => Some(v),
            None => first_number(s.skip(word_len(s) as int)),
        }
    }
}

pub proof fn lemma_digits_value_monotone(d: Seq<char>, k: int)
    requires
        0 <= k <= d.len(),
    ensures
        digits_value(d.take(k)) <= digits_value(d),
    decreases d.len(),
{
    if k < d.len() {
        assert(d.drop_last().take(k) =~= d.take(k));
        lemma_digits_value_monotone(d.drop_last(), k);
    } else {
        assert(d.take(k) =~= d);
    }
}

/// `usize::from_str` on a word.
pub fn parse_usize_exec(w: &[char]) -> (r: Option<usize>)
    ensures
        r == parse_usize(w@),
{
    let d = if w.len() > 1 && w[0] == '+' {
        slice_subrange(w, 1, w.len())
    } else {
        w
    };
    assert(d@ == (if w@.len() > 1 && w@[0] == '+' {
        w@.drop_first()
    } else {
        w@
    }));
    if d.len() == 0 {
        return None;
    }
    let mut v: usize = 0;
    let mut i: usize = 0;
    assert(d@.take(0) =~= Seq::<char>::empty());
    let ghost outcome = if all_digits(d@) && digits_value(d@) <= usize::MAX {
        Some(digits_value(d@) as usize)
    } else {
        None
    };
    assert(parse_usize(w@) == outcome);
    while i < d.len()
        invariant
            parse_usize(w@) == outcome,
            outcome == (if all_digits(d@) && digits_value(d@) <= usize::MAX {
                Some(digits_value(d@) as usize)
            } else {
                None
            }),
            i <= d@.len(),
            all_digits(d@.take(i as int)),
            v == digits_value(d@.take(i as int)),
        decreases d.len() - i,
    {
        let c = d[i];
        if !('0' <= c && c <= '9') {
            assert(!is_digit(d@[i as int]));
            return None;
        }
        let dv = ((c as u32) - ('0' as u32)) as usize;
        assert(d@.take(i + 1).drop_last() =~= d@.take(i as int));
        assert(digits_value(d@.take(i + 1)) == v * 10 + dv);
        let next = match v.checked_mul(10) {
            Some(m) => m.checked_add(dv),
            None => None,
        };
        match next {
            Some(n) => {
                v = n;
            },
            None => {
                proof {
                    lemma_digits_value_monotone(d@, i + 1);
                }
                return None;
            },
        }
        assert(all_digits(d@.take(i + 1))) by {
            assert forall|k: int| 0 <= k < i + 1 implies #[trigger] is_digit(d@.take(i + 1)[k]) by {
                if k < i {
                    assert(d@.take(i + 1)[k] == d@.take(i as int)[k]);
                }
            }
        }
        i = i + 1;
    }
    assert(d@.take(i as int) =~= d@);
    Some(v)
}

/// The first whitespace-separated word of `s` that parses as a `usize`.
pub fn first_number_exec(s: &[char]) -> (r: Option<usize>)
    ensures
        r == first_number(s@),
{
    let mut i: usize = 0;
    assert(s@.skip(0) =~= s@);
    while i < s.len()
        invariant
            i <= s@.len(),
            first_number(s@.skip(i as int)) == first_number(s@),
        decreases s.len() - i,
    {
        if is_whitespace(s[i]) {
            assert(s@.skip(i as int).drop_first() =~= s@.skip(i + 1));
            i = i + 1;
        } else {
            let mut j: usize = i;
            while j < s.len() && !is_whitespace(s[j])
                invariant
                    i <= j <= s@.len(),
                    forall|k: int| i <= k < j ==> !is_ws(s@[k]),
                decreases s.len() - j,
            {
                j = j + 1;
            }
            proof {
                let t = s@.skip(i as int);
                assert forall|k: int| 0 <= k < j - i implies !is_ws(t[k]) by {
                    assert(t[k] == s@[i + k]);
                }
                if j < s@.len() {
                    assert(t[j - i] == s@[j as int]);
                }
                lemma_word_len_at(t, j - i);
                assert(t.take(j - i) =~= s@.subrange(i as int, j as int));
                assert(t.skip(j - i) =~= s@.skip(j as int));
            }
            let w = slice_subrange(s, i, j);
            let p = parse_usize_exec(w);
            if p.is_some() {
                return p;
            }
            i = j;
        }
    }
    assert(s@.skip(i as int) =~= Seq::<char>::empty());
    None
}

/// A decimal rendering is never empty and consists of digits.
pub proof fn lemma_decimal_digits(n: nat)
    ensures
        decimal(n).len() >= 1,
        n >= 10 ==> decimal(n).len() >= 2,
        forall|i: int| 0 <= i < decimal(n).len() ==> is_digit(#[trigger] decimal(n)[i]),
    decreases n,
{
    if n >= 10 {
        lemma_decimal_digits(n / 10);
        let d = decimal(n / 10);
        assert forall|i: int| 0 <= i < decimal(n).len() implies is_digit(#[trigger] decimal(n)[i]) by {
            if i < d.len() {
                assert(decimal(n)[i] == d[i]);
            }
        }
    }
}

/// Different numbers have different decimal renderings.
pub proof fn lemma_decimal_injective(a: nat, b: nat)
    requires
        decimal(a) == decimal(b),
    ensures
        a == b,
    decreases a,
{
    lemma_decimal_digits(a);
    lemma_decimal_digits(b);
    if a < 10 && b < 10 {
        assert(decimal(a) == seq![digit_char(a)]);
        assert(decimal(b) == seq![digit_char(b)]);
        assert(seq![digit_char(a)][0] == digit_char(a));
        assert(seq![digit_char(b)][0] == digit_char(b));
        assert(decimal(a)[0] == decimal(b)[0]);
        assert(digit_char(a) == digit_char(b));
    } else if a >= 10 && b >= 10 {
        assert(decimal(a) == decimal(a / 10).push(digit_char(a % 10)));
        assert(decimal(b) == decimal(b / 10).push(digit_char(b % 10)));
        assert(decimal(a).last() == digit_char(a % 10));
        assert(decimal(b).last() == digit_char(b % 10));
        assert(decimal(a).drop_last() =~= decimal(a / 10));
        assert(decimal(b).drop_last() =~= decimal(b / 10));
        lemma_decimal_injective(a / 10, b / 10);
        assert(digit_char(a % 10) == digit_char(b % 10));
    }
}

/// The decimal digit whose value is `d`.
pub open spec fn digit_char(d: nat) -> char {
    if d == 0 {
        '0'
    } else if d == 1 {
        '1'
    } else if d == 2 {
        '2'
    } else if d == 3 {
        '3'
    } else if d == 4 {
        '4'
    } else if d == 5 {
        '5'
    } else if d == 6 {
        '6'
    } else if d == 7 {
        '7'
    } else if d == 8 {
        '8'
    } else {
        '9'
    }
}

/// The decimal rendering of `n`, as `usize::to_string` writes it.
pub open spec fn decimal(n: nat) -> Seq<char>
    decreases n,
{
    if n < 10 {
        seq![digit_char(n)]
    } else {
        decimal(n / 10).push(digit_char(n % 10))
    }
}

fn digit_to_char(d: usize) -> (c: char)
    requires
        d < 10,
    ensures
        c == digit_char(d as nat),
{
    if d == 0 {
        '0'
    } else if d == 1 {
        '1'
    } else if d == 2 {
        '2'
    } else if d == 3 {
        '3'
    } else if d == 4 {
        '4'
    } else if d == 5 {
        '5'
    } else if d == 6 {
        '6'
    } else if d == 7 {
        '7'
    } else if d == 8 {
        '8'
    } else {
        '9'
    }
}

/// Appends the decimal rendering of `n` to `out`.
pub fn push_decimal(out: &mut String, n: usize)
    ensures
        final(out)@ == old(out)@ + decimal(n as nat),
    decreases n,
{
    if n >= 10 {
        push_decimal(out, n / 10);
    }
    let c = digit_to_char(n % 10);
    let ghost before = out@;
    push_char(out, c);
    proof {
        if n < 10 {
            assert(n % 10 == n);
        }
    }
}


// ---------------------------------------------------------------------------
// Replacing
// ---------------------------------------------------------------------------
/// `str::replace` for a non-empty pattern: every occurrence of `from`, found
/// from left to right without overlap, is replaced by `to`.
pub open spec fn replace_all(s: Seq<char>, from: Seq<char>, to: Seq<char>) -> Seq<char>
    decreases s.len(),
{
    if from.len() == 0 || s.len() == 0 {
        s
    } else if starts_with(s, from) {
        to + replace_all(s.skip(from.len() as int), from, to)
    } else {
        seq![s[0]] + replace_all(s.drop_first(), from, to)
    }
}

/// `s` with every occurrence of `from` replaced by `to`.
pub fn replace_exec(s: &[char], from: &[char], to: &[char]) -> (r: String)
    requires
        from@.len() > 0,
    ensures
        r@ == replace_all(s@, from@, to@),
{
    let mut out = String::new();
    let mut i: usize = 0;
    assert(s@.skip(0) =~= s@);
    while i < s.len()
        invariant
            i <= s@.len(),
            from@.len() > 0,
            replace_all(s@, from@, to@) == out@ + replace_all(s@.skip(i as int), from@, to@),
        decreases s.len() - i,
    {
        let ghost t = s@.skip(i as int);
        let m = matches_at_exec(s, from, i);
        if m {
            proof {
                assert(t.take(from@.len() as int) =~= s@.subrange(i as int, i + from@.len()));
                assert(t.skip(from@.len() as int) =~= s@.skip(i + from@.len()));
            }
            push_chars(&mut out, to);
            i = i + from.len();
        } else {
            proof {
                if starts_with(t, from@) {
                    assert(s@.subrange(i as int, i + from@.len()) =~= t.take(from@.len() as int));
                }
                assert(t.drop_first() =~= s@.skip(i + 1));
                assert(t[0] == s@[i as int]);
            }
            push_char(&mut out, s[i]);
            i = i + 1;
        }
    }
    assert(s@.skip(i as int) =~= Seq::<char>::empty());
    out
}

// ---------------------------------------------------------------------------
// Converting between `str`, `String` and characters
// ---------------------------------------------------------------------------
/// The characters of `s`.
pub fn chars_of(s: &str) -> (v: Vec<char>)
    ensures
        v@ == s@,
{
    let mut v: Vec<char> = Vec::new();
    for c in it: s.chars()
        invariant
            v@ == it.seq().take(it.index() as int),
    {
        v.push(c);
    }
    v
}

/// `String::push`: appends one character.
#[verifier::external_body]
pub fn push_char(s: &mut String, c: char)
    ensures
        final(s)@ == old(s)@.push(c),
{
    s.push(c);
}

/// Appends the characters of `cs` to `s`.
pub fn push_chars(s: &mut String, cs: &[char])
    ensures
        final(s)@ == old(s)@ + cs@,
{
    let ghost start = s@;
    let mut i: usize = 0;
    while i < cs.len()
        invariant
            i <= cs@.len(),
            s@ == start + cs@.take(i as int),
        decreases cs.len() - i,
    {
        push_char(s, cs[i]);
        assert(cs@.take(i + 1) =~= cs@.take(i as int).push(cs@[i as int]));
        i = i + 1;
    }
    assert(cs@.take(i as int) =~= cs@);
}

/// A `String` holding the characters `cs`.
pub fn string_of(cs: &[char]) -> (s: String)
    ensures
        s@ == cs@,
{
    let mut s = String::new();
    push_chars(&mut s, cs);
    assert(Seq::<char>::empty() + cs@ =~= cs@);
    s
}

/// `a` followed by `b`, as a new `String`.
pub fn concat_str(a: &str, b: &str) -> (s: String)
    ensures
        s@ == a@ + b@,
{
    let mut s = a.to_owned();
    s.append(b);
    s
}

} // verus!
