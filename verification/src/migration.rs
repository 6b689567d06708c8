//! Rewriting the legacy `is_a` / `Is A` frontmatter key into `type`.
use vstd::prelude::*;
use vstd::slice::slice_subrange;

use crate::text::{
    chars_of, find, find_exec, is_first_match, leading_ws, lemma_line_break_at,
    lemma_lines_no_newline, lemma_trim_end_no_newline, lemma_trim_start_append,
    lemma_trim_start_no_newline, line_bounds, lines, matches_at, no_newline, push_char, push_chars,
    starts_with, starts_with_exec, strip_cr, trim, trim_start, trimmed_end, valid_bounds, windows,
};

verus! {

broadcast use vstd::string::group_string_axioms;

/// The spellings of the legacy key, with their colon, in the order they are
/// tried.
pub open spec fn legacy_prefix(k: int) -> Seq<char> {
    if k == 0 {
        "is_a:"@
    } else if k == 1 {
        "\"Is A\":"@
    } else if k == 2 {
        "'Is A':"@
    } else {
        "Is A:"@
    }
}

/// The value of a legacy `is_a` line: the line without leading whitespace
/// begins with one of the legacy spellings (tried in order), and the value
/// is the rest of the line without surrounding whitespace.
pub open spec fn is_a_value(line: Seq<char>) -> Option<Seq<char>> {
    let t = trim_start(line);
    if starts_with(t, legacy_prefix(0)) {
        Some(trim(t.skip(legacy_prefix(0).len() as int)))
    } else if starts_with(t, legacy_prefix(1)) {
        Some(trim(t.skip(legacy_prefix(1).len() as int)))
    } else if starts_with(t, legacy_prefix(2)) {
        Some(trim(t.skip(legacy_prefix(2).len() as int)))
    } else if starts_with(t, legacy_prefix(3)) {
        Some(trim(t.skip(legacy_prefix(3).len() as int)))
    } else {
        None
    }
}

/// A line that sets the legacy key.
pub open spec fn is_legacy_line(line: Seq<char>) -> bool {
    let t = trim_start(line);
    starts_with(t, legacy_prefix(0)) || starts_with(t, legacy_prefix(1)) || starts_with(
        t,
        legacy_prefix(2),
    ) || starts_with(t, legacy_prefix(3))
}

/// A line that sets `type`.
pub open spec fn is_type_line(line: Seq<char>) -> bool {
    starts_with(trim_start(line), "type:"@)
}

/// Some line of the frontmatter `fm` sets the legacy key.
pub open spec fn has_legacy_key(fm: Seq<char>) -> bool {
    exists|i: int| 0 <= i < lines(fm).len() && is_legacy_line(#[trigger] lines(fm)[i])
}

/// Some line of the frontmatter `fm` sets `type`.
pub open spec fn has_type_key(fm: Seq<char>) -> bool {
    exists|i: int| 0 <= i < lines(fm).len() && is_type_line(#[trigger] lines(fm)[i])
}

/// The lines that do not set the legacy key, in order.
pub open spec fn kept_lines(ls: Seq<Seq<char>>) -> Seq<Seq<char>>
    decreases ls.len(),
{
    if ls.len() == 0 {
        Seq::empty()
    } else if is_a_value(ls.last()) is Some {
        kept_lines(ls.drop_last())
    } else {
        kept_lines(ls.drop_last()).push(ls.last())
    }
}

/// The value of the last line that sets the legacy key.
pub open spec fn last_is_a_value(ls: Seq<Seq<char>>) -> Option<Seq<char>>
    decreases ls.len(),
{
    if ls.len() == 0 {
        None
    } else {
        match is_a_value(ls.last()) {
            Some(v) => Some(v),
            None => last_is_a_value(ls.drop_last()),
        }
    }
}

/// The lines joined by `'\n'`.
pub open spec fn join_lines(ls: Seq<Seq<char>>) -> Seq<char>
    decreases ls.len(),
{
    if ls.len() == 0 {
        Seq::empty()
    } else if ls.len() == 1 {
        ls[0]
    } else {
        join_lines(ls.drop_last()) + seq!['\n'] + ls.last()
    }
}

/// The new lines of a frontmatter: the lines that set the legacy key are
/// dropped, and when no line sets `type`, a line `type: <value>` with the
/// value of the last legacy line comes first.
pub open spec fn migrated_lines(fm: Seq<char>) -> Seq<Seq<char>> {
    let ls = lines(fm);
    match last_is_a_value(ls) {
        Some(v) => if !has_type_key(fm) {
            seq!["type: "@ + v] + kept_lines(ls)
        } else {
            kept_lines(ls)
        },
        None => kept_lines(ls),
    }
}

/// The note `c` with its frontmatter migrated, or none when nothing is to
/// be done: the note does not begin with `"---\n"`, no `"\n---"` closes
/// the frontmatter, or no frontmatter line sets the legacy key. The
/// frontmatter runs from just after the opening `"---\n"` to the first
/// `"\n---"`; everything from that closing `"\n---"` on is kept as it is.
pub open spec fn migrate_content(c: Seq<char>) -> Option<Seq<char>> {
    if !starts_with(c, "---\n"@) {
        None
    } else {
        match find(c.skip(4), "\n---"@) {
            None => None,
            Some(i) => {
                let fm = c.subrange(4, 4 + i);
                if !has_legacy_key(fm) {
                    None
                } else {
                    Some("---\n"@ + join_lines(migrated_lines(fm)) + "\n---"@ + c.skip(4 + i + 4))
                }
            },
        }
    }
}

// ---------------------------------------------------------------------------
// Executable functions
// ---------------------------------------------------------------------------
/// Position and length of the legacy spelling that `t` begins with.
fn legacy_prefix_len(t: &[char]) -> (r: Option<usize>)
    ensures
        match r {
            Some(n) => n <= t@.len() && ((starts_with(t@, legacy_prefix(0)) && n == legacy_prefix(
                0,
            ).len()) || (!starts_with(t@, legacy_prefix(0)) && starts_with(t@, legacy_prefix(1))
                && n == legacy_prefix(1).len()) || (!starts_with(t@, legacy_prefix(0))
                && !starts_with(t@, legacy_prefix(1)) && starts_with(t@, legacy_prefix(2)) && n
                == legacy_prefix(2).len()) || (!starts_with(t@, legacy_prefix(0)) && !starts_with(
                t@,
                legacy_prefix(1),
            ) && !starts_with(t@, legacy_prefix(2)) && starts_with(t@, legacy_prefix(3)) && n
                == legacy_prefix(3).len())),
            None => !starts_with(t@, legacy_prefix(0)) && !starts_with(t@, legacy_prefix(1))
                && !starts_with(t@, legacy_prefix(2)) && !starts_with(t@, legacy_prefix(3)),
        },
{
    let p0 = chars_of("is_a:");
    if starts_with_exec(t, p0.as_slice()) {
        return Some(p0.len());
    }
    let p1 = chars_of("\"Is A\":");
    if starts_with_exec(t, p1.as_slice()) {
        return Some(p1.len());
    }
    let p2 = chars_of("'Is A':");
    if starts_with_exec(t, p2.as_slice()) {
        return Some(p2.len());
    }
    let p3 = chars_of("Is A:");
    if starts_with_exec(t, p3.as_slice()) {
        return Some(p3.len());
    }
    None
}

/// The bounds `(a, b)` of the legacy value within `line`.
fn is_a_value_bounds(line: &[char]) -> (r: Option<(usize, usize)>)
    ensures
        match r {
            Some((a, b)) => a <= b <= line@.len() && is_a_value(line@) == Some(
                line@.subrange(a as int, b as int),
            ),
            None => is_a_value(line@) is None,
        },
{
    let lead = leading_ws(line);
    let t = slice_subrange(line, lead, line.len());
    match legacy_prefix_len(t) {
        None => None,
        Some(n) => {
            let rest = slice_subrange(t, n, t.len());
            let a = leading_ws(rest);
            let inner = slice_subrange(rest, a, rest.len());
            let b = trimmed_end(inner);
            proof {
                assert(t@.skip(n as int) =~= rest@);
                assert(inner@.take(b as int) =~= line@.subrange(
                    (lead + n + a) as int,
                    (lead + n + a + b) as int,
                ));
            }
            Some((lead + n + a, lead + n + a + b))
        },
    }
}

/// Whether a frontmatter line sets the legacy key.
fn is_legacy_line_exec(line: &[char]) -> (r: bool)
    ensures
        r == is_legacy_line(line@),
        r == (is_a_value(line@) is Some),
{
    let lead = leading_ws(line);
    let t = slice_subrange(line, lead, line.len());
    legacy_prefix_len(t).is_some()
}

/// Whether some line of the frontmatter `fm_content` sets the legacy
/// `is_a` / `Is A` key.
pub fn has_legacy_is_a(fm_content: &str) -> (r: bool)
    ensures
        r == has_legacy_key(fm_content@),
{
    let c = chars_of(fm_content);
    has_legacy_chars(c.as_slice())
}

fn has_legacy_chars(c: &[char]) -> (r: bool)
    ensures
        r == has_legacy_key(c@),
{
    let bounds = line_bounds(c);
    let ghost ls = lines(c@);
    let mut k: usize = 0;
    while k < bounds.len()
        invariant
            ls == windows(c@, bounds@),
            ls == lines(c@),
            valid_bounds(c@, bounds@),
            k <= bounds@.len(),
            forall|j: int| 0 <= j < k ==> !is_legacy_line(#[trigger] ls[j]),
        decreases bounds.len() - k,
    {
        let (a, b) = bounds[k];
        assert(valid_bounds(c@, bounds@) ==> bounds@[k as int].0 <= bounds@[k as int].1 <= c@.len());
        let line = slice_subrange(c, a, b);
        assert(line@ == ls[k as int]);
        if is_legacy_line_exec(line) {
            return true;
        }
        k = k + 1;
    }
    false
}

/// The value of a legacy `is_a` / `Is A` line, without surrounding
/// whitespace.
pub fn extract_is_a_value(line: &str) -> (r: Option<&str>)
    ensures
        match r {
            Some(v) => is_a_value(line@) == Some(v@),
            None => is_a_value(line@) is None,
        },
{
    let c = chars_of(line);
    match is_a_value_bounds(c.as_slice()) {
        Some((a, b)) => Some(line.substring_char(a, b)),
        None => None,
    }
}

/// The note `content` with its frontmatter key `is_a` / `Is A` migrated to
/// `type`; none when the note needs no migration.
pub fn migrate_file_is_a_to_type(content: &str) -> (r: Option<String>)
    ensures
        match r {
            Some(s) => migrate_content(content@) == Some(s@),
            None => migrate_content(content@) is None,
        },
{
    let c = chars_of(content);
    let open = chars_of("---\n");
    proof {
        reveal_strlit("---\n");
        reveal_strlit("\n---");
    }
    if !starts_with_exec(c.as_slice(), open.as_slice()) {
        return None;
    }
    let body = slice_subrange(c.as_slice(), 4, c.len());
    let close = chars_of("\n---");
    let i = match find_exec(body, close.as_slice()) {
        None => {
            return None;
        },
        Some(i) => i,
    };
    assert(is_first_match(body@, close@, i as int));
    let fm = slice_subrange(c.as_slice(), 4, 4 + i);
    assert(fm@ == c@.subrange(4, 4 + i));
    if !has_legacy_chars(fm) {
        return None;
    }
    let bounds = line_bounds(fm);
    let ghost ls = lines(fm@);
    // First pass: is there a `type` line, and what is the last legacy value?
    let type_p = chars_of("type:");
    let mut has_type = false;
    let mut value: Option<(usize, usize)> = None;
    let mut k: usize = 0;
    assert(ls.take(0) =~= Seq::<Seq<char>>::empty());
    while k < bounds.len()
        invariant
            ls == windows(fm@, bounds@),
            ls == lines(fm@),
            valid_bounds(fm@, bounds@),
            k <= bounds@.len(),
            type_p@ == "type:"@,
            has_type == exists|j: int| 0 <= j < k && is_type_line(#[trigger] ls[j]),
            match value {
                Some((a, b)) => a <= b <= fm@.len() && last_is_a_value(ls.take(k as int)) == Some(
                    fm@.subrange(a as int, b as int),
                ),
                None => last_is_a_value(ls.take(k as int)) is None,
            },
        decreases bounds.len() - k,
    {
        let (a, b) = bounds[k];
        assert(valid_bounds(fm@, bounds@) ==> bounds@[k as int].0 <= bounds@[k as int].1
            <= fm@.len());
        let line = slice_subrange(fm, a, b);
        assert(line@ == ls[k as int]);
        assert(ls.take(k + 1).drop_last() =~= ls.take(k as int));
        assert(ls.take(k + 1).last() == ls[k as int]);
        let lead = leading_ws(line);
        if starts_with_exec(slice_subrange(line, lead, line.len()), type_p.as_slice()) {
            has_type = true;
        }
        if let Some((va, vb)) = is_a_value_bounds(line) {
            assert(line@.subrange(va as int, vb as int) =~= fm@.subrange(a + va, a + vb));
            value = Some((a + va, a + vb));
        }
        k = k + 1;
    }
    assert(ls.take(k as int) =~= ls);
    assert(has_type == has_type_key(fm@));

    // Second pass: write the new note.
    let mut out = String::new();
    push_chars(&mut out, open.as_slice());
    let ghost head: Seq<Seq<char>> = Seq::empty();
    let mut empty = true;
    match value {
        Some((va, vb)) => {
            if !has_type {
                let type_line = chars_of("type: ");
                push_chars(&mut out, type_line.as_slice());
                push_chars(&mut out, slice_subrange(fm, va, vb));
                proof {
                    head = seq![type_line@ + fm@.subrange(va as int, vb as int)];
                    assert(join_lines(head) =~= type_line@ + fm@.subrange(va as int, vb as int));
                }
                empty = false;
            }
        },
        None => {},
    }
    assert(out@ =~= "---\n"@ + join_lines(head));
    k = 0;
    while k < bounds.len()
        invariant
            ls == windows(fm@, bounds@),
            valid_bounds(fm@, bounds@),
            k <= bounds@.len(),
            empty == ((head + kept_lines(ls.take(k as int))).len() == 0),
            out@ == "---\n"@ + join_lines(head + kept_lines(ls.take(k as int))),
        decreases bounds.len() - k,
    {
        let (a, b) = bounds[k];
        assert(valid_bounds(fm@, bounds@) ==> bounds@[k as int].0 <= bounds@[k as int].1
            <= fm@.len());
        let line = slice_subrange(fm, a, b);
        assert(line@ == ls[k as int]);
        assert(ls.take(k + 1).drop_last() =~= ls.take(k as int));
        assert(ls.take(k + 1).last() == ls[k as int]);
        let ghost before = head + kept_lines(ls.take(k as int));
        if !is_legacy_line_exec(line) {
            if !empty {
                push_char(&mut out, '\n');
            }
            push_chars(&mut out, line);
            proof {
                assert(head + kept_lines(ls.take(k + 1)) =~= before.push(line@));
                assert(before.push(line@).drop_last() =~= before);
                if before.len() == 0 {
                    assert(join_lines(before.push(line@)) == line@);
                }
            }
            empty = false;
        } else {
            assert(head + kept_lines(ls.take(k + 1)) =~= before);
        }
        k = k + 1;
    }
    assert(ls.take(k as int) =~= ls);
    assert(head + kept_lines(ls) =~= migrated_lines(fm@));
    push_chars(&mut out, close.as_slice());
    let rest = slice_subrange(c.as_slice(), 4 + i + 4, c.len());
    push_chars(&mut out, rest);
    proof {
        assert(body@ == c@.skip(4));
        assert(rest@ == c@.skip(4 + i + 4));
    }
    Some(out)
}

/// The count of migrated notes once one more note is done: one more when
/// that note was changed.
pub fn record_migration(count: usize, changed: bool) -> (r: usize)
    requires
        count < usize::MAX,
    ensures
        r == count + if changed {
            1int
        } else {
            0int
        },
{
    if changed {
        count + 1
    } else {
        count
    }
}

// ---------------------------------------------------------------------------
// Laws
// ---------------------------------------------------------------------------
/// A line counts as setting the legacy key exactly when a legacy value can
/// be read from it.
pub proof fn law_legacy_line_has_value(line: Seq<char>)
    ensures
        is_legacy_line(line) <==> is_a_value(line) is Some,
{
}

proof fn lemma_kept_lines_not_legacy(ls: Seq<Seq<char>>)
    ensures
        forall|j: int|
            0 <= j < kept_lines(ls).len() ==> !is_legacy_line(#[trigger] kept_lines(ls)[j]),
    decreases ls.len(),
{
    if ls.len() > 0 {
        lemma_kept_lines_not_legacy(ls.drop_last());
        let k = kept_lines(ls.drop_last());
        if is_a_value(ls.last()) is None {
            assert forall|j: int| 0 <= j < kept_lines(ls).len() implies !is_legacy_line(
                #[trigger] kept_lines(ls)[j],
            ) by {
                if j < k.len() {
                    assert(kept_lines(ls)[j] == k[j]);
                }
            }
        }
    }
}

proof fn lemma_type_line_not_legacy(v: Seq<char>)
    ensures
        !is_legacy_line("type: "@ + v),
{
    reveal_strlit("type: ");
    reveal_strlit("is_a:");
    reveal_strlit("\"Is A\":");
    reveal_strlit("'Is A':");
    reveal_strlit("Is A:");
    let l = "type: "@ + v;
    assert(l[0] == 't');
    assert(trim_start(l) == l);
    assert forall|k: int| 0 <= k < 4 implies !starts_with(l, legacy_prefix(k)) by {
        if starts_with(l, legacy_prefix(k)) {
            assert(l.take(legacy_prefix(k).len() as int)[0] == legacy_prefix(k)[0]);
        }
    }
}

/// After migration no frontmatter line sets the legacy key: every legacy
/// line is dropped, and the `type` line that may replace them is not one.
pub proof fn law_migrated_lines_have_no_legacy_key(fm: Seq<char>)
    ensures
        forall|j: int|
            0 <= j < migrated_lines(fm).len() ==> !is_legacy_line(#[trigger] migrated_lines(fm)[j]),
{
    let ls = lines(fm);
    lemma_kept_lines_not_legacy(ls);
    match last_is_a_value(ls) {
        Some(v) => {
            if !has_type_key(fm) {
                lemma_type_line_not_legacy(v);
                let m = migrated_lines(fm);
                assert forall|j: int| 0 <= j < m.len() implies !is_legacy_line(#[trigger] m[j]) by {
                    if j > 0 {
                        assert(m[j] == kept_lines(ls)[j - 1]);
                    }
                }
            }
        },
        None => {},
    }
}

/// When no line sets `type`, the migrated frontmatter begins with
/// `type: <value>`, the value of the last legacy line.
pub proof fn law_migration_sets_type(fm: Seq<char>)
    requires
        !has_type_key(fm),
        last_is_a_value(lines(fm)) is Some,
    ensures
        migrated_lines(fm).len() > 0,
        migrated_lines(fm)[0] == "type: "@ + last_is_a_value(lines(fm))->0,
{
}

/// `x` is one of the lines `ls`, possibly without a trailing `'\r'`.
pub open spec fn from_lines(x: Seq<char>, ls: Seq<Seq<char>>) -> bool {
    exists|j: int| 0 <= j < ls.len() && (x == ls[j] || x == strip_cr(ls[j]))
}

proof fn lemma_join_front(ls: Seq<Seq<char>>)
    requires
        ls.len() >= 2,
    ensures
        join_lines(ls) == ls[0] + seq!['\n'] + join_lines(ls.drop_first()),
    decreases ls.len(),
{
    let nl = seq!['\n'];
    if ls.len() > 2 {
        lemma_join_front(ls.drop_last());
        let mid = ls.drop_last().drop_first();
        assert(mid =~= ls.drop_first().drop_last());
        assert(ls.drop_first().last() == ls.last());
        assert(ls.drop_last()[0] == ls[0]);
        assert(join_lines(ls) == join_lines(ls.drop_last()) + nl + ls.last());
        assert(join_lines(ls.drop_last()) == ls[0] + nl + join_lines(mid));
        assert(join_lines(ls.drop_first()) == join_lines(mid) + nl + ls.last());
        assert(ls[0] + nl + join_lines(mid) + nl + ls.last() =~= ls[0] + nl + (join_lines(mid) + nl
            + ls.last()));
    } else {
        assert(ls.drop_last() =~= seq![ls[0]]);
        assert(ls.drop_first() =~= seq![ls[1]]);
        assert(join_lines(ls.drop_last()) == ls[0]);
        assert(join_lines(ls.drop_first()) == ls[1]);
        assert(join_lines(ls) == join_lines(ls.drop_last()) + nl + ls.last());
    }
}

proof fn lemma_lines_of_single(l: Seq<char>)
    requires
        no_newline(l),
    ensures
        forall|i: int| 0 <= i < lines(l).len() ==> #[trigger] lines(l)[i] == l,
{
    if l.len() > 0 {
        lemma_line_break_at(l, l.len() as int);
    }
}

/// The lines of a joined text, cut just before one of its `'\n'` (or at its
/// end), come from the joined lines.
proof fn lemma_lines_of_join_prefix(ls: Seq<Seq<char>>, p: int)
    requires
        forall|j: int| 0 <= j < ls.len() ==> no_newline(#[trigger] ls[j]),
        0 <= p <= join_lines(ls).len(),
        p == join_lines(ls).len() || join_lines(ls)[p] == '\n',
    ensures
        forall|i: int|
            0 <= i < lines(join_lines(ls).take(p)).len() ==> from_lines(
                #[trigger] lines(join_lines(ls).take(p))[i],
                ls,
            ),
    decreases ls.len(),
{
    let jl = join_lines(ls);
    let pre = jl.take(p);
    if ls.len() == 0 {
        assert(pre.len() == 0);
    } else {
        assert(no_newline(ls[0]));
        let l0 = ls[0];
        if ls.len() == 1 {
            assert(jl == l0);
            if p < l0.len() {
                assert(jl[p] == l0[p]);
            }
            assert(pre =~= l0);
            lemma_lines_of_single(l0);
            assert forall|i: int| 0 <= i < lines(pre).len() implies from_lines(
                #[trigger] lines(pre)[i],
                ls,
            ) by {
                assert(lines(pre)[i] == ls[0]);
            }
        } else {
            lemma_join_front(ls);
            let rest = join_lines(ls.drop_first());
            assert(jl == l0 + seq!['\n'] + rest);
            if p <= l0.len() {
                if p < l0.len() {
                    assert(jl[p] == l0[p]);
                }
                assert(pre =~= l0);
                lemma_lines_of_single(l0);
                assert forall|i: int| 0 <= i < lines(pre).len() implies from_lines(
                    #[trigger] lines(pre)[i],
                    ls,
                ) by {
                    assert(lines(pre)[i] == ls[0]);
                }
            } else {
                let q = p - l0.len() - 1;
                assert forall|j: int| 0 <= j < ls.drop_first().len() implies no_newline(
                    #[trigger] ls.drop_first()[j],
                ) by {
                    assert(ls.drop_first()[j] == ls[j + 1]);
                }
                if q < rest.len() {
                    assert(rest[q] == jl[p]);
                }
                lemma_lines_of_join_prefix(ls.drop_first(), q);
                assert(pre =~= l0 + seq!['\n'] + rest.take(q));
                assert forall|j: int| 0 <= j < l0.len() implies pre[j] != '\n' by {
                    assert(pre[j] == l0[j]);
                }
                lemma_line_break_at(pre, l0.len() as int);
                assert(pre.take(l0.len() as int) =~= l0);
                assert(pre.skip(l0.len() + 1int) =~= rest.take(q));
                let tail = lines(rest.take(q));
                assert(lines(pre) == seq![strip_cr(l0)] + tail);
                assert forall|i: int| 0 <= i < lines(pre).len() implies from_lines(
                    #[trigger] lines(pre)[i],
                    ls,
                ) by {
                    if i == 0 {
                        assert(lines(pre)[0] == strip_cr(ls[0]));
                    } else {
                        assert(lines(pre)[i] == tail[i - 1]);
                        assert(from_lines(tail[i - 1], ls.drop_first()));
                        let j = choose|j: int|
                            0 <= j < ls.drop_first().len() && (tail[i - 1] == ls.drop_first()[j]
                                || tail[i - 1] == strip_cr(ls.drop_first()[j]));
                        assert(ls.drop_first()[j] == ls[j + 1]);
                    }
                }
            }
        }
    }
}

proof fn lemma_legacy_prefixes_nonempty()
    ensures
        forall|k: int| 0 <= k < 4 ==> #[trigger] legacy_prefix(k).len() > 0,
{
    reveal_strlit("is_a:");
    reveal_strlit("\"Is A\":");
    reveal_strlit("'Is A':");
    reveal_strlit("Is A:");
}

/// Dropping a trailing `'\r'` does not turn a line into a legacy one.
proof fn lemma_strip_cr_not_legacy(l: Seq<char>)
    requires
        !is_legacy_line(l),
    ensures
        !is_legacy_line(strip_cr(l)),
{
    if l.len() > 0 && l.last() == '\r' {
        let x = l.drop_last();
        if is_legacy_line(x) {
            lemma_legacy_prefixes_nonempty();
            let t = trim_start(x);
            assert(t.len() > 0) by {
                assert(legacy_prefix(0).len() > 0 && legacy_prefix(1).len() > 0
                    && legacy_prefix(2).len() > 0 && legacy_prefix(3).len() > 0);
            }
            assert(l =~= x + seq!['\r']);
            lemma_trim_start_append(x, seq!['\r']);
            let tl = trim_start(l);
            assert(tl == t + seq!['\r']);
            assert forall|k: int| 0 <= k < 4 && starts_with(t, #[trigger] legacy_prefix(k)) implies starts_with(
                tl,
                legacy_prefix(k),
            ) by {
                assert(tl.take(legacy_prefix(k).len() as int) =~= t.take(
                    legacy_prefix(k).len() as int,
                ));
            }
            assert(starts_with(t, legacy_prefix(0)) || starts_with(t, legacy_prefix(1))
                || starts_with(t, legacy_prefix(2)) || starts_with(t, legacy_prefix(3)));
        }
    }
}

proof fn lemma_kept_from(ls: Seq<Seq<char>>)
    ensures
        forall|i: int|
            0 <= i < kept_lines(ls).len() ==> exists|j: int|
                0 <= j < ls.len() && #[trigger] kept_lines(ls)[i] == ls[j],
    decreases ls.len(),
{
    if ls.len() > 0 {
        let init = ls.drop_last();
        lemma_kept_from(init);
        let k = kept_lines(init);
        assert forall|i: int| 0 <= i < kept_lines(ls).len() implies exists|j: int|
            0 <= j < ls.len() && #[trigger] kept_lines(ls)[i] == ls[j] by {
            if i < k.len() {
                assert(kept_lines(ls)[i] == k[i]);
                let j = choose|j: int| 0 <= j < init.len() && k[i] == init[j];
                assert(init[j] == ls[j]);
            } else {
                assert(kept_lines(ls)[i] == ls[ls.len() - 1]);
            }
        }
    }
}

proof fn lemma_last_value_from(ls: Seq<Seq<char>>)
    ensures
        last_is_a_value(ls) matches Some(v) ==> exists|j: int|
            0 <= j < ls.len() && is_a_value(#[trigger] ls[j]) == Some(v),
    decreases ls.len(),
{
    if ls.len() > 0 {
        lemma_last_value_from(ls.drop_last());
        if is_a_value(ls.last()) is None {
            if let Some(v) = last_is_a_value(ls) {
                let j = choose|j: int|
                    0 <= j < ls.drop_last().len() && is_a_value(#[trigger] ls.drop_last()[j])
                        == Some(v);
                assert(ls.drop_last()[j] == ls[j]);
            }
        } else {
            assert(is_a_value(ls[ls.len() - 1]) == last_is_a_value(ls));
        }
    }
}

proof fn lemma_value_no_newline(line: Seq<char>)
    requires
        no_newline(line),
    ensures
        is_a_value(line) matches Some(v) ==> no_newline(v),
{
    let t = trim_start(line);
    lemma_trim_start_no_newline(line);
    assert forall|k: int| 0 <= k <= t.len() implies no_newline(#[trigger] t.skip(k)) by {
        assert forall|i: int| 0 <= i < t.skip(k).len() implies t.skip(k)[i] != '\n' by {
            assert(t.skip(k)[i] == t[k + i]);
        }
    }
    assert forall|k: int| 0 <= k <= t.len() implies no_newline(trim(#[trigger] t.skip(k))) by {
        lemma_trim_start_no_newline(t.skip(k));
        lemma_trim_end_no_newline(trim_start(t.skip(k)));
    }
}

/// The migrated lines hold no `'\n'`.
proof fn lemma_migrated_lines_no_newline(fm: Seq<char>)
    ensures
        forall|j: int|
            0 <= j < migrated_lines(fm).len() ==> no_newline(#[trigger] migrated_lines(fm)[j]),
{
    let ls = lines(fm);
    lemma_lines_no_newline(fm);
    lemma_kept_from(ls);
    let kept = kept_lines(ls);
    assert forall|j: int| 0 <= j < kept.len() implies no_newline(#[trigger] kept[j]) by {
        let m = choose|m: int| 0 <= m < ls.len() && #[trigger] kept[j] == ls[m];
        assert(no_newline(ls[m]));
    }
    match last_is_a_value(ls) {
        Some(v) => {
            if !has_type_key(fm) {
                lemma_last_value_from(ls);
                let m = choose|m: int| 0 <= m < ls.len() && is_a_value(#[trigger] ls[m]) == Some(v);
                assert(no_newline(ls[m]));
                lemma_value_no_newline(ls[m]);
                reveal_strlit("type: ");
                let tl = "type: "@ + v;
                assert(no_newline(tl)) by {
                    assert forall|i: int| 0 <= i < tl.len() implies tl[i] != '\n' by {
                        if i >= 6 {
                            assert(tl[i] == v[i - 6]);
                        }
                    }
                }
                let mm = migrated_lines(fm);
                assert forall|j: int| 0 <= j < mm.len() implies no_newline(#[trigger] mm[j]) by {
                    if j > 0 {
                        assert(mm[j] == kept[j - 1]);
                    }
                }
            }
        },
        None => {},
    }
}

/// Migrating a migrated note changes nothing more: once migrated, its
/// frontmatter sets no legacy key.
pub proof fn law_migration_idempotent(c: Seq<char>)
    requires
        migrate_content(c) is Some,
    ensures
        migrate_content(migrate_content(c)->0) is None,
{
    reveal_strlit("---\n");
    reveal_strlit("\n---");
    let b = c.skip(4);
    let pat = "\n---"@;
    let i = find(b, pat)->0;
    assert(exists|x: int| is_first_match(b, pat, x));
    assert(is_first_match(b, pat, i));
    let fm = c.subrange(4, 4 + i);
    let ml = migrated_lines(fm);
    let jl = join_lines(ml);
    let r = c.skip(4 + i + 4);
    let n = "---\n"@ + jl + "\n---"@ + r;
    assert(migrate_content(c)->0 == n);
    assert(starts_with(n, "---\n"@)) by {
        assert(n.take(4) =~= "---\n"@);
    }
    let b2 = n.skip(4);
    assert(b2 =~= jl + pat + r);
    if find(b2, pat) is Some {
        let i2 = find(b2, pat)->0;
        assert(exists|x: int| is_first_match(b2, pat, x));
        assert(is_first_match(b2, pat, i2));
        assert(matches_at(b2, pat, jl.len() as int)) by {
            assert(b2.subrange(jl.len() as int, jl.len() + 4int) =~= pat);
        }
        assert(i2 <= jl.len());
        if i2 < jl.len() {
            assert(b2.subrange(i2, i2 + 4)[0] == pat[0]);
            assert(b2[i2] == jl[i2]);
        }
        let fm2 = n.subrange(4, 4 + i2);
        assert(fm2 =~= jl.take(i2));
        lemma_migrated_lines_no_newline(fm);
        law_migrated_lines_have_no_legacy_key(fm);
        lemma_lines_of_join_prefix(ml, i2);
        assert forall|k: int| 0 <= k < lines(fm2).len() implies !is_legacy_line(
            #[trigger] lines(fm2)[k],
        ) by {
            assert(from_lines(lines(fm2)[k], ml));
            let j = choose|j: int|
                0 <= j < ml.len() && (lines(fm2)[k] == ml[j] || lines(fm2)[k] == strip_cr(ml[j]));
            assert(!is_legacy_line(ml[j]));
            lemma_strip_cr_not_legacy(ml[j]);
        }
        assert(!has_legacy_key(fm2));
    }
}

/// The frontmatter lines that do not set the legacy key, in order.
pub open spec fn other_lines(fm: Seq<char>) -> Seq<Seq<char>> {
    lines(fm).filter(|l: Seq<char>| !is_legacy_line(l))
}

proof fn lemma_kept_lines_filter(ls: Seq<Seq<char>>)
    ensures
        kept_lines(ls) == ls.filter(|l: Seq<char>| !is_legacy_line(l)),
    decreases ls.len(),
{
    reveal(Seq::filter);
    if ls.len() > 0 {
        lemma_kept_lines_filter(ls.drop_last());
        law_legacy_line_has_value(ls.last());
    }
}

/// Migration keeps every frontmatter line that does not set the legacy
/// key, in order and unchanged, and drops every one that does; the only
/// line it may add comes first.
pub proof fn law_migration_keeps_other_lines(fm: Seq<char>)
    ensures
        other_lines(fm).len() <= migrated_lines(fm).len() <= other_lines(fm).len() + 1,
        migrated_lines(fm).skip(migrated_lines(fm).len() - other_lines(fm).len()) == other_lines(fm),
{
    let ls = lines(fm);
    lemma_kept_lines_filter(ls);
    let m = migrated_lines(fm);
    let k = kept_lines(ls);
    if m.len() == k.len() + 1 {
        assert(m.skip(1) =~= k);
    } else {
        assert(m.skip(0) =~= k);
    }
}

} // verus!
