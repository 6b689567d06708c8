//! Unix path arithmetic on texts: the last component, its stem and
//! extension, and joining a relative path onto a base.
use vstd::prelude::*;
use vstd::slice::slice_subrange;

use crate::text::{chars_of, push_chars, string_of};

verus! {

/// Index just past the last `'/'` of `p` (0 when there is none).
pub open spec fn last_sep_end(p: Seq<char>) -> nat
    decreases p.len(),
{
    if p.len() == 0 {
        0
    } else if p.last() == '/' {
        p.len()
    } else {
        last_sep_end(p.drop_last())
    }
}

pub proof fn lemma_last_sep_end_bound(p: Seq<char>)
    ensures
        last_sep_end(p) <= p.len(),
        p.len() > 0 && p.last() != '/' ==> last_sep_end(p) < p.len(),
    decreases p.len(),
{
    if p.len() > 0 && p.last() != '/' {
        lemma_last_sep_end_bound(p.drop_last());
    }
}

pub proof fn lemma_last_sep_end_at(p: Seq<char>, k: int)
    requires
        0 <= k <= p.len(),
        k == 0 || p[k - 1] == '/',
        forall|j: int| k <= j < p.len() ==> p[j] != '/',
    ensures
        last_sep_end(p) == k,
    decreases p.len() - k,
{
    if k < p.len() {
        let q = p.drop_last();
        assert forall|j: int| k <= j < q.len() implies q[j] != '/' by {
            assert(q[j] == p[j]);
        }
        if k > 0 {
            assert(q[k - 1] == p[k - 1]);
        }
        lemma_last_sep_end_at(q, k);
    }
}

/// `Path::file_name` on Unix: the last component of `p`, where empty and `"."`
/// components are ignored, and none when that component is `".."`, the root
/// or missing.
pub open spec fn file_name(p: Seq<char>) -> Option<Seq<char>>
    decreases p.len(),
{
    if p.len() == 0 {
        None
    } else if p.last() == '/' {
        file_name(p.drop_last())
    } else {
        proof {
            lemma_last_sep_end_bound(p);
        }
        let k = last_sep_end(p) as int;
        let c = p.skip(k);
        if c == seq!['.'] {
            file_name(p.take(k))
        } else if c == seq!['.', '.'] {
            None
        } else {
            Some(c)
        }
    }
}

/// The last component of the path `p`.
pub fn file_name_exec(p: &[char]) -> (r: Option<&[char]>)
    ensures
        match r {
            Some(c) => file_name(p@) == Some(c@),
            None => file_name(p@) is None,
        },
{
    let mut end: usize = p.len();
    assert(p@.take(end as int) =~= p@);
    loop
        invariant
            end <= p@.len(),
            file_name(p@.take(end as int)) == file_name(p@),
        decreases end,
    {
        if end == 0 {
            return None;
        }
        if p[end - 1] == '/' {
            assert(p@.take(end as int).drop_last() =~= p@.take(end - 1));
            end = end - 1;
            continue ;
        }
        let mut k: usize = end;
        while k > 0 && p[k - 1] != '/'
            invariant
                k <= end <= p@.len(),
                forall|j: int| k <= j < end ==> p@[j] != '/',
            decreases k,
        {
            k = k - 1;
        }
        let ghost q = p@.take(end as int);
        proof {
            assert forall|j: int| k <= j < q.len() implies q[j] != '/' by {
                assert(q[j] == p@[j]);
            }
            if k > 0 {
                assert(q[k - 1] == p@[k - 1]);
            }
            lemma_last_sep_end_at(q, k as int);
            assert(q.skip(k as int) =~= p@.subrange(k as int, end as int));
            assert(q.take(k as int) =~= p@.take(k as int));
        }
        if end - k == 1 && p[k] == '.' {
            assert(q.skip(k as int) =~= seq!['.']);
            end = k;
            continue ;
        }
        if end - k == 2 && p[k] == '.' && p[k + 1] == '.' {
            assert(q.skip(k as int) =~= seq!['.', '.']);
            return None;
        }
        let c = slice_subrange(p, k, end);
        proof {
            if end - k == 1 {
                assert(c@[0] != '.');
                assert(c@ != seq!['.']);
            }
            if end - k == 2 {
                assert(c@[0] != '.' || c@[1] != '.');
                assert(c@ != seq!['.', '.']);
            }
            if end - k != 1 {
                assert(c@.len() != seq!['.'].len());
            }
            if end - k != 2 {
                assert(c@.len() != seq!['.', '.'].len());
            }
        }
        return Some(c);
    }
}

/// Position of the last `'.'` in `n`.
pub open spec fn last_dot(n: Seq<char>) -> Option<int>
    decreases n.len(),
{
    if n.len() == 0 {
        None
    } else if n.last() == '.' {
        Some(n.len() - 1)
    } else {
        last_dot(n.drop_last())
    }
}

/// `Path::file_stem` of a file name: the part before the last `'.'`, or the
/// whole name when it has no dot or only a leading one.
pub open spec fn stem_of(n: Seq<char>) -> Seq<char> {
    match last_dot(n) {
        Some(d) => if d > 0 {
            n.take(d)
        } else {
            n
        },
        None => n,
    }
}

/// `Path::extension` of a file name: the part after the last `'.'`, unless
/// that dot is missing or leading.
pub open spec fn extension_of(n: Seq<char>) -> Option<Seq<char>> {
    match last_dot(n) {
        Some(d) => if d > 0 {
            Some(n.skip(d + 1))
        } else {
            None
        },
        None => None,
    }
}

/// `Path::extension` of a path.
pub open spec fn extension(p: Seq<char>) -> Option<Seq<char>> {
    match file_name(p) {
        Some(n) => extension_of(n),
        None => None,
    }
}

/// `Path::file_stem` of a path.
pub open spec fn file_stem(p: Seq<char>) -> Option<Seq<char>> {
    match file_name(p) {
        Some(n) => Some(stem_of(n)),
        None => None,
    }
}

/// Position of the last `'.'` of `n`.
pub fn last_dot_exec(n: &[char]) -> (r: Option<usize>)
    ensures
        match r {
            Some(d) => d < n.len() && last_dot(n@) == Some(d as int),
            None => last_dot(n@) is None,
        },
{
    let mut end: usize = n.len();
    assert(n@.take(end as int) =~= n@);
    while end > 0
        invariant
            end <= n@.len(),
            last_dot(n@.take(end as int)) == last_dot(n@),
        decreases end,
    {
        if n[end - 1] == '.' {
            return Some(end - 1);
        }
        assert(n@.take(end as int).drop_last() =~= n@.take(end - 1));
        end = end - 1;
    }
    None
}

/// `PathBuf::push` of a relative or absolute path `rel` onto `base`: an
/// absolute `rel` replaces `base`; otherwise a `'/'` is put between them
/// unless `base` is empty or already ends with one.
pub open spec fn path_join(base: Seq<char>, rel: Seq<char>) -> Seq<char> {
    if rel.len() > 0 && rel[0] == '/' {
        rel
    } else if base.len() > 0 && base.last() != '/' {
        base + seq!['/'] + rel
    } else {
        base + rel
    }
}

/// `base` joined with `rel`.
pub fn path_join_exec(base: &[char], rel: &[char]) -> (r: String)
    ensures
        r@ == path_join(base@, rel@),
{
    if rel.len() > 0 && rel[0] == '/' {
        return string_of(rel);
    }
    let mut r = string_of(base);
    if base.len() > 0 && base[base.len() - 1] != '/' {
        crate::text::push_char(&mut r, '/');
    }
    push_chars(&mut r, rel);
    r
}

/// Whether the path names a Markdown file: its extension is exactly `md`.
pub open spec fn is_markdown_path(p: Seq<char>) -> bool {
    extension(p) == Some(seq!['m', 'd'])
}

/// Whether `path` has the extension `md`.
pub fn has_md_extension(path: &str) -> (r: bool)
    ensures
        r == is_markdown_path(path@),
{
    let p = chars_of(path);
    match file_name_exec(p.as_slice()) {
        None => false,
        Some(n) => match last_dot_exec(n) {
            None => false,
            Some(d) => {
                if d == 0 {
                    return false;
                }
                let e = slice_subrange(n, d + 1, n.len());
                let r = e.len() == 2 && e[0] == 'm' && e[1] == 'd';
                proof {
                    if r {
                        assert(e@ =~= seq!['m', 'd']);
                    } else if e@.len() == 2 {
                        assert(e@[0] != seq!['m', 'd'][0] || e@[1] != seq!['m', 'd'][1]);
                    }
                }
                r
            },
        },
    }
}

/// A single path component: not empty, without `'/'`, and neither `"."` nor
/// `".."`.
pub open spec fn is_plain_component(n: Seq<char>) -> bool {
    n.len() > 0 && (forall|i: int| 0 <= i < n.len() ==> n[i] != '/') && n != seq!['.'] && n
        != seq!['.', '.']
}

proof fn lemma_after_last_sep(p: Seq<char>)
    ensures
        last_sep_end(p) <= p.len(),
        forall|j: int| last_sep_end(p) <= j < p.len() ==> p[j] != '/',
    decreases p.len(),
{
    if p.len() > 0 && p.last() != '/' {
        lemma_after_last_sep(p.drop_last());
        assert forall|j: int| last_sep_end(p) <= j < p.len() implies p[j] != '/' by {
            if j < p.len() - 1 {
                assert(p.drop_last()[j] == p[j]);
            }
        }
    }
}

/// The last component of a path is a plain component.
pub proof fn lemma_file_name_plain(p: Seq<char>)
    ensures
        file_name(p) matches Some(m) ==> is_plain_component(m),
    decreases p.len(),
{
    if p.len() > 0 {
        if p.last() == '/' {
            lemma_file_name_plain(p.drop_last());
        } else {
            lemma_last_sep_end_bound(p);
            lemma_after_last_sep(p);
            let k = last_sep_end(p) as int;
            let c = p.skip(k);
            if c == seq!['.'] {
                lemma_file_name_plain(p.take(k));
            } else if c != seq!['.', '.'] {
                assert forall|i: int| 0 <= i < c.len() implies c[i] != '/' by {
                    assert(c[i] == p[k + i]);
                }
            }
        }
    }
}

/// A plain component is its own last component, also behind a `'/'`.
pub proof fn lemma_file_name_of_plain(prefix: Seq<char>, n: Seq<char>)
    requires
        is_plain_component(n),
    ensures
        file_name(n) == Some(n),
        file_name(prefix + seq!['/'] + n) == Some(n),
{
    lemma_last_sep_end_at(n, 0);
    assert(n.skip(0) =~= n);
    let q = prefix + seq!['/'] + n;
    let k = prefix.len() + 1int;
    assert(q[k - 1] == '/');
    assert forall|j: int| k <= j < q.len() implies q[j] != '/' by {
        assert(q[j] == n[j - k]);
    }
    lemma_last_sep_end_at(q, k);
    assert(q.skip(k) =~= n);
    assert(q.last() == n.last());
}

/// `last_dot` finds a dot inside the name.
pub proof fn lemma_last_dot_bound(n: Seq<char>)
    ensures
        last_dot(n) matches Some(d) ==> 0 <= d < n.len() && n[d] == '.',
    decreases n.len(),
{
    if n.len() > 0 && n.last() != '.' {
        lemma_last_dot_bound(n.drop_last());
        if let Some(d) = last_dot(n.drop_last()) {
            assert(n.drop_last()[d] == n[d]);
        }
    }
}

// ---------------------------------------------------------------------------
// Components and path equality
// ---------------------------------------------------------------------------
/// The `Normal` and `ParentDir` components of `p`: its `'/'`-separated
/// parts that are neither empty nor `"."`, in order.
pub open spec fn parts(p: Seq<char>) -> Seq<Seq<char>>
    decreases p.len(),
{
    if p.len() == 0 {
        Seq::empty()
    } else {
        proof {
            lemma_last_sep_end_bound(p);
        }
        let k = last_sep_end(p) as int;
        let seg = p.skip(k);
        let rest = if k == 0 {
            Seq::empty()
        } else {
            parts(p.take(k - 1))
        };
        if seg.len() == 0 || seg == seq!['.'] {
            rest
        } else {
            rest.push(seg)
        }
    }
}

/// How `p` begins: 1 with the root `'/'`, 2 with a current-directory `"."`
/// component (`"."` alone or followed by `'/'`), 0 otherwise.
pub open spec fn lead(p: Seq<char>) -> int {
    if p.len() > 0 && p[0] == '/' {
        1
    } else if p.len() > 0 && p[0] == '.' && (p.len() == 1 || p[1] == '/') {
        2
    } else {
        0
    }
}

/// `Path` equality on Unix: the same components, so that repeated `'/'`,
/// `"."` parts and a trailing `'/'` make no difference.
pub open spec fn same_path(a: Seq<char>, b: Seq<char>) -> bool {
    lead(a) == lead(b) && parts(a) == parts(b)
}

fn part_bounds(p: &[char], end: usize) -> (r: Vec<(usize, usize)>)
    requires
        end <= p@.len(),
    ensures
        crate::text::valid_bounds(p@, r@),
        crate::text::windows(p@, r@) == parts(p@.take(end as int)),
    decreases end,
{
    if end == 0 {
        let r: Vec<(usize, usize)> = Vec::new();
        assert(crate::text::windows(p@, r@) =~= parts(p@.take(0)));
        return r;
    }
    let ghost q = p@.take(end as int);
    let mut k: usize = end;
    while k > 0 && p[k - 1] != '/'
        invariant
            k <= end <= p@.len(),
            forall|j: int| k <= j < end ==> p@[j] != '/',
        decreases k,
    {
        k = k - 1;
    }
    proof {
        assert forall|j: int| k <= j < q.len() implies q[j] != '/' by {
            assert(q[j] == p@[j]);
        }
        if k > 0 {
            assert(q[k - 1] == p@[k - 1]);
        }
        lemma_last_sep_end_at(q, k as int);
        assert(q.skip(k as int) =~= p@.subrange(k as int, end as int));
        if k > 0 {
            assert(q.take(k - 1) =~= p@.take(k - 1));
        }
    }
    let mut r = if k == 0 {
        Vec::new()
    } else {
        part_bounds(p, k - 1)
    };
    let ghost rest = crate::text::windows(p@, r@);
    assert(k == 0 ==> rest =~= Seq::<Seq<char>>::empty());
    let seg_len = end - k;
    if seg_len == 0 || (seg_len == 1 && p[k] == '.') {
        proof {
            if seg_len == 1 {
                assert(p@.subrange(k as int, end as int) =~= seq!['.']);
            }
        }
    } else {
        proof {
            let seg = p@.subrange(k as int, end as int);
            if seg_len == 1 {
                assert(seg[0] != seq!['.'][0]);
            } else {
                assert(seg.len() != seq!['.'].len());
            }
        }
        r.push((k, end));
        assert(crate::text::windows(p@, r@) =~= rest.push(p@.subrange(k as int, end as int)));
    }
    r
}

fn lead_exec(p: &[char]) -> (r: u8)
    ensures
        r as int == lead(p@),
{
    if p.len() > 0 && p[0] == '/' {
        1
    } else if p.len() > 0 && p[0] == '.' && (p.len() == 1 || p[1] == '/') {
        2
    } else {
        0
    }
}

/// Whether `a` and `b` name the same path, as `Path` equality decides.
pub fn same_path_exec(a: &str, b: &str) -> (r: bool)
    ensures
        r == same_path(a@, b@),
{
    let ca = chars_of(a);
    let cb = chars_of(b);
    if lead_exec(ca.as_slice()) != lead_exec(cb.as_slice()) {
        return false;
    }
    let pa = part_bounds(ca.as_slice(), ca.len());
    let pb = part_bounds(cb.as_slice(), cb.len());
    assert(ca@.take(ca@.len() as int) =~= ca@);
    assert(cb@.take(cb@.len() as int) =~= cb@);
    let ghost wa = crate::text::windows(ca@, pa@);
    let ghost wb = crate::text::windows(cb@, pb@);
    if pa.len() != pb.len() {
        assert(wa.len() != wb.len());
        return false;
    }
    let mut i: usize = 0;
    while i < pa.len()
        invariant
            i <= pa@.len(),
            pa@.len() == pb@.len(),
            wa == crate::text::windows(ca@, pa@),
            wb == crate::text::windows(cb@, pb@),
            crate::text::valid_bounds(ca@, pa@),
            crate::text::valid_bounds(cb@, pb@),
            wa == parts(a@),
            wb == parts(b@),
            wa.len() == pa@.len(),
            wb.len() == pb@.len(),
            lead(a@) == lead(b@),
            forall|j: int| 0 <= j < i ==> wa[j] == wb[j],
        decreases pa.len() - i,
    {
        let (a0, a1) = pa[i];
        let (b0, b1) = pb[i];
        assert(crate::text::valid_bounds(ca@, pa@) ==> pa@[i as int].0 <= pa@[i as int].1
            <= ca@.len());
        assert(crate::text::valid_bounds(cb@, pb@) ==> pb@[i as int].0 <= pb@[i as int].1
            <= cb@.len());
        let sa = slice_subrange(ca.as_slice(), a0, a1);
        let sb = slice_subrange(cb.as_slice(), b0, b1);
        assert(sa@ == wa[i as int]);
        assert(sb@ == wb[i as int]);
        if sa.len() != sb.len() || !crate::text::starts_with_exec(sa, sb) {
            proof {
                if sa@ == sb@ {
                    assert(sa@.take(sb@.len() as int) =~= sb@);
                }
                assert(wa[i as int] != wb[i as int]);
                assert(wa != wb);
            }
            return false;
        }
        assert(sa@ =~= sb@);
        i = i + 1;
    }
    assert(wa =~= wb);
    true
}

} // verus!
