//! Reading the report of `qmd status` for one vault.
use vstd::prelude::*;
use vstd::slice::slice_subrange;

use crate::path::{file_name, file_name_exec, is_plain_component, lemma_file_name_of_plain};
use crate::text::{
    chars_of, contains, contains_exec, first_number, first_number_exec, line_bounds, lines, push_chars,
    starts_with, starts_with_exec, trim, trim_slice, valid_bounds, windows,
};

verus! {

broadcast use vstd::string::group_string_axioms;

/// State of the qmd search index of a vault.
#[derive(Debug, Clone, Copy, PartialEq, Eq)]
pub struct IndexStatus {
    pub available: bool,
    pub qmd_installed: bool,
    pub collection_exists: bool,
    pub indexed_count: usize,
    pub embedded_count: usize,
    pub pending_embed: usize,
}

/// The status reported when there is nothing to read: qmd may or may not be
/// installed, and no index is available.
pub open spec fn unavailable_status(qmd_installed: bool) -> IndexStatus {
    IndexStatus {
        available: false,
        qmd_installed,
        collection_exists: false,
        indexed_count: 0,
        embedded_count: 0,
        pending_embed: 0,
    }
}

// ---------------------------------------------------------------------------
// Vault and collection names
// ---------------------------------------------------------------------------
/// What `str::to_lowercase` returns: the Unicode lowercase mapping of each
/// character, which may change the length of the text.
pub uninterp spec fn lowercase(s: Seq<char>) -> Seq<char>;

/// `str::to_lowercase`. The claim is only that the result is the
/// lowercase mapping named `lowercase` applied to the argument.
#[verifier::external_body]
fn to_lowercase(s: &[char]) -> (r: String)
    ensures
        r@ == lowercase(s@),
{
    s.iter().collect::<String>().to_lowercase()
}

/// Name of the qmd collection of a vault: the last component of its path,
/// `laputa` when it has none, lowercased.
pub open spec fn spec_vault_dir_name(vault_path: Seq<char>) -> Seq<char> {
    match file_name(vault_path) {
        Some(n) => lowercase(n),
        None => lowercase("laputa"@),
    }
}

/// The collection name that qmd uses for the vault at `vault_path`.
pub fn vault_dir_name(vault_path: &str) -> (r: String)
    ensures
        r@ == spec_vault_dir_name(vault_path@),
{
    let p = chars_of(vault_path);
    match file_name_exec(p.as_slice()) {
        Some(n) => to_lowercase(n),
        None => {
            let d = chars_of("laputa");
            to_lowercase(d.as_slice())
        },
    }
}

/// The address qmd gives the collection `name`: `qmd://<name>/`.
pub open spec fn collection_url(name: Seq<char>) -> Seq<char> {
    "qmd://"@ + name + "/"@
}

/// `qmd://<name>/` as characters.
pub fn collection_url_exec(name: &[char]) -> (r: Vec<char>)
    ensures
        r@ == collection_url(name@),
{
    let mut s = String::from_str("qmd://");
    push_chars(&mut s, name);
    push_chars(&mut s, chars_of("/").as_slice());
    chars_of(s.as_str())
}

// ---------------------------------------------------------------------------
// Numbers in report lines
// ---------------------------------------------------------------------------
/// The count on a line that begins with `prefix`.
pub open spec fn count_after(line: Seq<char>, prefix: Seq<char>) -> Option<usize> {
    if starts_with(line, prefix) {
        first_number(line)
    } else {
        None
    }
}

/// The first whitespace-separated word of `s` that parses as a `usize`.
pub fn extract_first_number(s: &str) -> (r: Option<usize>)
    ensures
        r == first_number(s@),
{
    let c = chars_of(s);
    first_number_exec(c.as_slice())
}

/// The count on `line` when it begins with `prefix`.
pub fn extract_count_from_line(line: &str, prefix: &str) -> (r: Option<usize>)
    ensures
        r == count_after(line@, prefix@),
{
    let l = chars_of(line);
    let p = chars_of(prefix);
    count_after_exec(l.as_slice(), p.as_slice())
}

fn count_after_exec(line: &[char], prefix: &[char]) -> (r: Option<usize>)
    ensures
        r == count_after(line@, prefix@),
{
    if !starts_with_exec(line, prefix) {
        return None;
    }
    first_number_exec(line)
}

/// The number on the first line of `out` that holds one; 0 when none does.
pub open spec fn first_line_number(ls: Seq<Seq<char>>) -> usize
    decreases ls.len(),
{
    if ls.len() == 0 {
        0
    } else {
        match first_number(ls[0]) {
            Some(n) => n,
            None => first_line_number(ls.drop_first()),
        }
    }
}

/// The count that `qmd update` reports, such as `Indexed 342 files`: the
/// number on the first line that holds one, or 0.
pub fn parse_indexed_count(update_output: &str) -> (r: usize)
    ensures
        r == first_line_number(lines(update_output@)),
{
    let c = chars_of(update_output);
    let bounds = line_bounds(c.as_slice());
    let ghost ls = lines(c@);
    let mut k: usize = 0;
    assert(ls.skip(0) =~= ls);
    while k < bounds.len()
        invariant
            ls == windows(c@, bounds@),
            ls == lines(update_output@),
            valid_bounds(c@, bounds@),
            k <= bounds@.len(),
            first_line_number(ls.skip(k as int)) == first_line_number(ls),
        decreases bounds.len() - k,
    {
        let (a, b) = bounds[k];
        assert(valid_bounds(c@, bounds@) ==> bounds@[k as int].0 <= bounds@[k as int].1 <= c@.len());
        let line = slice_subrange(c.as_slice(), a, b);
        assert(line@ == ls[k as int]);
        assert(ls.skip(k as int)[0] == ls[k as int]);
        if let Some(n) = first_number_exec(line) {
            assert(ls.skip(k as int).len() > 0);
            assert(first_line_number(ls.skip(k as int)) == n);
            return n;
        }
        assert(ls.skip(k as int).drop_first() =~= ls.skip(k + 1));
        k = k + 1;
    }
    assert(ls.skip(k as int) =~= Seq::<Seq<char>>::empty());
    0
}

// ---------------------------------------------------------------------------
// The status report
// ---------------------------------------------------------------------------
/// What the first pass over the report has found: whether the vault's
/// collection header was seen, whether the current line lies in its section,
/// and the file count of that section.
pub struct SectionScan {
    pub found: bool,
    pub in_section: bool,
    pub files: usize,
}

/// The first pass, one line further. A line naming the vault's collection
/// (`qmd://<name>/`) opens its section; any other line with a `qmd://`
/// address starts another collection's section and so closes it; inside
/// the section a `Files:` line sets the count.
pub open spec fn section_step(st: SectionScan, line: Seq<char>, name: Seq<char>) -> SectionScan {
    let t = trim(line);
    if contains(t, collection_url(name)) {
        SectionScan { found: true, in_section: true, files: st.files }
    } else if contains(t, "qmd://"@) {
        SectionScan { in_section: false, ..st }
    } else if st.in_section {
        match count_after(t, "Files:"@) {
            Some(c) => SectionScan { files: c, ..st },
            None => st,
        }
    } else {
        st
    }
}

/// The first pass over the lines `ls`.
pub open spec fn section_scan(ls: Seq<Seq<char>>, name: Seq<char>) -> SectionScan
    decreases ls.len(),
{
    if ls.len() == 0 {
        SectionScan { found: false, in_section: false, files: 0 }
    } else {
        section_step(section_scan(ls.drop_last(), name), ls.last(), name)
    }
}

/// What the second pass over the report has found: the indexed, embedded
/// and pending counts.
pub struct Totals {
    pub indexed: usize,
    pub embedded: usize,
    pub pending: usize,
}

/// The second pass, one line further. `Vectors:` and `Pending:` lines set
/// the embedded and pending counts; a `Total:` line sets the indexed count
/// while neither the indexed nor the embedded count is set.
pub open spec fn totals_step(st: Totals, line: Seq<char>) -> Totals {
    let t = trim(line);
    if starts_with(t, "Total:"@) {
        match first_number(t) {
            Some(n) => if st.embedded == 0 && st.indexed == 0 {
                Totals { indexed: n, ..st }
            } else {
                st
            },
            None => st,
        }
    } else if starts_with(t, "Vectors:"@) {
        match first_number(t) {
            Some(n) => Totals { embedded: n, ..st },
            None => st,
        }
    } else if starts_with(t, "Pending:"@) {
        match first_number(t) {
            Some(n) => Totals { pending: n, ..st },
            None => st,
        }
    } else {
        st
    }
}

/// The second pass over the lines `ls`, from `init`.
pub open spec fn totals_scan(ls: Seq<Seq<char>>, init: Totals) -> Totals
    decreases ls.len(),
{
    if ls.len() == 0 {
        init
    } else {
        totals_step(totals_scan(ls.drop_last(), init), ls.last())
    }
}

/// The status that the report `out` gives for the collection `name`.
pub open spec fn status_of(out: Seq<char>, name: Seq<char>) -> IndexStatus {
    let ls = lines(out);
    let sec = section_scan(ls, name);
    let tot = totals_scan(ls, Totals { indexed: sec.files, embedded: 0, pending: 0 });
    IndexStatus {
        available: true,
        qmd_installed: true,
        collection_exists: sec.found,
        indexed_count: tot.indexed,
        embedded_count: tot.embedded,
        pending_embed: tot.pending,
    }
}

/// Reads the output of `qmd status` for the collection `vault_name`.
pub fn parse_status_for_vault(status_output: &str, vault_name: &str) -> (r: IndexStatus)
    ensures
        r == status_of(status_output@, vault_name@),
{
    let c = chars_of(status_output);
    let name = chars_of(vault_name);
    let url = collection_url_exec(name.as_slice());
    let scheme = chars_of("qmd://");
    let files = chars_of("Files:");
    let bounds = line_bounds(c.as_slice());
    let ghost ls = lines(c@);

    let mut found = false;
    let mut in_section = false;
    let mut indexed: usize = 0;
    let mut k: usize = 0;
    assert(ls.take(0) =~= Seq::<Seq<char>>::empty());
    while k < bounds.len()
        invariant
            ls == windows(c@, bounds@),
            valid_bounds(c@, bounds@),
            k <= bounds@.len(),
            url@ == collection_url(name@),
            scheme@ == "qmd://"@,
            files@ == "Files:"@,
            section_scan(ls.take(k as int), name@) == (SectionScan {
                found,
                in_section,
                files: indexed,
            }),
        decreases bounds.len() - k,
    {
        let (a, b) = bounds[k];
        assert(valid_bounds(c@, bounds@) ==> bounds@[k as int].0 <= bounds@[k as int].1 <= c@.len());
        let line = slice_subrange(c.as_slice(), a, b);
        let t = trim_slice(line);
        assert(ls.take(k + 1).drop_last() =~= ls.take(k as int));
        assert(ls.take(k + 1).last() == line@);
        if contains_exec(t, url.as_slice()) {
            found = true;
            in_section = true;
        } else if contains_exec(t, scheme.as_slice()) {
            in_section = false;
        } else if in_section {
            if let Some(n) = count_after_exec(t, files.as_slice()) {
                indexed = n;
            }
        }
        k = k + 1;
    }
    assert(ls.take(k as int) =~= ls);

    let total_p = chars_of("Total:");
    let vectors_p = chars_of("Vectors:");
    let pending_p = chars_of("Pending:");
    let ghost init = Totals { indexed, embedded: 0, pending: 0 };
    let mut embedded: usize = 0;
    let mut pending: usize = 0;
    k = 0;
    while k < bounds.len()
        invariant
            ls == windows(c@, bounds@),
            valid_bounds(c@, bounds@),
            k <= bounds@.len(),
            total_p@ == "Total:"@,
            vectors_p@ == "Vectors:"@,
            pending_p@ == "Pending:"@,
            totals_scan(ls.take(k as int), init) == (Totals { indexed, embedded, pending }),
        decreases bounds.len() - k,
    {
        let (a, b) = bounds[k];
        assert(valid_bounds(c@, bounds@) ==> bounds@[k as int].0 <= bounds@[k as int].1 <= c@.len());
        let line = slice_subrange(c.as_slice(), a, b);
        let t = trim_slice(line);
        assert(ls.take(k + 1).drop_last() =~= ls.take(k as int));
        assert(ls.take(k + 1).last() == line@);
        if starts_with_exec(t, total_p.as_slice()) {
            if let Some(n) = first_number_exec(t) {
                if embedded == 0 && indexed == 0 {
                    indexed = n;
                }
            }
        } else if starts_with_exec(t, vectors_p.as_slice()) {
            if let Some(n) = first_number_exec(t) {
                embedded = n;
            }
        } else if starts_with_exec(t, pending_p.as_slice()) {
            if let Some(n) = first_number_exec(t) {
                pending = n;
            }
        }
        k = k + 1;
    }
    assert(ls.take(k as int) =~= ls);
    IndexStatus {
        available: true,
        qmd_installed: true,
        collection_exists: found,
        indexed_count: indexed,
        embedded_count: embedded,
        pending_embed: pending,
    }
}

/// The status of the vault at `vault_path`, given whether the qmd binary
/// was found and, when `qmd status` ran and succeeded, its output.
pub fn check_index_status(vault_path: &str, qmd_found: bool, status_output: Option<&str>) -> (r:
    IndexStatus)
    ensures
        !qmd_found ==> r == unavailable_status(false),
        qmd_found && status_output is None ==> r == unavailable_status(true),
        qmd_found && status_output is Some ==> r == status_of(
            status_output->0@,
            spec_vault_dir_name(vault_path@),
        ),
{
    if !qmd_found {
        return IndexStatus {
            available: false,
            qmd_installed: false,
            collection_exists: false,
            indexed_count: 0,
            embedded_count: 0,
            pending_embed: 0,
        };
    }
    match status_output {
        Some(out) => {
            let name = vault_dir_name(vault_path);
            parse_status_for_vault(out, name.as_str())
        },
        None => IndexStatus {
            available: false,
            qmd_installed: true,
            collection_exists: false,
            indexed_count: 0,
            embedded_count: 0,
            pending_embed: 0,
        },
    }
}

// ---------------------------------------------------------------------------
// Laws
// ---------------------------------------------------------------------------
/// Some line of `ls`, without surrounding whitespace, names the collection.
pub open spec fn names_collection(ls: Seq<Seq<char>>, name: Seq<char>) -> bool {
    exists|i: int| 0 <= i < ls.len() && contains(trim(#[trigger] ls[i]), collection_url(name))
}

proof fn lemma_section_found(ls: Seq<Seq<char>>, name: Seq<char>)
    ensures
        section_scan(ls, name).found <==> names_collection(ls, name),
    decreases ls.len(),
{
    if ls.len() > 0 {
        let init = ls.drop_last();
        lemma_section_found(init, name);
        if names_collection(init, name) {
            let i = choose|i: int|
                0 <= i < init.len() && contains(trim(#[trigger] init[i]), collection_url(name));
            assert(ls[i] == init[i]);
        }
        if names_collection(ls, name) && !contains(trim(ls.last()), collection_url(name)) {
            let i = choose|i: int|
                0 <= i < ls.len() && contains(trim(#[trigger] ls[i]), collection_url(name));
            assert(i != ls.len() - 1);
            assert(init[i] == ls[i]);
        }
    }
}

/// A status report shows the vault's collection exactly when one of its
/// lines names the collection's address `qmd://<name>/`; a report that
/// could be read always counts as available, with qmd installed.
pub proof fn law_collection_exists(out: Seq<char>, name: Seq<char>)
    ensures
        status_of(out, name).collection_exists <==> names_collection(lines(out), name),
        status_of(out, name).available,
        status_of(out, name).qmd_installed,
{
    lemma_section_found(lines(out), name);
}

/// The collection of a vault is named after the whole last component of
/// its path, lowercased: nothing of the component is dropped, whatever
/// characters it holds, and a trailing `'/'` makes no difference.
pub proof fn law_vault_name_is_whole_component(prefix: Seq<char>, n: Seq<char>)
    requires
        is_plain_component(n),
    ensures
        spec_vault_dir_name(prefix + seq!['/'] + n) == lowercase(n),
        spec_vault_dir_name(prefix + seq!['/'] + n + seq!['/']) == lowercase(n),
        spec_vault_dir_name(n) == lowercase(n),
{
    lemma_file_name_of_plain(prefix, n);
    let p = prefix + seq!['/'] + n;
    assert((p + seq!['/']).drop_last() =~= p);
}

proof fn lemma_labels_differ(t: Seq<char>)
    ensures
        starts_with(t, "Pending:"@) ==> !starts_with(t, "Total:"@) && !starts_with(t, "Vectors:"@),
        starts_with(t, "Vectors:"@) ==> !starts_with(t, "Total:"@),
{
    reveal_strlit("Pending:");
    reveal_strlit("Total:");
    reveal_strlit("Vectors:");
    if starts_with(t, "Pending:"@) {
        assert(t.take(8)[0] == t[0]);
        if starts_with(t, "Total:"@) {
            assert(t.take(6)[0] == t[0]);
        }
        if starts_with(t, "Vectors:"@) {
            assert(t.take(8)[0] == t[0]);
        }
    }
    if starts_with(t, "Vectors:"@) {
        assert(t.take(8)[0] == t[0]);
        if starts_with(t, "Total:"@) {
            assert(t.take(6)[0] == t[0]);
        }
    }
}

/// The count on a report line that, without surrounding whitespace, begins
/// with `label`.
pub open spec fn labelled_count(line: Seq<char>, label: Seq<char>) -> Option<usize> {
    count_after(trim(line), label)
}

proof fn lemma_last_labelled(ls: Seq<Seq<char>>, init: Totals, pending: bool, i: int, n: usize)
    requires
        0 <= i < ls.len(),
        labelled_count(ls[i], if pending { "Pending:"@ } else { "Vectors:"@ }) == Some(n),
        forall|j: int|
            i < j < ls.len() ==> labelled_count(
                #[trigger] ls[j],
                if pending { "Pending:"@ } else { "Vectors:"@ },
            ) is None,
    ensures
        pending ==> totals_scan(ls, init).pending == n,
        !pending ==> totals_scan(ls, init).embedded == n,
    decreases ls.len(),
{
    let label = if pending { "Pending:"@ } else { "Vectors:"@ };
    lemma_labels_differ(trim(ls.last()));
    if i < ls.len() - 1 {
        let q = ls.drop_last();
        assert forall|j: int| i < j < q.len() implies labelled_count(#[trigger] q[j], label) is None by {
            assert(q[j] == ls[j]);
        }
        assert(q[i] == ls[i]);
        lemma_last_labelled(q, init, pending, i, n);
        assert(labelled_count(ls[ls.len() - 1], label) is None);
    }
}

proof fn lemma_no_labelled(ls: Seq<Seq<char>>, init: Totals, pending: bool)
    requires
        forall|j: int|
            0 <= j < ls.len() ==> labelled_count(
                #[trigger] ls[j],
                if pending { "Pending:"@ } else { "Vectors:"@ },
            ) is None,
    ensures
        pending ==> totals_scan(ls, init).pending == init.pending,
        !pending ==> totals_scan(ls, init).embedded == init.embedded,
    decreases ls.len(),
{
    if ls.len() > 0 {
        let label = if pending { "Pending:"@ } else { "Vectors:"@ };
        let q = ls.drop_last();
        assert forall|j: int| 0 <= j < q.len() implies labelled_count(#[trigger] q[j], label) is None by {
            assert(q[j] == ls[j]);
        }
        lemma_no_labelled(q, init, pending);
        lemma_labels_differ(trim(ls.last()));
        assert(labelled_count(ls[ls.len() - 1], label) is None);
    }
}

/// The pending count of a status report is the number on its last line
/// that, trimmed, begins with `Pending:` and holds a number, whatever the
/// other lines (the `Vectors:` and `Total:` counts among them) say; 0 when
/// no line does.
pub proof fn law_pending_is_last_pending_line(out: Seq<char>, name: Seq<char>, i: int, n: usize)
    requires
        0 <= i < lines(out).len(),
        labelled_count(lines(out)[i], "Pending:"@) == Some(n),
        forall|j: int|
            i < j < lines(out).len() ==> labelled_count(#[trigger] lines(out)[j], "Pending:"@) is None,
    ensures
        status_of(out, name).pending_embed == n,
{
    let ls = lines(out);
    let sec = section_scan(ls, name);
    lemma_last_labelled(ls, Totals { indexed: sec.files, embedded: 0, pending: 0 }, true, i, n);
}

/// Without a `Pending:` line that holds a number, nothing is pending.
pub proof fn law_no_pending_line(out: Seq<char>, name: Seq<char>)
    requires
        forall|j: int|
            0 <= j < lines(out).len() ==> labelled_count(#[trigger] lines(out)[j], "Pending:"@) is None,
    ensures
        status_of(out, name).pending_embed == 0,
{
    let ls = lines(out);
    let sec = section_scan(ls, name);
    lemma_no_labelled(ls, Totals { indexed: sec.files, embedded: 0, pending: 0 }, true);
}

/// The embedded count of a status report is the number on its last line
/// that, trimmed, begins with `Vectors:` and holds a number; 0 when no line
/// does.
pub proof fn law_embedded_is_last_vectors_line(out: Seq<char>, name: Seq<char>, i: int, n: usize)
    requires
        0 <= i < lines(out).len(),
        labelled_count(lines(out)[i], "Vectors:"@) == Some(n),
        forall|j: int|
            i < j < lines(out).len() ==> labelled_count(#[trigger] lines(out)[j], "Vectors:"@) is None,
    ensures
        status_of(out, name).embedded_count == n,
{
    let ls = lines(out);
    let sec = section_scan(ls, name);
    lemma_last_labelled(ls, Totals { indexed: sec.files, embedded: 0, pending: 0 }, false, i, n);
}

/// Without a `Vectors:` line that holds a number, nothing is embedded.
pub proof fn law_no_vectors_line(out: Seq<char>, name: Seq<char>)
    requires
        forall|j: int|
            0 <= j < lines(out).len() ==> labelled_count(#[trigger] lines(out)[j], "Vectors:"@) is None,
    ensures
        status_of(out, name).embedded_count == 0,
{
    let ls = lines(out);
    let sec = section_scan(ls, name);
    lemma_no_labelled(ls, Totals { indexed: sec.files, embedded: 0, pending: 0 }, false);
}

} // verus!
