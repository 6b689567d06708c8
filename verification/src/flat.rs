//! Flattening a vault: notes move from type folders to the vault root, and
//! path-based wikilinks are rewritten to titles.
use vstd::prelude::*;
use vstd::slice::slice_subrange;

use crate::indexing::{parent_of, path_parent};
use crate::path::{
    extension_of, file_name, file_name_exec, is_plain_component, last_dot, last_dot_exec,
    lemma_file_name_of_plain, lemma_file_name_plain, lemma_last_dot_bound, path_join,
    path_join_exec, same_path, same_path_exec, stem_of,
};
use crate::text::{
    chars_of, concat_str, contains, contains_exec, decimal, ends_with, is_digit, lemma_decimal_digits,
    lemma_decimal_injective, line_bounds, lines,
    push_char, push_chars, push_decimal, replace_all, replace_exec, starts_with, starts_with_exec,
    string_of, trim, trim_slice, valid_bounds, windows,
};

verus! {

broadcast use vstd::string::group_string_axioms;

/// Outcome of flattening a vault.
#[derive(Debug)]
pub struct MigrationResult {
    /// Number of files moved to the vault root.
    pub moved: usize,
    /// Number of files skipped (already at root, or in system folders).
    pub skipped: usize,
    /// Files that could not be moved (collision, error).
    pub errors: Vec<String>,
}

impl MigrationResult {
    /// Nothing moved, skipped or failed yet.
    pub fn new() -> (r: MigrationResult)
        ensures
            r.moved == 0,
            r.skipped == 0,
            r.errors@.len() == 0,
    {
        MigrationResult { moved: 0, skipped: 0, errors: Vec::new() }
    }

    /// Counts one more moved file.
    pub fn record_moved(&mut self)
        requires
            old(self).moved < usize::MAX,
        ensures
            final(self).moved == old(self).moved + 1,
            final(self).skipped == old(self).skipped,
            final(self).errors@ == old(self).errors@,
    {
        self.moved = self.moved + 1;
    }

    /// Counts one more skipped file.
    pub fn record_skipped(&mut self)
        requires
            old(self).skipped < usize::MAX,
        ensures
            final(self).skipped == old(self).skipped + 1,
            final(self).moved == old(self).moved,
            final(self).errors@ == old(self).errors@,
    {
        self.skipped = self.skipped + 1;
    }

    /// Records a file that could not be moved.
    pub fn record_error(&mut self, message: String)
        ensures
            final(self).errors@ == old(self).errors@.push(message),
            final(self).moved == old(self).moved,
            final(self).skipped == old(self).skipped,
    {
        self.errors.push(message);
    }
}

/// What a [`MigrationResult`] says: its counts, and its error messages as
/// texts.
pub struct MigrationTally {
    pub moved: nat,
    pub skipped: nat,
    pub errors: Seq<Seq<char>>,
}

impl View for MigrationResult {
    type V = MigrationTally;

    open spec fn view(&self) -> MigrationTally {
        MigrationTally {
            moved: self.moved as nat,
            skipped: self.skipped as nat,
            errors: self.errors.deep_view(),
        }
    }
}

/// What became of one note that was to move to the vault root.
#[derive(Debug)]
pub enum MoveOutcome {
    /// The note could not be read; the text is the error.
    ReadFailed(String),
    /// The note now lies at the vault root.
    Moved,
    /// Neither renaming nor copying the note to `to` succeeded; `error` is
    /// the rename's error.
    MoveFailed { to: String, error: String },
}

/// The message recorded for a note at `file` that could not be read.
pub open spec fn read_failure_text(file: Seq<char>, error: Seq<char>) -> Seq<char> {
    "Failed to read "@ + file + ": "@ + error
}

/// The message recorded for a note that could not be moved from `from` to
/// `to`.
pub open spec fn move_failure_text(from: Seq<char>, to: Seq<char>, error: Seq<char>) -> Seq<char> {
    "Failed to move "@ + from + " \u{2192} "@ + to + ": "@ + error
}

/// The tally once the outcome for the note at `file` is counted: a move
/// adds one to `moved`, a failure adds its message to `errors`.
pub open spec fn after_move(t: MigrationTally, file: Seq<char>, outcome: MoveOutcome) -> MigrationTally {
    match outcome {
        MoveOutcome::Moved => MigrationTally { moved: t.moved + 1, skipped: t.skipped, errors: t.errors },
        MoveOutcome::ReadFailed(e) => MigrationTally {
            moved: t.moved,
            skipped: t.skipped,
            errors: t.errors.push(read_failure_text(file, e@)),
        },
        MoveOutcome::MoveFailed { to, error } => MigrationTally {
            moved: t.moved,
            skipped: t.skipped,
            errors: t.errors.push(move_failure_text(file, to@, error@)),
        },
    }
}

/// The tally once the outcomes for `files` are counted in order.
pub open spec fn after_moves(t: MigrationTally, files: Seq<Seq<char>>, outcomes: Seq<MoveOutcome>) -> MigrationTally
    decreases outcomes.len(),
{
    if outcomes.len() == 0 || files.len() == 0 {
        t
    } else {
        after_move(
            after_moves(t, files.drop_last(), outcomes.drop_last()),
            files.last(),
            outcomes.last(),
        )
    }
}

/// How many of `outcomes` are moves.
pub open spec fn moved_count(outcomes: Seq<MoveOutcome>) -> nat
    decreases outcomes.len(),
{
    if outcomes.len() == 0 {
        0
    } else {
        moved_count(outcomes.drop_last()) + if outcomes.last() is Moved {
            1nat
        } else {
            0nat
        }
    }
}

impl MigrationResult {
    /// Counts what became of the note at `file`: a move, or a failure with
    /// its message.
    pub fn record_move(&mut self, file: &str, outcome: &MoveOutcome)
        requires
            old(self).moved < usize::MAX,
        ensures
            final(self)@ == after_move(old(self)@, file@, *outcome),
    {
        match outcome {
            MoveOutcome::Moved => self.record_moved(),
            MoveOutcome::ReadFailed(e) => {
                let m = read_failure_message(file, e.as_str());
                self.record_error(m);
                assert(self.errors.deep_view() =~= old(self).errors.deep_view().push(m@));
            },
            MoveOutcome::MoveFailed { to, error } => {
                let m = move_failure_message(file, to.as_str(), error.as_str());
                self.record_error(m);
                assert(self.errors.deep_view() =~= old(self).errors.deep_view().push(m@));
            },
        }
    }
}

// ---------------------------------------------------------------------------
// System folders
// ---------------------------------------------------------------------------
/// What `Path::strip_prefix` leaves of `path` once the leading components
/// `base` are removed, as text; none when `base` is not a prefix of `path`.
pub uninterp spec fn relative_to(path: Seq<char>, base: Seq<char>) -> Option<Seq<char>>;

/// `Path::strip_prefix`, the remainder rendered with `to_string_lossy`. The
/// claim is only that the result is `relative_to` of the arguments.
#[verifier::external_body]
fn strip_path_prefix(path: &str, base: &str) -> (r: Option<String>)
    ensures
        match r {
            Some(s) => relative_to(path@, base@) == Some(s@),
            None => relative_to(path@, base@) is None,
        },
{
    std::path::Path::new(path).strip_prefix(base).ok().map(|p| p.to_string_lossy().into_owned())
}

/// The folders of a vault whose notes stay where they are.
pub open spec fn system_folder(k: int) -> Seq<char> {
    if k == 0 {
        "type"@
    } else if k == 1 {
        "config"@
    } else {
        "theme"@
    }
}

/// A path relative to the vault lies in a system folder: it is one, or
/// begins with one followed by `'/'`.
pub open spec fn in_system_folder(rel: Seq<char>) -> bool {
    exists|k: int|
        0 <= k < 3 && (starts_with(rel, #[trigger] system_folder(k) + "/"@) || rel == system_folder(
            k,
        ))
}

fn folder_match(rel: &[char], folder: &str) -> (r: bool)
    ensures
        r == (starts_with(rel@, folder@ + "/"@) || rel@ == folder@),
{
    let with_sep = chars_of(concat_str(folder, "/").as_str());
    let f = chars_of(folder);
    let same = rel.len() == f.len() && starts_with_exec(rel, f.as_slice());
    proof {
        if rel@.len() == f@.len() && starts_with(rel@, f@) {
            assert(rel@ =~= f@);
        }
        if rel@ == f@ {
            assert(rel@.take(f@.len() as int) =~= f@);
        }
    }
    starts_with_exec(rel, with_sep.as_slice()) || same
}

/// The path of `path` relative to the vault; empty for a path outside it.
pub open spec fn vault_relative(path: Seq<char>, vault: Seq<char>) -> Seq<char> {
    match relative_to(path, vault) {
        Some(x) => x,
        None => Seq::empty(),
    }
}

/// Whether `path` lies in a system folder (`type`, `config`, `theme`) of the
/// vault; a path outside the vault counts as the empty relative path.
pub fn is_in_system_folder(path: &str, vault: &str) -> (r: bool)
    ensures
        r == in_system_folder(vault_relative(path@, vault@)),
{
    let rel = match strip_path_prefix(path, vault) {
        Some(s) => s,
        None => String::new(),
    };
    in_system_folder_exec(rel.as_str())
}

/// Whether the vault-relative path `rel` lies in a system folder.
pub fn in_system_folder_exec(rel: &str) -> (r: bool)
    ensures
        r == in_system_folder(rel@),
{
    let c = chars_of(rel);
    let r = folder_match(c.as_slice(), "type") || folder_match(c.as_slice(), "config")
        || folder_match(c.as_slice(), "theme");
    proof {
        if r {
            if folder_match_spec(c@, 0) {
                assert(in_system_folder(c@));
            } else if folder_match_spec(c@, 1) {
                assert(in_system_folder(c@));
            } else {
                assert(folder_match_spec(c@, 2));
                assert(in_system_folder(c@));
            }
        } else {
            assert forall|k: int| 0 <= k < 3 implies !(starts_with(
                c@,
                #[trigger] system_folder(k) + "/"@,
            ) || c@ == system_folder(k)) by {
                assert(!folder_match_spec(c@, k));
            }
        }
    }
    r
}

spec fn folder_match_spec(rel: Seq<char>, k: int) -> bool {
    starts_with(rel, system_folder(k) + "/"@) || rel == system_folder(k)
}

/// The note `path` lies directly in the vault folder: its parent, as
/// `Path::parent` gives it, is the vault, as `Path` equality compares them.
pub open spec fn at_vault_root(path: Seq<char>, vault: Seq<char>) -> bool {
    match parent_of(path) {
        Some(q) => same_path(q, vault),
        None => false,
    }
}

/// A note found while walking the vault is moved to the root unless it is
/// already there or lies in a system folder.
pub open spec fn moves_to_root(path: Seq<char>, vault: Seq<char>) -> bool {
    !at_vault_root(path, vault) && !in_system_folder(vault_relative(path, vault))
}

/// Whether the note `path` is to move to the root of `vault`.
pub fn should_move_to_root(path: &str, vault: &str) -> (r: bool)
    ensures
        r == moves_to_root(path@, vault@),
{
    let at_root = match path_parent(path) {
        Some(q) => same_path_exec(q.as_str(), vault),
        None => false,
    };
    !at_root && !is_in_system_folder(path, vault)
}

/// The notes of `files` that move to the root, in order.
pub open spec fn planned_moves(vault: Seq<char>, files: Seq<Seq<char>>) -> Seq<Seq<char>>
    decreases files.len(),
{
    if files.len() == 0 {
        Seq::empty()
    } else if moves_to_root(files.last(), vault) {
        planned_moves(vault, files.drop_last()).push(files.last())
    } else {
        planned_moves(vault, files.drop_last())
    }
}

/// Sorts the notes found in the vault: those that move to the root, in
/// order, and a result that counts every other note as skipped.
pub fn plan_flat_migration(vault: &str, files: &Vec<String>) -> (r: (Vec<String>, MigrationResult))
    ensures
        r.0.deep_view() == planned_moves(vault@, files.deep_view()),
        r.1@ == (MigrationTally {
            moved: 0,
            skipped: (files@.len() - planned_moves(vault@, files.deep_view()).len()) as nat,
            errors: Seq::empty(),
        }),
{
    let ghost all = files.deep_view();
    let mut to_move: Vec<String> = Vec::new();
    let mut result = MigrationResult::new();
    let mut k: usize = 0;
    assert(all.take(0) =~= Seq::<Seq<char>>::empty());
    assert(result.errors.deep_view() =~= Seq::<Seq<char>>::empty());
    while k < files.len()
        invariant
            k <= files@.len(),
            all == files.deep_view(),
            to_move.deep_view() == planned_moves(vault@, all.take(k as int)),
            planned_moves(vault@, all.take(k as int)).len() <= k,
            result.moved == 0,
            result.skipped == k - planned_moves(vault@, all.take(k as int)).len(),
            result.errors.deep_view() == Seq::<Seq<char>>::empty(),
        decreases files.len() - k,
    {
        let f = &files[k];
        assert(all.take(k + 1).drop_last() =~= all.take(k as int));
        assert(all.take(k + 1).last() == f@);
        if should_move_to_root(f.as_str(), vault) {
            let ghost before = to_move.deep_view();
            to_move.push(f.clone());
            assert(to_move.deep_view() =~= before.push(f@));
        } else {
            result.record_skipped();
            assert(result.errors.deep_view() =~= Seq::<Seq<char>>::empty());
        }
        k = k + 1;
    }
    assert(all.take(k as int) =~= all);
    (to_move, result)
}

/// A directory at the vault root is removed when it is empty, unless it is
/// a system folder or hidden (its name begins with `'.'`).
pub open spec fn removable_dir(name: Seq<char>, is_empty: bool) -> bool {
    is_empty && name != system_folder(0) && name != system_folder(1) && name != system_folder(2)
        && !(name.len() > 0 && name[0] == '.')
}

/// Whether the directory `name` at the vault root is to be removed.
pub fn is_removable_dir(name: &str, is_empty: bool) -> (r: bool)
    ensures
        r == removable_dir(name@, is_empty),
{
    let c = chars_of(name);
    let mut system = false;
    let t = chars_of("type");
    let cf = chars_of("config");
    let th = chars_of("theme");
    if c.len() == t.len() && starts_with_exec(c.as_slice(), t.as_slice()) {
        assert(c@ =~= t@);
        system = true;
    }
    if c.len() == cf.len() && starts_with_exec(c.as_slice(), cf.as_slice()) {
        assert(c@ =~= cf@);
        system = true;
    }
    if c.len() == th.len() && starts_with_exec(c.as_slice(), th.as_slice()) {
        assert(c@ =~= th@);
        system = true;
    }
    proof {
        if !system {
            if c@ == t@ {
                assert(c@.take(t@.len() as int) =~= t@);
            }
            if c@ == cf@ {
                assert(c@.take(cf@.len() as int) =~= cf@);
            }
            if c@ == th@ {
                assert(c@.take(th@.len() as int) =~= th@);
            }
        }
    }
    let hidden = c.len() > 0 && c[0] == '.';
    is_empty && !system && !hidden
}

// ---------------------------------------------------------------------------
// Destinations at the vault root
// ---------------------------------------------------------------------------
/// The `attempt`-th destination tried for `filename` at the root of `vault`:
/// first the name itself, then `<stem>-2<.ext>`, `<stem>-3<.ext>` and so on.
pub open spec fn root_candidate(vault: Seq<char>, filename: Seq<char>, attempt: nat) -> Seq<char> {
    if attempt == 0 {
        path_join(vault, filename)
    } else {
        path_join(vault, numbered_name(filename, attempt + 1))
    }
}

/// The stem of the file name of `filename` (empty when it has none).
pub open spec fn name_stem(filename: Seq<char>) -> Seq<char> {
    match file_name(filename) {
        Some(n) => stem_of(n),
        None => Seq::empty(),
    }
}

/// The extension of the file name of `filename` with its dot (empty when it
/// has none).
pub open spec fn name_ext(filename: Seq<char>) -> Seq<char> {
    match file_name(filename) {
        Some(n) => match extension_of(n) {
            Some(e) => seq!['.'] + e,
            None => Seq::empty(),
        },
        None => Seq::empty(),
    }
}

/// `<stem>-<counter><.ext>` for the file name of `filename`.
pub open spec fn numbered_name(filename: Seq<char>, counter: nat) -> Seq<char> {
    name_stem(filename) + seq!['-'] + decimal(counter) + name_ext(filename)
}

/// The `attempt`-th destination at the vault root for a note named
/// `filename`. The caller tries attempts 0, 1, 2, ... and takes the first
/// that does not exist.
pub fn unique_root_path(vault: &str, filename: &str, attempt: usize) -> (r: String)
    requires
        attempt < usize::MAX,
    ensures
        r@ == root_candidate(vault@, filename@, attempt as nat),
{
    let v = chars_of(vault);
    let f = chars_of(filename);
    if attempt == 0 {
        return path_join_exec(v.as_slice(), f.as_slice());
    }
    let mut name = String::new();
    let ghost stem: Seq<char>;
    let ghost ext: Seq<char>;
    match file_name_exec(f.as_slice()) {
        None => {
            proof {
                stem = Seq::empty();
                ext = Seq::empty();
            }
            push_char(&mut name, '-');
            push_decimal(&mut name, attempt + 1);
        },
        Some(n) => {
            match last_dot_exec(n) {
                Some(d) => {
                    if d > 0 {
                        push_chars(&mut name, slice_subrange(n, 0, d));
                        push_char(&mut name, '-');
                        push_decimal(&mut name, attempt + 1);
                        push_char(&mut name, '.');
                        push_chars(&mut name, slice_subrange(n, d + 1, n.len()));
                        proof {
                            stem = n@.take(d as int);
                            ext = seq!['.'] + n@.skip(d + 1);
                        }
                    } else {
                        push_chars(&mut name, n);
                        push_char(&mut name, '-');
                        push_decimal(&mut name, attempt + 1);
                        proof {
                            stem = n@;
                            ext = Seq::empty();
                        }
                    }
                },
                None => {
                    push_chars(&mut name, n);
                    push_char(&mut name, '-');
                    push_decimal(&mut name, attempt + 1);
                    proof {
                        stem = n@;
                        ext = Seq::empty();
                    }
                },
            }
        },
    }
    assert(name@ =~= stem + seq!['-'] + decimal((attempt + 1) as nat) + ext);
    assert(stem == name_stem(filename@) && ext == name_ext(filename@));
    let nc = chars_of(name.as_str());
    path_join_exec(v.as_slice(), nc.as_slice())
}

/// The destination a note moves to: the first of the destinations tried
/// (see [`unique_root_path`]) that does not exist, where `taken[k]` tells
/// whether the `k`-th one exists. None when every destination asked about
/// exists; the caller then asks about the next one.
pub fn first_free_root_path(vault: &str, filename: &str, taken: &Vec<bool>) -> (r: Option<String>)
    requires
        taken@.len() < usize::MAX,
    ensures
        match r {
            Some(p) => exists|k: int|
                0 <= k < taken@.len() && !taken@[k] && (forall|j: int| 0 <= j < k ==> taken@[j])
                    && p@ == root_candidate(vault@, filename@, k as nat),
            None => forall|k: int| 0 <= k < taken@.len() ==> taken@[k],
        },
{
    let mut k: usize = 0;
    while k < taken.len()
        invariant
            k <= taken@.len(),
            taken@.len() < usize::MAX,
            forall|j: int| 0 <= j < k ==> taken@[j],
        decreases taken.len() - k,
    {
        if !taken[k] {
            let p = unique_root_path(vault, filename, k);
            assert(0 <= k < taken@.len() && !taken@[k as int]);
            return Some(p);
        }
        k = k + 1;
    }
    None
}

// ---------------------------------------------------------------------------
// Wikilinks
// ---------------------------------------------------------------------------
/// A note's old path-based link target: its path relative to the vault,
/// the leading components of the vault removed as `Path::strip_prefix`
/// removes them (so the vault may be written with or without a trailing
/// `'/'`), without the `.md` suffix. A path outside the vault keeps its
/// whole text.
pub open spec fn old_stem(vault: Seq<char>, file: Seq<char>) -> Seq<char> {
    strip_md(
        match relative_to(file, vault) {
            Some(r) => r,
            None => file,
        },
    )
}

/// The link target that a note at `file` had before the vault was flattened.
pub fn old_path_stem(vault: &str, file: &str) -> (r: String)
    ensures
        r@ == old_stem(vault@, file@),
{
    let rel_text = match strip_path_prefix(file, vault) {
        Some(r) => r,
        None => file.to_owned(),
    };
    without_md(rel_text.as_str())
}

/// The link `[[old]]` becomes `[[title]]`, and `[[old|` (a link with a
/// display text) becomes `[[title|`; the flag tells whether either form
/// occurred.
pub open spec fn relink(content: Seq<char>, old: Seq<char>, title: Seq<char>) -> (Seq<char>, bool) {
    let link = "[["@ + old + "]]"@;
    let c1 = if contains(content, link) {
        replace_all(content, link, "[["@ + title + "]]"@)
    } else {
        content
    };
    let piped = "[["@ + old + "|"@;
    let c2 = if contains(c1, piped) {
        replace_all(c1, piped, "[["@ + title + "|"@)
    } else {
        c1
    };
    (c2, contains(content, link) || contains(c1, piped))
}

/// All replacements, in order, and whether any link was found.
pub open spec fn relink_all(content: Seq<char>, reps: Seq<(Seq<char>, Seq<char>)>) -> (
    Seq<char>,
    bool,
)
    decreases reps.len(),
{
    if reps.len() == 0 {
        (content, false)
    } else {
        let before = relink_all(content, reps.drop_last());
        let step = relink(before.0, reps.last().0, reps.last().1);
        (step.0, before.1 || step.1)
    }
}

/// The view of the replacement pairs.
pub open spec fn pairs_view(reps: Seq<(String, String)>) -> Seq<(Seq<char>, Seq<char>)> {
    reps.map_values(|p: (String, String)| (p.0@, p.1@))
}

fn link_text(open: &str, target: &String, close: &str) -> (r: Vec<char>)
    ensures
        r@ == open@ + target@ + close@,
{
    let a = concat_str(open, target.as_str());
    let b = concat_str(a.as_str(), close);
    chars_of(b.as_str())
}

/// Rewrites the path-based wikilinks of a note: for each pair
/// `(old_stem, title)`, in order, `[[old_stem]]` becomes `[[title]]` and
/// `[[old_stem|` becomes `[[title|`. The flag tells whether the note is to be
/// written back.
pub fn update_wikilinks(content: &str, replacements: &Vec<(String, String)>) -> (r: (String, bool))
    ensures
        (r.0@, r.1) == relink_all(content@, pairs_view(replacements@)),
{
    let ghost reps = pairs_view(replacements@);
    let mut cur = content.to_owned();
    let mut changed = false;
    let mut k: usize = 0;
    assert(reps.take(0) =~= Seq::<(Seq<char>, Seq<char>)>::empty());
    while k < replacements.len()
        invariant
            k <= replacements@.len(),
            reps == pairs_view(replacements@),
            (cur@, changed) == relink_all(content@, reps.take(k as int)),
        decreases replacements.len() - k,
    {
        let (old, title) = &replacements[k];
        assert(reps.take(k + 1).drop_last() =~= reps.take(k as int));
        assert(reps.take(k + 1).last() == (old@, title@));
        let link = link_text("[[", old, "]]");
        let c = chars_of(cur.as_str());
        let found1 = contains_exec(c.as_slice(), link.as_slice());
        if found1 {
            let to = link_text("[[", title, "]]");
            proof {
                reveal_strlit("[[");
            }
            cur = replace_exec(c.as_slice(), link.as_slice(), to.as_slice());
        }
        let piped = link_text("[[", old, "|");
        let c1 = chars_of(cur.as_str());
        let found2 = contains_exec(c1.as_slice(), piped.as_slice());
        if found2 {
            let to = link_text("[[", title, "|");
            proof {
                reveal_strlit("[[");
            }
            cur = replace_exec(c1.as_slice(), piped.as_slice(), to.as_slice());
        }
        changed = changed || found1 || found2;
        k = k + 1;
    }
    assert(reps.take(k as int) =~= reps);
    (cur, changed)
}

// ---------------------------------------------------------------------------
// Titles and messages
// ---------------------------------------------------------------------------
/// The title of the first line that, without surrounding whitespace, is a
/// level-one heading `# <title>`.
pub open spec fn heading_title(ls: Seq<Seq<char>>) -> Option<Seq<char>>
    decreases ls.len(),
{
    if ls.len() == 0 {
        None
    } else if starts_with(trim(ls[0]), "# "@) {
        Some(trim(trim(ls[0]).skip(2)))
    } else {
        heading_title(ls.drop_first())
    }
}

/// The title of a note, by the rule this library sets for the migration:
/// its first level-one heading, else its file name without the `.md`
/// suffix.
pub open spec fn note_title(content: Seq<char>, filename: Seq<char>) -> Seq<char> {
    match heading_title(lines(content)) {
        Some(t) => t,
        None => strip_md(filename),
    }
}

/// The title of the note `content` stored as `filename`, by the rule of
/// [`note_title`], which is this library's own.
pub fn extract_title(content: &str, filename: &str) -> (r: String)
    ensures
        r@ == note_title(content@, filename@),
{
    proof {
        reveal_strlit("# ");
    }
    let c = chars_of(content);
    let bounds = line_bounds(c.as_slice());
    let ghost ls = lines(c@);
    let heading = chars_of("# ");
    let mut k: usize = 0;
    assert(ls.skip(0) =~= ls);
    while k < bounds.len()
        invariant
            ls == windows(c@, bounds@),
            ls == lines(content@),
            valid_bounds(c@, bounds@),
            k <= bounds@.len(),
            heading@ == "# "@,
            heading@.len() == 2,
            heading_title(ls.skip(k as int)) == heading_title(ls),
        decreases bounds.len() - k,
    {
        let (a, b) = bounds[k];
        assert(valid_bounds(c@, bounds@) ==> bounds@[k as int].0 <= bounds@[k as int].1 <= c@.len());
        let line = slice_subrange(c.as_slice(), a, b);
        assert(line@ == ls[k as int]);
        assert(ls.skip(k as int)[0] == ls[k as int]);
        let t = trim_slice(line);
        if starts_with_exec(t, heading.as_slice()) {
            let after = slice_subrange(t, 2, t.len());
            let title = trim_slice(after);
            assert(t@.skip(2) =~= after@);
            return string_of(title);
        }
        assert(ls.skip(k as int).drop_first() =~= ls.skip(k + 1));
        k = k + 1;
    }
    assert(ls.skip(k as int) =~= Seq::<Seq<char>>::empty());
    without_md(filename)
}

/// `s` without a trailing `.md`.
pub open spec fn strip_md(s: Seq<char>) -> Seq<char> {
    if ends_with(s, ".md"@) {
        s.take(s.len() - 3)
    } else {
        s
    }
}

/// `s` without a trailing `.md`.
pub fn without_md(s: &str) -> (r: String)
    ensures
        r@ == strip_md(s@),
{
    proof {
        reveal_strlit(".md");
    }
    let f = chars_of(s);
    let n = f.len();
    let md = chars_of(".md");
    if n >= 3 && f[n - 3] == '.' && f[n - 2] == 'm' && f[n - 1] == 'd' {
        assert(f@.skip(n - 3) =~= md@);
        string_of(slice_subrange(f.as_slice(), 0, n - 3))
    } else {
        proof {
            if n >= 3 && f@.skip(n - 3) == md@ {
                assert(f@.skip(n - 3)[0] == md@[0]);
                assert(f@.skip(n - 3)[1] == md@[1]);
                assert(f@.skip(n - 3)[2] == md@[2]);
            }
        }
        s.to_owned()
    }
}

/// The error returned for a vault path that is not an existing directory.
pub fn invalid_vault_message(vault_path: &str) -> (r: String)
    ensures
        r@ == "Vault path does not exist or is not a directory: "@ + vault_path@,
{
    concat_str("Vault path does not exist or is not a directory: ", vault_path)
}

/// The error recorded for a note that could not be read.
pub fn read_failure_message(file: &str, error: &str) -> (r: String)
    ensures
        r@ == read_failure_text(file@, error@),
{
    let a = concat_str("Failed to read ", file);
    let b = concat_str(a.as_str(), ": ");
    concat_str(b.as_str(), error)
}

/// The error recorded for a note that could not be moved.
pub fn move_failure_message(from: &str, to: &str, error: &str) -> (r: String)
    ensures
        r@ == move_failure_text(from@, to@, error@),
{
    let a = concat_str("Failed to move ", from);
    let b = concat_str(a.as_str(), " \u{2192} ");
    let c = concat_str(b.as_str(), to);
    let d = concat_str(c.as_str(), ": ");
    concat_str(d.as_str(), error)
}

// ---------------------------------------------------------------------------
// Laws
// ---------------------------------------------------------------------------
/// A numbered name is a plain component: its stem, a `'-'` at the stem's
/// length, the counter's digits and the extension; and it is longer than
/// the file name it was made from.
proof fn lemma_numbered_name(filename: Seq<char>, counter: nat)
    ensures
        is_plain_component(numbered_name(filename, counter)),
        numbered_name(filename, counter)[name_stem(filename).len() as int] == '-',
        file_name(filename) matches Some(m) ==> name_stem(filename).len() + name_ext(
            filename,
        ).len() == m.len(),
{
    let stem = name_stem(filename);
    let ext = name_ext(filename);
    let d = decimal(counter);
    let n = numbered_name(filename, counter);
    lemma_decimal_digits(counter);
    lemma_file_name_plain(filename);
    if let Some(m) = file_name(filename) {
        lemma_last_dot_bound(m);
        assert forall|i: int| 0 <= i < stem.len() implies stem[i] != '/' by {
            assert(stem[i] == m[i]);
        }
        assert forall|i: int| 0 <= i < ext.len() implies ext[i] != '/' by {
            if let Some(dd) = last_dot(m) {
                if dd > 0 && i > 0 {
                    assert(ext[i] == m[dd + i]);
                }
            }
        }
    }
    assert forall|i: int| 0 <= i < n.len() implies n[i] != '/' by {
        if i < stem.len() {
            assert(n[i] == stem[i]);
        } else if i == stem.len() {
        } else if i < stem.len() + 1 + d.len() {
            assert(n[i] == d[i - stem.len() - 1]);
            assert(is_digit(d[i - stem.len() - 1]));
        } else {
            assert(n[i] == ext[i - stem.len() - 1 - d.len()]);
        }
    }
    assert(n[stem.len() as int] == '-');
    assert(n.len() == stem.len() + 1 + d.len() + ext.len());
    if n == seq!['.'] {
        assert(n[stem.len() as int] == '.');
    }
    if n == seq!['.', '.'] {
        assert(n.len() == 2);
        assert(stem.len() == 0);
        assert(seq!['.', '.'][0] == '.');
        assert(n[stem.len() as int] == '.');
    }
}

proof fn lemma_join_relative_injective(vault: Seq<char>, x: Seq<char>, y: Seq<char>)
    requires
        x.len() > 0 && x[0] != '/',
        y.len() > 0 && y[0] != '/',
        path_join(vault, x) == path_join(vault, y),
    ensures
        x == y,
{
    let lhs = path_join(vault, x);
    if vault.len() > 0 && vault.last() != '/' {
        assert(lhs.skip(vault.len() + 1int) =~= x);
        assert(path_join(vault, y).skip(vault.len() + 1int) =~= y);
    } else {
        assert(lhs.skip(vault.len() as int) =~= x);
        assert(path_join(vault, y).skip(vault.len() as int) =~= y);
    }
}

/// The first destination never equals a numbered one.
proof fn lemma_plain_differs_from_numbered(vault: Seq<char>, filename: Seq<char>, counter: nat)
    ensures
        path_join(vault, filename) != path_join(vault, numbered_name(filename, counter)),
{
    let n = numbered_name(filename, counter);
    lemma_numbered_name(filename, counter);
    lemma_decimal_digits(counter);
    if path_join(vault, filename) == path_join(vault, n) {
        // The file name of `filename` would be `n` itself.
        if filename.len() > 0 && filename[0] == '/' {
            if vault.len() > 0 && vault.last() != '/' {
                assert(filename =~= vault + seq!['/'] + n);
                lemma_file_name_of_plain(vault, n);
            } else if vault.len() > 0 {
                assert(filename =~= vault.drop_last() + seq!['/'] + n);
                lemma_file_name_of_plain(vault.drop_last(), n);
            } else {
                assert(filename == n);
                assert(n[0] != '/');
            }
        } else {
            if filename.len() == 0 {
                assert(path_join(vault, filename).len() < path_join(vault, n).len());
            } else {
                lemma_join_relative_injective(vault, filename, n);
                lemma_file_name_of_plain(Seq::empty(), n);
            }
        }
        // A numbered name is longer than the name it comes from.
        assert(file_name(filename) == Some(n));
        assert(n.len() == name_stem(filename).len() + 1 + decimal(counter).len() + name_ext(
            filename,
        ).len());
    }
}

/// The destinations tried for a note are pairwise different: the note's own
/// name first, then `<stem>-2<.ext>`, `<stem>-3<.ext>`, ... so a free one is
/// found among the first as many attempts as there are existing files, plus one.
pub proof fn law_root_candidates_distinct(vault: Seq<char>, filename: Seq<char>, a: nat, b: nat)
    requires
        a != b,
    ensures
        root_candidate(vault, filename, a) != root_candidate(vault, filename, b),
{
    if a == 0 {
        lemma_plain_differs_from_numbered(vault, filename, b + 1);
    } else if b == 0 {
        lemma_plain_differs_from_numbered(vault, filename, a + 1);
    } else if root_candidate(vault, filename, a) == root_candidate(vault, filename, b) {
        let na = numbered_name(filename, a + 1);
        let nb = numbered_name(filename, b + 1);
        lemma_numbered_name(filename, a + 1);
        lemma_numbered_name(filename, b + 1);
        lemma_join_relative_injective(vault, na, nb);
        let s = name_stem(filename).len() + 1int;
        let e = name_ext(filename).len();
        assert(decimal(a + 1).len() == decimal(b + 1).len());
        assert(na.subrange(s, na.len() - e) =~= decimal(a + 1));
        assert(nb.subrange(s, nb.len() - e) =~= decimal(b + 1));
        lemma_decimal_injective(a + 1, b + 1);
    }
}

/// Counting the outcomes of the planned notes, one per note, adds every
/// note once: as a move or as one error message. Earlier messages stay in
/// place, and the skipped count does not change.
pub proof fn law_each_planned_note_counted_once(
    t: MigrationTally,
    files: Seq<Seq<char>>,
    outcomes: Seq<MoveOutcome>,
)
    requires
        files.len() == outcomes.len(),
    ensures
        after_moves(t, files, outcomes).moved + after_moves(t, files, outcomes).errors.len() == t.moved
            + t.errors.len() + files.len(),
        after_moves(t, files, outcomes).moved == t.moved + moved_count(outcomes),
        after_moves(t, files, outcomes).errors.len() == t.errors.len() + outcomes.len()
            - moved_count(outcomes),
        after_moves(t, files, outcomes).errors.take(t.errors.len() as int) == t.errors,
        after_moves(t, files, outcomes).skipped == t.skipped,
    decreases outcomes.len(),
{
    if outcomes.len() > 0 {
        let prev = after_moves(t, files.drop_last(), outcomes.drop_last());
        law_each_planned_note_counted_once(t, files.drop_last(), outcomes.drop_last());
        let next = after_moves(t, files, outcomes);
        assert(moved_count(outcomes) <= outcomes.len()) by {
            lemma_moved_count_bound(outcomes);
        }
        lemma_moved_count_bound(outcomes.drop_last());
        if !(outcomes.last() is Moved) {
            assert(prev.errors.len() >= t.errors.len());
            assert(next.errors.take(t.errors.len() as int) =~= prev.errors.take(
                t.errors.len() as int,
            ));
        }
    } else {
        assert(t.errors.take(t.errors.len() as int) =~= t.errors);
    }
}

proof fn lemma_moved_count_bound(outcomes: Seq<MoveOutcome>)
    ensures
        moved_count(outcomes) <= outcomes.len(),
    decreases outcomes.len(),
{
    if outcomes.len() > 0 {
        lemma_moved_count_bound(outcomes.drop_last());
    }
}

/// Rewriting with the pairs `a` and then the pairs `b` is rewriting with
/// `a + b`: every pair is applied to the text that the pairs before it
/// produced, whether or not those matched, and a link was found when one
/// was found in either part.
pub proof fn law_relinking_composes(
    content: Seq<char>,
    a: Seq<(Seq<char>, Seq<char>)>,
    b: Seq<(Seq<char>, Seq<char>)>,
)
    ensures
        relink_all(content, a + b) == ({
            let first = relink_all(content, a);
            let second = relink_all(first.0, b);
            (second.0, first.1 || second.1)
        }),
    decreases b.len(),
{
    if b.len() == 0 {
        assert(a + b =~= a);
    } else {
        assert((a + b).drop_last() =~= a + b.drop_last());
        assert((a + b).last() == b.last());
        law_relinking_composes(content, a, b.drop_last());
    }
}

/// The pair `(old, title)` added after any others is applied to the text
/// they produced: its links there become links to `title`, and it counts
/// as found when its link occurs there.
pub proof fn law_each_pair_is_applied(
    content: Seq<char>,
    reps: Seq<(Seq<char>, Seq<char>)>,
    old: Seq<char>,
    title: Seq<char>,
)
    ensures
        ({
            let before = relink_all(content, reps).0;
            let after = relink_all(content, reps.push((old, title)));
            let link = "[["@ + old + "]]"@;
            let piped = "[["@ + old + "|"@;
            let once = if contains(before, link) {
                replace_all(before, link, "[["@ + title + "]]"@)
            } else {
                before
            };
            &&& after.0 == (if contains(once, piped) {
                replace_all(once, piped, "[["@ + title + "|"@)
            } else {
                once
            })
            &&& (contains(before, link) || contains(before, piped)) ==> after.1
        }),
{
    let one = seq![(old, title)];
    law_relinking_composes(content, reps, one);
    assert(reps.push((old, title)) =~= reps + one);
    assert(one.drop_last() =~= Seq::<(Seq<char>, Seq<char>)>::empty());
    assert(one.last() == (old, title));
    let before = relink_all(content, reps).0;
    assert(relink_all(before, one.drop_last()) == (before, false));
    assert(relink_all(before, one) == relink(before, old, title));
}

/// A note that holds none of the links of the pairs is left as it is.
pub proof fn law_unlinked_note_unchanged(content: Seq<char>, reps: Seq<(Seq<char>, Seq<char>)>)
    requires
        forall|k: int|
            0 <= k < reps.len() ==> !contains(content, "[["@ + (#[trigger] reps[k]).0 + "]]"@)
                && !contains(content, "[["@ + reps[k].0 + "|"@),
    ensures
        relink_all(content, reps) == (content, false),
    decreases reps.len(),
{
    if reps.len() > 0 {
        let q = reps.drop_last();
        assert forall|k: int| 0 <= k < q.len() implies !contains(
            content,
            "[["@ + (#[trigger] q[k]).0 + "]]"@,
        ) && !contains(content, "[["@ + q[k].0 + "|"@) by {
            assert(q[k] == reps[k]);
        }
        law_unlinked_note_unchanged(content, q);
        assert(reps.last() == reps[reps.len() - 1]);
    }
}

/// A note whose vault-relative path is `first/rest`, with `first` a folder
/// that is not a system folder, moves to the root however deeply it is
/// nested, unless its parent is the vault itself.
pub proof fn law_nested_note_moves(
    path: Seq<char>,
    vault: Seq<char>,
    first: Seq<char>,
    rest: Seq<char>,
)
    requires
        relative_to(path, vault) == Some(first + "/"@ + rest),
        forall|i: int| 0 <= i < first.len() ==> first[i] != '/',
        first != system_folder(0) && first != system_folder(1) && first != system_folder(2),
        !at_vault_root(path, vault),
    ensures
        moves_to_root(path, vault),
{
    reveal_strlit("/");
    reveal_strlit("type");
    reveal_strlit("config");
    reveal_strlit("theme");
    let r = first + "/"@ + rest;
    assert(r[first.len() as int] == '/');
    assert forall|k: int| 0 <= k < 3 implies !(starts_with(r, #[trigger] system_folder(k) + "/"@)
        || r == system_folder(k)) by {
        let f = system_folder(k);
        assert(forall|i: int| 0 <= i < f.len() ==> f[i] != '/');
        if r == f {
            assert(f[first.len() as int] == '/');
        }
        if starts_with(r, f + "/"@) {
            let fs = f + "/"@;
            assert(r.take(fs.len() as int) == fs);
            if f.len() < first.len() {
                assert(r[f.len() as int] == fs[f.len() as int]);
                assert(r[f.len() as int] == first[f.len() as int]);
            } else if f.len() > first.len() {
                assert(r[first.len() as int] == fs[first.len() as int]);
                assert(fs[first.len() as int] == f[first.len() as int]);
            } else {
                assert forall|i: int| 0 <= i < f.len() implies first[i] == f[i] by {
                    assert(r[i] == fs[i]);
                    assert(r[i] == first[i]);
                }
                assert(first =~= f);
            }
        }
    }
}

/// The notes planned to move are exactly the found notes that move to the
/// root, in the order they were found.
pub proof fn law_plan_keeps_moving_notes(vault: Seq<char>, files: Seq<Seq<char>>)
    ensures
        planned_moves(vault, files) == files.filter(|f: Seq<char>| moves_to_root(f, vault)),
    decreases files.len(),
{
    reveal(Seq::filter);
    if files.len() > 0 {
        law_plan_keeps_moving_notes(vault, files.drop_last());
    }
}

} // verus!
