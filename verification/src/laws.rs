//! What holds of every extraction plan, and of packing followed by planning.

use vstd::prelude::*;
use crate::extract::comment_steps;
use crate::extract::entries_actions;
use crate::extract::entry_actions;
use crate::extract::extraction_plan;
use crate::extract::head_steps;
use crate::extract::mode_steps;
use crate::extract::ActionView;
use crate::extract::EntryView;
use crate::path::beneath;
use crate::path::components;
use crate::path::entry_name;
use crate::path::follow;
use crate::path::is_dir_name;
use crate::path::is_rooted;
use crate::path::joined;
use crate::path::lies_under;
use crate::path::skip_slashes;
use crate::path::slash;
use crate::path::is_dot;
use crate::path::is_dot_dot;
use crate::path::resolved;
use crate::path::slashed;
use crate::path::stem;
use crate::path::step;

verus! {

/// A component that names one thing inside a directory: not empty, neither
/// `.` nor `..`, and free of separators and NUL.
pub open spec fn is_plain(part: Seq<char>) -> bool {
    &&& part.len() > 0
    &&& !is_dot(part)
    &&& !is_dot_dot(part)
    &&& !part.contains('/')
    &&& !part.contains('\\')
    &&& !part.contains('\0')
}

/// Every component is plain.
pub open spec fn all_plain(parts: Seq<Seq<char>>) -> bool {
    forall|i: int| 0 <= i < parts.len() ==> is_plain(#[trigger] parts[i])
}

/// `path` is `dir` itself or lies inside it: it is `dir` followed by plain
/// components, so no part of it leads upward or starts anew at a root.
pub open spec fn is_inside(dir: Seq<char>, path: Seq<char>) -> bool {
    exists|parts: Seq<Seq<char>>| all_plain(parts) && path == #[trigger] beneath(dir, parts)
}

/// The path that a step creates, writes or changes; `None` for a step that
/// touches nothing on disk.
pub open spec fn target(action: ActionView) -> Option<Seq<char>> {
    match action {
        ActionView::CreateDir { path } => Some(path),
        ActionView::ShowComment { index, comment } => None,
        ActionView::CreateDirAll { path } => Some(path),
        ActionView::WriteFile { path, data } => Some(path),
        ActionView::SetPermissions { path, mode } => Some(path),
    }
}

/// Every step that touches the disk touches `dir` or something inside it.
pub open spec fn stays_inside(steps: Seq<ActionView>, dir: Seq<char>) -> bool {
    forall|j: int|
        0 <= j < steps.len() ==> match target(#[trigger] steps[j]) {
            Some(path) => is_inside(dir, path),
            None => true,
        }
}

/// Every step that writes a file comes directly after the step that creates
/// the directory the file lies in, with all its ancestors.
pub open spec fn parents_first(steps: Seq<ActionView>, dir: Seq<char>) -> bool {
    forall|j: int|
        0 <= j < steps.len() ==> match #[trigger] steps[j] {
            ActionView::WriteFile { path, data } => j > 0 && exists|parts: Seq<Seq<char>>|
                parts.len() > 0 && path == #[trigger] beneath(dir, parts) && steps[j - 1]
                    == (ActionView::CreateDirAll { path: beneath(dir, parts.drop_last()) }),
            _ => true,
        }
}

/// The pieces between slashes hold no slash, and no character that the
/// string does not hold.
pub proof fn lemma_components_chars(s: Seq<char>)
    ensures
        components(s).len() > 0,
        forall|i: int| 0 <= i < components(s).len() ==> !(#[trigger] components(s)[i]).contains('/'),
        forall|i: int, c: char|
            0 <= i < components(s).len() && (#[trigger] components(s)[i]).contains(c)
                ==> #[trigger] s.contains(c),
    decreases s.len(),
{
    if s.len() > 0 {
        let front = s.drop_last();
        lemma_components_chars(front);
        let before = components(front);
        assert forall|i: int, c: char|
            0 <= i < components(s).len() && (#[trigger] components(s)[i]).contains(
                c,
            ) implies #[trigger] s.contains(c) by {
            let k = choose|k: int| 0 <= k < components(s)[i].len() && components(s)[i][k] == c;
            let in_front = if s.last() == '/' {
                i < before.len()
            } else {
                i < before.len() - 1 || k < before.last().len()
            };
            if in_front {
                assert(before[i][k] == c);
                assert(before[i].contains(c));
                assert(front.contains(c));
                let m = choose|m: int| 0 <= m < front.len() && front[m] == c;
                assert(s[m] == c);
            } else {
                assert(s.last() != '/');
                assert(s[s.len() - 1] == c);
            }
        }
        assert forall|i: int| 0 <= i < components(s).len() implies !(#[trigger] components(
            s,
        )[i]).contains('/') by {
            if components(s)[i].contains('/') {
                let k = choose|k: int| 0 <= k < components(s)[i].len() && components(s)[i][k] == '/';
                if i < before.len() - 1 {
                    assert(before[i][k] == '/');
                    assert(before[i].contains('/'));
                } else if s.last() == '/' {
                    if i < before.len() {
                        assert(before[i][k] == '/');
                        assert(before[i].contains('/'));
                    }
                } else {
                    if k < before.last().len() {
                        assert(before.last()[k] == '/');
                        assert(before.last().contains('/'));
                    }
                }
            }
        }
    }
}

/// Following components never enters anything but the components given, and
/// of those no empty one, no `.` and no `..`.
pub proof fn lemma_follow_enters(parts: Seq<Seq<char>>)
    requires
        follow(parts) is Some,
    ensures
        forall|j: int|
            0 <= j < follow(parts).unwrap().len() ==> {
                let part = #[trigger] follow(parts).unwrap()[j];
                &&& part.len() > 0
                &&& !is_dot(part)
                &&& !is_dot_dot(part)
                &&& exists|i: int| 0 <= i < parts.len() && parts[i] == part
            },
    decreases parts.len(),
{
    if parts.len() > 0 {
        let front = parts.drop_last();
        lemma_follow_enters(front);
        let stack = follow(front).unwrap();
        let after = follow(parts).unwrap();
        assert(step(stack, parts.last()) == Some(after));
        assert forall|j: int| 0 <= j < after.len() implies {
            let part = #[trigger] after[j];
            &&& part.len() > 0
            &&& !is_dot(part)
            &&& !is_dot_dot(part)
            &&& exists|i: int| 0 <= i < parts.len() && parts[i] == part
        } by {
            if j < stack.len() {
                assert(after[j] == stack[j]);
                let i = choose|i: int| 0 <= i < front.len() && front[i] == stack[j];
                assert(parts[i] == after[j]);
            } else {
                assert(after[j] == parts.last());
                assert(parts[parts.len() - 1] == after[j]);
            }
        }
    }
}

/// A name that resolves leads through plain components only.
pub proof fn lemma_resolved_is_plain(name: Seq<char>)
    requires
        resolved(name) is Some,
    ensures
        all_plain(resolved(name).unwrap()),
{
    let n = slashed(name);
    let parts = components(n);
    let stack = resolved(name).unwrap();
    lemma_components_chars(n);
    lemma_follow_enters(parts);
    assert forall|j: int| 0 <= j < stack.len() implies is_plain(#[trigger] stack[j]) by {
        let i = choose|i: int| 0 <= i < parts.len() && parts[i] == stack[j];
        if stack[j].contains('\\') {
            assert(parts[i].contains('\\'));
            assert(n.contains('\\'));
            let m = choose|m: int| 0 <= m < n.len() && n[m] == '\\';
            assert(false);
        }
        if stack[j].contains('\0') {
            assert(parts[i].contains('\0'));
            assert(n.contains('\0'));
        }
    }
}

/// A prefix of plain components is plain.
pub proof fn lemma_plain_front(parts: Seq<Seq<char>>)
    requires
        all_plain(parts),
        parts.len() > 0,
    ensures
        all_plain(parts.drop_last()),
{
    assert forall|i: int| 0 <= i < parts.drop_last().len() implies is_plain(
        #[trigger] parts.drop_last()[i],
    ) by {
        assert(parts.drop_last()[i] == parts[i]);
    }
}

/// The steps of one entry stay inside the output directory, and write a
/// file only directly after creating the directory it lies in.
pub proof fn lemma_entry_is_safe(e: EntryView, index: int, dir: Seq<char>, unix_host: bool)
    requires
        entry_actions(e, index, dir, unix_host) is Some,
    ensures
        stays_inside(entry_actions(e, index, dir, unix_host).unwrap(), dir),
        parents_first(entry_actions(e, index, dir, unix_host).unwrap(), dir),
{
    let steps = entry_actions(e, index, dir, unix_host).unwrap();
    let parts = resolved(e.name).unwrap();
    let path = beneath(dir, parts);
    lemma_resolved_is_plain(e.name);
    if parts.len() > 0 {
        lemma_plain_front(parts);
    }
    let front = beneath(dir, parts.drop_last());
    let notes = comment_steps(e, index);
    let modes = mode_steps(e, path, unix_host);
    assert forall|j: int| 0 <= j < steps.len() implies match target(#[trigger] steps[j]) {
        Some(p) => is_inside(dir, p),
        None => true,
    } by {
        match target(steps[j]) {
            Some(p) => {
                if p == path {
                    assert(all_plain(parts) && p == beneath(dir, parts));
                } else {
                    assert(j == notes.len());
                    assert(p == front);
                    assert(all_plain(parts.drop_last()) && p == beneath(dir, parts.drop_last()));
                }
            },
            None => {},
        }
    }
    assert forall|j: int| 0 <= j < steps.len() implies match #[trigger] steps[j] {
        ActionView::WriteFile { path: p, data } => j > 0 && exists|ps: Seq<Seq<char>>|
            ps.len() > 0 && p == #[trigger] beneath(dir, ps) && steps[j - 1]
                == (ActionView::CreateDirAll { path: beneath(dir, ps.drop_last()) }),
        _ => true,
    } by {
        match steps[j] {
            ActionView::WriteFile { path: p, data } => {
                assert(j == notes.len() + 1);
                assert(steps[j - 1] == (ActionView::CreateDirAll { path: front }));
                assert(parts.len() > 0 && p == beneath(dir, parts));
            },
            _ => {},
        }
    }
}

/// Two runs of steps that each stay inside and put parents first do so
/// together.
pub proof fn lemma_safe_concat(a: Seq<ActionView>, b: Seq<ActionView>, dir: Seq<char>)
    requires
        stays_inside(a, dir),
        parents_first(a, dir),
        stays_inside(b, dir),
        parents_first(b, dir),
    ensures
        stays_inside(a + b, dir),
        parents_first(a + b, dir),
{
    let all = a + b;
    assert forall|j: int| 0 <= j < all.len() implies match target(#[trigger] all[j]) {
        Some(p) => is_inside(dir, p),
        None => true,
    } by {
        if j < a.len() {
            assert(all[j] == a[j]);
        } else {
            assert(all[j] == b[j - a.len()]);
        }
    }
    assert forall|j: int| 0 <= j < all.len() implies match #[trigger] all[j] {
        ActionView::WriteFile { path: p, data } => j > 0 && exists|ps: Seq<Seq<char>>|
            ps.len() > 0 && p == #[trigger] beneath(dir, ps) && all[j - 1]
                == (ActionView::CreateDirAll { path: beneath(dir, ps.drop_last()) }),
        _ => true,
    } by {
        if j < a.len() {
            assert(all[j] == a[j]);
            if j > 0 {
                assert(all[j - 1] == a[j - 1]);
            }
        } else {
            let k = j - a.len();
            assert(all[j] == b[k]);
            if k > 0 {
                assert(all[j - 1] == b[k - 1]);
            }
        }
    }
}

/// The steps of all entries stay inside the output directory and put
/// parents first.
pub proof fn lemma_entries_are_safe(entries: Seq<EntryView>, dir: Seq<char>, unix_host: bool)
    requires
        entries_actions(entries, dir, unix_host) is Some,
    ensures
        stays_inside(entries_actions(entries, dir, unix_host).unwrap(), dir),
        parents_first(entries_actions(entries, dir, unix_host).unwrap(), dir),
    decreases entries.len(),
{
    if entries.len() > 0 {
        lemma_entries_are_safe(entries.drop_last(), dir, unix_host);
        lemma_entry_is_safe(entries.last(), entries.len() - 1, dir, unix_host);
        lemma_safe_concat(
            entries_actions(entries.drop_last(), dir, unix_host).unwrap(),
            entry_actions(entries.last(), entries.len() - 1, dir, unix_host).unwrap(),
            dir,
        );
    }
}

/// No extraction plan touches anything outside the output directory, and
/// every plan puts parents first.
///
/// Whatever names the entries carry, every path that a step of the plan
/// creates, writes or changes is the output directory followed by plain
/// components. And a file is written only directly after the directory it
/// lies in has been created with all its ancestors, whether or not the
/// container holds entries for those directories.
pub proof fn lemma_plan_is_safe(
    entries: Seq<EntryView>,
    dir: Seq<char>,
    dir_exists: bool,
    unix_host: bool,
)
    requires
        extraction_plan(entries, dir, dir_exists, unix_host) is Some,
    ensures
        stays_inside(extraction_plan(entries, dir, dir_exists, unix_host).unwrap(), dir),
        parents_first(extraction_plan(entries, dir, dir_exists, unix_host).unwrap(), dir),
{
    lemma_entries_are_safe(entries, dir, unix_host);
    let head = head_steps(dir, dir_exists);
    assert(stays_inside(head, dir) && parents_first(head, dir)) by {
        let none = Seq::<Seq<char>>::empty();
        assert(all_plain(none) && dir == beneath(dir, none));
    }
    lemma_safe_concat(head, entries_actions(entries, dir, unix_host).unwrap(), dir);
}

/// A path inside a directory starts with the directory's own path.
pub proof fn lemma_inside_extends(dir: Seq<char>, path: Seq<char>)
    requires
        is_inside(dir, path),
    ensures
        dir.is_prefix_of(path),
{
    let parts = choose|parts: Seq<Seq<char>>| all_plain(parts) && path == #[trigger] beneath(dir, parts);
    assert(dir.is_prefix_of(stem(dir)));
    assert(dir =~= path.subrange(0, dir.len() as int));
}

/// Turning backslashes into slashes goes through concatenation.
pub proof fn lemma_slashed_concat(a: Seq<char>, b: Seq<char>)
    ensures
        slashed(a + b) == slashed(a) + slashed(b),
{
    assert(slashed(a + b) =~= slashed(a) + slashed(b));
}

/// A string without backslashes is left as it is.
pub proof fn lemma_slashed_same(s: Seq<char>)
    requires
        !s.contains('\\'),
    ensures
        slashed(s) == s,
{
    assert forall|i: int| 0 <= i < s.len() implies slash(#[trigger] s[i]) == s[i] by {
        if s[i] == '\\' {
            assert(s.contains('\\'));
        }
    }
    assert(slashed(s) =~= s);
}

/// Plain components joined: the path starts as the first component starts,
/// ends as the last one ends, and holds neither a backslash nor NUL.
pub proof fn lemma_joined_chars(parts: Seq<Seq<char>>)
    requires
        all_plain(parts),
        parts.len() > 0,
    ensures
        joined(parts).len() > 0,
        joined(parts)[0] == parts[0][0],
        joined(parts).last() == parts.last().last(),
        !joined(parts).contains('\\'),
        !joined(parts).contains('\0'),
        joined(parts).len() >= parts[0].len(),
        forall|k: int| 0 <= k < parts[0].len() ==> joined(parts)[k] == parts[0][k],
    decreases parts.len(),
{
    let all = joined(parts);
    let last = parts.last();
    assert(is_plain(parts[0]));
    assert(is_plain(parts[parts.len() - 1]));
    if parts.len() == 1 {
    } else {
        let front = parts.drop_last();
        lemma_plain_front(parts);
        lemma_joined_chars(front);
        let j = joined(front);
        assert(front[0] == parts[0]);
        assert(all == j + seq!['/'] + last);
        assert forall|c: char| c == '\\' || c == '\0' implies !all.contains(c) by {
            if all.contains(c) {
                let k = choose|k: int| 0 <= k < all.len() && all[k] == c;
                if k < j.len() {
                    assert(j[k] == c);
                    assert(j.contains(c));
                } else if k > j.len() {
                    assert(last[k - j.len() - 1] == c);
                    assert(last.contains(c));
                }
            }
        }
    }
}

/// Appending characters other than the slash extends the last piece.
pub proof fn lemma_components_append(s: Seq<char>, t: Seq<char>)
    requires
        !t.contains('/'),
    ensures
        components(s).len() > 0,
        components(s + t) == components(s).drop_last().push(components(s).last() + t),
    decreases t.len(),
{
    lemma_components_chars(s);
    let pieces = components(s);
    if t.len() == 0 {
        assert(s + t =~= s);
        assert(pieces.last() + t =~= pieces.last());
        assert(pieces.drop_last().push(pieces.last()) =~= pieces);
    } else {
        let front = t.drop_last();
        assert(!front.contains('/')) by {
            if front.contains('/') {
                let k = choose|k: int| 0 <= k < front.len() && front[k] == '/';
                assert(t[k] == '/');
            }
        }
        lemma_components_append(s, front);
        assert((s + t).drop_last() =~= s + front);
        assert((s + t).last() == t.last());
        assert(t.last() != '/') by {
            assert(t[t.len() - 1] == t.last());
        }
        let before = components(s + front);
        assert(before.drop_last() =~= pieces.drop_last());
        assert(before.last().push(t.last()) =~= pieces.last() + t);
    }
}

/// Splitting what was joined gives back the components, provided none of
/// them holds a slash.
pub proof fn lemma_components_joined(parts: Seq<Seq<char>>)
    requires
        parts.len() > 0,
        forall|i: int| 0 <= i < parts.len() ==> !(#[trigger] parts[i]).contains('/'),
    ensures
        components(joined(parts)) == parts,
    decreases parts.len(),
{
    let none = Seq::<char>::empty();
    if parts.len() == 1 {
        lemma_components_append(none, parts[0]);
        assert(none + parts[0] =~= parts[0]);
        assert(components(none) =~= seq![none]);
        assert(seq![none].drop_last().push(none + parts[0]) =~= parts);
    } else {
        let front = parts.drop_last();
        assert forall|i: int| 0 <= i < front.len() implies !(#[trigger] front[i]).contains('/') by {
            assert(front[i] == parts[i]);
        }
        lemma_components_joined(front);
        let j = joined(front);
        let cut = j + seq!['/'];
        assert(cut.drop_last() =~= j);
        assert(components(cut) == front.push(none));
        lemma_components_append(cut, parts.last());
        assert(front.push(none).drop_last() =~= front);
        assert(none + parts.last() =~= parts.last());
        assert(front.push(parts.last()) =~= parts);
    }
}

/// Following plain components enters each of them.
pub proof fn lemma_follow_plain(parts: Seq<Seq<char>>)
    requires
        all_plain(parts),
    ensures
        follow(parts) == Some(parts),
    decreases parts.len(),
{
    if parts.len() > 0 {
        lemma_plain_front(parts);
        lemma_follow_plain(parts.drop_last());
        assert(is_plain(parts[parts.len() - 1]));
        assert(parts.drop_last().push(parts.last()) =~= parts);
    } else {
        assert(parts =~= Seq::<Seq<char>>::empty());
    }
}

/// A file beneath the working directory is stored under its path relative
/// to that directory.
pub proof fn lemma_name_is_relative(cwd: Seq<char>, parts: Seq<Seq<char>>)
    requires
        cwd.len() > 0,
        all_plain(parts),
        parts.len() > 0,
    ensures
        entry_name(beneath(cwd, parts), cwd) == joined(parts),
{
    let j = joined(parts);
    let st = stem(cwd);
    let p = slashed(st + j);
    let c = slashed(cwd);
    lemma_joined_chars(parts);
    lemma_slashed_concat(st, j);
    lemma_slashed_same(j);
    assert(is_plain(parts[0]));
    assert(j[0] != '/') by {
        if parts[0][0] == '/' {
            assert(parts[0].contains('/'));
        }
    }
    assert(skip_slashes(j) == j);
    assert(beneath(cwd, parts) == st + j);
    if cwd.last() == '/' {
        assert(st == cwd);
        assert(c =~= p.subrange(0, c.len() as int));
        assert(c.last() == '/');
        assert(lies_under(c, p));
        assert(p.skip(c.len() as int) =~= j);
    } else {
        assert(slashed(st) =~= c.push('/'));
        assert(c =~= p.subrange(0, c.len() as int));
        assert(p[c.len() as int] == '/');
        let rest = p.skip(c.len() as int);
        assert(rest =~= seq!['/'] + j);
        assert(rest.drop_first() =~= j);
        assert(lies_under(c, p));
        assert(skip_slashes(rest) == skip_slashes(rest.drop_first()));
    }
}

/// Packing and unpacking keep a file in its place and keep its bytes.
///
/// A file that lies beneath the working directory at the relative path
/// `parts` is stored under that relative path; and the steps planned for an
/// entry with that name and the file's bytes create the directory at the
/// same relative place beneath the output directory, then write the same
/// bytes to the file at the same relative path there. The relative path must
/// not begin with a drive letter and a colon: such a name is refused.
pub proof fn lemma_round_trip(
    cwd: Seq<char>,
    parts: Seq<Seq<char>>,
    data: Seq<u8>,
    unix_mode: Option<u32>,
    comment: Seq<char>,
    index: int,
    dir: Seq<char>,
    unix_host: bool,
)
    requires
        cwd.len() > 0,
        all_plain(parts),
        parts.len() > 0,
        !is_rooted(joined(parts)),
    ensures
        ({
            let name = entry_name(beneath(cwd, parts), cwd);
            let e = EntryView { name, data, unix_mode, comment };
            &&& name == joined(parts)
            &&& resolved(name) == Some(parts)
            &&& entry_actions(e, index, dir, unix_host) == Some(
                comment_steps(e, index) + seq![
                    ActionView::CreateDirAll { path: beneath(dir, parts.drop_last()) },
                    ActionView::WriteFile { path: beneath(dir, parts), data },
                ] + mode_steps(e, beneath(dir, parts), unix_host),
            )
        }),
{
    let j = joined(parts);
    lemma_name_is_relative(cwd, parts);
    lemma_joined_chars(parts);
    lemma_slashed_same(j);
    assert forall|i: int| 0 <= i < parts.len() implies !(#[trigger] parts[i]).contains('/') by {
        assert(is_plain(parts[i]));
    }
    lemma_components_joined(parts);
    lemma_follow_plain(parts);
    assert(is_plain(parts[parts.len() - 1]));
    assert(!is_dir_name(j)) by {
        let last = parts.last();
        assert(last[last.len() - 1] == j.last());
        if j.last() == '/' {
            assert(last.contains('/'));
        }
        if j.last() == '\\' {
            assert(last.contains('\\'));
        }
    }
}

/// When no entry is refused, the entries have a plan.
pub proof fn lemma_entries_accepted(entries: Seq<EntryView>, dir: Seq<char>, unix_host: bool)
    requires
        forall|i: int|
            0 <= i < entries.len() ==> entry_actions(#[trigger] entries[i], i, dir, unix_host) is Some,
    ensures
        entries_actions(entries, dir, unix_host) is Some,
    decreases entries.len(),
{
    if entries.len() > 0 {
        let front = entries.drop_last();
        assert forall|i: int| 0 <= i < front.len() implies entry_actions(
            #[trigger] front[i],
            i,
            dir,
            unix_host,
        ) is Some by {
            assert(front[i] == entries[i]);
        }
        lemma_entries_accepted(front, dir, unix_host);
        assert(entries.last() == entries[entries.len() - 1]);
    }
}

/// When the entries have a plan, no entry is refused.
pub proof fn lemma_each_accepted(entries: Seq<EntryView>, dir: Seq<char>, unix_host: bool, i: int)
    requires
        entries_actions(entries, dir, unix_host) is Some,
        0 <= i < entries.len(),
    ensures
        entry_actions(entries[i], i, dir, unix_host) is Some,
    decreases entries.len(),
{
    if i < entries.len() - 1 {
        assert(entries.drop_last()[i] == entries[i]);
        lemma_each_accepted(entries.drop_last(), dir, unix_host, i);
    }
}

/// A step of one entry is a step of all entries.
pub proof fn lemma_step_is_kept(
    entries: Seq<EntryView>,
    dir: Seq<char>,
    unix_host: bool,
    i: int,
    step: ActionView,
)
    requires
        entries_actions(entries, dir, unix_host) is Some,
        0 <= i < entries.len(),
        entry_actions(entries[i], i, dir, unix_host) is Some,
        entry_actions(entries[i], i, dir, unix_host).unwrap().contains(step),
    ensures
        entries_actions(entries, dir, unix_host).unwrap().contains(step),
    decreases entries.len(),
{
    let all = entries_actions(entries, dir, unix_host).unwrap();
    let front = entries.drop_last();
    let before = entries_actions(front, dir, unix_host).unwrap();
    let steps = entry_actions(entries.last(), entries.len() - 1, dir, unix_host).unwrap();
    assert(all == before + steps);
    if i < entries.len() - 1 {
        assert(front[i] == entries[i]);
        lemma_step_is_kept(front, dir, unix_host, i, step);
        let k = choose|k: int| 0 <= k < before.len() && before[k] == step;
        assert(all[k] == step);
    } else {
        let k = choose|k: int| 0 <= k < steps.len() && steps[k] == step;
        assert(all[before.len() + k] == step);
    }
}

/// A step of all entries is a step of one of them.
pub proof fn lemma_step_has_entry(
    entries: Seq<EntryView>,
    dir: Seq<char>,
    unix_host: bool,
    step: ActionView,
) -> (i: int)
    requires
        entries_actions(entries, dir, unix_host) is Some,
        entries_actions(entries, dir, unix_host).unwrap().contains(step),
    ensures
        0 <= i < entries.len(),
        entry_actions(entries[i], i, dir, unix_host) is Some,
        entry_actions(entries[i], i, dir, unix_host).unwrap().contains(step),
    decreases entries.len(),
{
    let all = entries_actions(entries, dir, unix_host).unwrap();
    let k = choose|k: int| 0 <= k < all.len() && all[k] == step;
    if entries.len() == 0 {
        0
    } else {
        let front = entries.drop_last();
        let before = entries_actions(front, dir, unix_host).unwrap();
        let steps = entry_actions(entries.last(), entries.len() - 1, dir, unix_host).unwrap();
        assert(all == before + steps);
        if k < before.len() {
            assert(before[k] == step);
            let i = lemma_step_has_entry(front, dir, unix_host, step);
            assert(front[i] == entries[i]);
            i
        } else {
            assert(steps[k - before.len()] == step);
            entries.len() - 1
        }
    }
}

/// The plan writes what the steps of the entries write.
pub proof fn lemma_plan_writes(
    entries: Seq<EntryView>,
    dir: Seq<char>,
    dir_exists: bool,
    unix_host: bool,
    path: Seq<char>,
    data: Seq<u8>,
)
    requires
        entries_actions(entries, dir, unix_host) is Some,
    ensures
        extraction_plan(entries, dir, dir_exists, unix_host).unwrap().contains(
            (ActionView::WriteFile { path, data }),
        ) == entries_actions(entries, dir, unix_host).unwrap().contains(
            (ActionView::WriteFile { path, data }),
        ),
{
    let write = ActionView::WriteFile { path, data };
    let steps = entries_actions(entries, dir, unix_host).unwrap();
    let plan = extraction_plan(entries, dir, dir_exists, unix_host).unwrap();
    let shift: int = if dir_exists {
        0
    } else {
        1
    };
    if steps.contains(write) {
        let k = choose|k: int| 0 <= k < steps.len() && steps[k] == write;
        assert(plan[k + shift] == write);
    }
    if plan.contains(write) {
        let k = choose|k: int| 0 <= k < plan.len() && plan[k] == write;
        assert(steps[k - shift] == write);
    }
}

/// The one file that the steps of a file entry write.
pub proof fn lemma_entry_writes(
    e: EntryView,
    index: int,
    dir: Seq<char>,
    unix_host: bool,
    parts: Seq<Seq<char>>,
    path: Seq<char>,
    data: Seq<u8>,
)
    requires
        entry_actions(e, index, dir, unix_host) == Some(
            comment_steps(e, index) + seq![
                ActionView::CreateDirAll { path: beneath(dir, parts.drop_last()) },
                ActionView::WriteFile { path: beneath(dir, parts), data: e.data },
            ] + mode_steps(e, beneath(dir, parts), unix_host),
        ),
    ensures
        entry_actions(e, index, dir, unix_host).unwrap().contains(
            (ActionView::WriteFile { path, data }),
        ) == (path == beneath(dir, parts) && data == e.data),
{
    let own = entry_actions(e, index, dir, unix_host).unwrap();
    let write = ActionView::WriteFile { path, data };
    let at = comment_steps(e, index).len() as int + 1;
    if path == beneath(dir, parts) && data == e.data {
        assert(own[at] == write);
    }
    if own.contains(write) {
        let m = choose|m: int| 0 <= m < own.len() && own[m] == write;
        assert(m == at);
    }
}

/// Packing a tree and unpacking it gives the same tree.
///
/// `tree` lists the files beneath the working directory, each by its
/// relative path and its bytes. `entries` are entries that carry, in the
/// same order, the names under which those files are stored and their
/// bytes. Then the entries have an extraction plan; for every file of the
/// tree the plan writes the file's bytes at the file's relative path beneath
/// the output directory; and the plan writes no other file. No relative
/// path may begin with a drive letter and a colon.
pub proof fn lemma_round_trip_of_tree(
    cwd: Seq<char>,
    tree: Seq<(Seq<Seq<char>>, Seq<u8>)>,
    entries: Seq<EntryView>,
    dir: Seq<char>,
    dir_exists: bool,
    unix_host: bool,
)
    requires
        cwd.len() > 0,
        entries.len() == tree.len(),
        forall|i: int|
            0 <= i < tree.len() ==> {
                let parts = (#[trigger] tree[i]).0;
                &&& all_plain(parts)
                &&& parts.len() > 0
                &&& !is_rooted(joined(parts))
                &&& entries[i].name == entry_name(beneath(cwd, parts), cwd)
                &&& entries[i].data == tree[i].1
            },
    ensures
        extraction_plan(entries, dir, dir_exists, unix_host) is Some,
        forall|i: int|
            0 <= i < tree.len() ==> extraction_plan(
                entries,
                dir,
                dir_exists,
                unix_host,
            ).unwrap().contains(
                (ActionView::WriteFile { path: beneath(dir, (#[trigger] tree[i]).0), data: tree[i].1 }),
            ),
        forall|path: Seq<char>, data: Seq<u8>| #[trigger]
            extraction_plan(entries, dir, dir_exists, unix_host).unwrap().contains(
                (ActionView::WriteFile { path, data }),
            ) ==> exists|i: int|
                0 <= i < tree.len() && path == beneath(dir, (#[trigger] tree[i]).0) && data
                    == tree[i].1,
{
    assert forall|i: int| 0 <= i < entries.len() implies entry_actions(
        #[trigger] entries[i],
        i,
        dir,
        unix_host,
    ) is Some by {
        lemma_tree_entry(cwd, tree, entries, dir, unix_host, i);
    }
    lemma_entries_accepted(entries, dir, unix_host);
    assert forall|i: int| 0 <= i < tree.len() implies extraction_plan(
        entries,
        dir,
        dir_exists,
        unix_host,
    ).unwrap().contains(
        (ActionView::WriteFile { path: beneath(dir, (#[trigger] tree[i]).0), data: tree[i].1 }),
    ) by {
        let path = beneath(dir, tree[i].0);
        let write = ActionView::WriteFile { path, data: tree[i].1 };
        lemma_tree_entry(cwd, tree, entries, dir, unix_host, i);
        lemma_entry_writes(entries[i], i, dir, unix_host, tree[i].0, path, tree[i].1);
        lemma_step_is_kept(entries, dir, unix_host, i, write);
        lemma_plan_writes(entries, dir, dir_exists, unix_host, path, tree[i].1);
    }
    assert forall|path: Seq<char>, data: Seq<u8>| #[trigger]
        extraction_plan(entries, dir, dir_exists, unix_host).unwrap().contains(
            (ActionView::WriteFile { path, data }),
        ) implies exists|i: int|
        0 <= i < tree.len() && path == beneath(dir, (#[trigger] tree[i]).0) && data
            == tree[i].1 by {
        let write = ActionView::WriteFile { path, data };
        lemma_plan_writes(entries, dir, dir_exists, unix_host, path, data);
        let i = lemma_step_has_entry(entries, dir, unix_host, write);
        lemma_tree_entry(cwd, tree, entries, dir, unix_host, i);
        lemma_entry_writes(entries[i], i, dir, unix_host, tree[i].0, path, data);
        assert(path == beneath(dir, tree[i].0) && data == tree[i].1);
    }
}

/// The steps planned for the entry of one file of a tree.
proof fn lemma_tree_entry(
    cwd: Seq<char>,
    tree: Seq<(Seq<Seq<char>>, Seq<u8>)>,
    entries: Seq<EntryView>,
    dir: Seq<char>,
    unix_host: bool,
    i: int,
)
    requires
        cwd.len() > 0,
        entries.len() == tree.len(),
        0 <= i < tree.len(),
        all_plain(tree[i].0),
        tree[i].0.len() > 0,
        !is_rooted(joined(tree[i].0)),
        entries[i].name == entry_name(beneath(cwd, tree[i].0), cwd),
        entries[i].data == tree[i].1,
    ensures
        entry_actions(entries[i], i, dir, unix_host) == Some(
            comment_steps(entries[i], i) + seq![
                ActionView::CreateDirAll { path: beneath(dir, tree[i].0.drop_last()) },
                ActionView::WriteFile { path: beneath(dir, tree[i].0), data: entries[i].data },
            ] + mode_steps(entries[i], beneath(dir, tree[i].0), unix_host),
        ),
{
    let e = entries[i];
    lemma_round_trip(cwd, tree[i].0, e.data, e.unix_mode, e.comment, i, dir, unix_host);
}

} // verus!
