//! What a plan leaves on disk, and why entries for directories are not
//! needed for it.

use vstd::prelude::*;
use crate::extract::comment_steps;
use crate::extract::entries_actions;
use crate::extract::entry_actions;
use crate::extract::extraction_plan;
use crate::extract::head_steps;
use crate::extract::mode_steps;
use crate::extract::ActionView;
use crate::extract::EntryView;
use crate::laws::lemma_each_accepted;
use crate::path::beneath;
use crate::path::is_dir_name;
use crate::path::joined;
use crate::path::resolved;
use crate::path::stem;

verus! {

/// `p` is `path` itself or a directory above it.
pub open spec fn is_at_or_above(p: Seq<char>, path: Seq<char>) -> bool {
    p == path || (p.len() < path.len() && p.is_prefix_of(path) && (p.len() == 0
        || path[p.len() as int] == '/' || p.last() == '/'))
}

/// The step makes sure that the directory `p` exists: it creates `p`, or it
/// creates a directory below `p` together with all its ancestors.
pub open spec fn dir_made_by(step: ActionView, p: Seq<char>) -> bool {
    match step {
        ActionView::CreateDir { path } => p == path,
        ActionView::CreateDirAll { path } => is_at_or_above(p, path),
        _ => false,
    }
}

/// One of the steps makes sure that the directory `p` exists.
pub open spec fn makes_dir(steps: Seq<ActionView>, p: Seq<char>) -> bool {
    exists|j: int| 0 <= j < steps.len() && dir_made_by(#[trigger] steps[j], p)
}

/// The files that the steps write, in order, each with its bytes.
pub open spec fn writes_of(steps: Seq<ActionView>) -> Seq<(Seq<char>, Seq<u8>)>
    decreases steps.len(),
{
    if steps.len() == 0 {
        Seq::empty()
    } else {
        match steps.last() {
            ActionView::WriteFile { path, data } => writes_of(steps.drop_last()).push((path, data)),
            _ => writes_of(steps.drop_last()),
        }
    }
}

/// The entry is not refused, whatever its place in the container.
pub open spec fn is_accepted(e: EntryView) -> bool {
    resolved(e.name) is Some && (is_dir_name(e.name) || resolved(e.name).unwrap().len() > 0)
}

/// The directory that unpacking the entry creates, as components beneath
/// the output directory: the entry's own place for a directory, the place
/// it lies in for a file.
pub open spec fn entry_target(e: EntryView) -> Seq<Seq<char>> {
    if is_dir_name(e.name) {
        resolved(e.name).unwrap()
    } else {
        resolved(e.name).unwrap().drop_last()
    }
}

/// The file that unpacking the entry writes, if it is a file.
pub open spec fn entry_writes(e: EntryView, dir: Seq<char>) -> Seq<(Seq<char>, Seq<u8>)> {
    if is_dir_name(e.name) {
        Seq::empty()
    } else {
        seq![(beneath(dir, resolved(e.name).unwrap()), e.data)]
    }
}

/// The files that unpacking the entries writes, in order.
pub open spec fn all_writes(entries: Seq<EntryView>, dir: Seq<char>) -> Seq<(Seq<char>, Seq<u8>)>
    decreases entries.len(),
{
    if entries.len() == 0 {
        Seq::empty()
    } else {
        all_writes(entries.drop_last(), dir) + entry_writes(entries.last(), dir)
    }
}

/// Unpacking one of the entries makes sure that the directory `p` exists.
pub open spec fn some_entry_makes(entries: Seq<EntryView>, dir: Seq<char>, p: Seq<char>) -> bool {
    exists|i: int|
        0 <= i < entries.len() && is_at_or_above(
            p,
            beneath(dir, entry_target(#[trigger] entries[i])),
        )
}

/// The entries that are files, in order.
pub open spec fn file_entries(entries: Seq<EntryView>) -> Seq<EntryView>
    decreases entries.len(),
{
    if entries.len() == 0 {
        Seq::empty()
    } else if is_dir_name(entries.last().name) {
        file_entries(entries.drop_last())
    } else {
        file_entries(entries.drop_last()).push(entries.last())
    }
}

/// Entry `i` is a directory that lies above one of the files.
pub open spec fn is_covered(entries: Seq<EntryView>, i: int) -> bool {
    exists|f: int|
        0 <= f < entries.len() && !is_dir_name((#[trigger] entries[f]).name) && is_accepted(
            entries[f],
        ) && is_accepted(entries[i]) && entry_target(entries[i]).len() <= entry_target(
            entries[f],
        ).len() && entry_target(entries[f]).take(entry_target(entries[i]).len() as int)
            == entry_target(entries[i])
}

/// Being at or above is transitive.
pub proof fn lemma_above_trans(p: Seq<char>, q: Seq<char>, r: Seq<char>)
    requires
        is_at_or_above(p, q),
        is_at_or_above(q, r),
    ensures
        is_at_or_above(p, r),
{
    if p != q && q != r {
        assert(p =~= r.subrange(0, p.len() as int)) by {
            assert(p =~= q.subrange(0, p.len() as int));
            assert(q =~= r.subrange(0, q.len() as int));
        }
        if p.len() > 0 && p.last() != '/' {
            assert(q[p.len() as int] == '/');
            assert(q =~= r.subrange(0, q.len() as int));
            assert(r.subrange(0, q.len() as int)[p.len() as int] == r[p.len() as int]);
        }
    }
}

/// The place of the first `m` components is at or above the place of all.
pub proof fn lemma_front_is_above(dir: Seq<char>, parts: Seq<Seq<char>>, m: int)
    requires
        0 <= m <= parts.len(),
    ensures
        is_at_or_above(beneath(dir, parts.take(m)), beneath(dir, parts)),
    decreases parts.len(),
{
    if m == parts.len() {
        assert(parts.take(m) =~= parts);
    } else {
        let front = parts.drop_last();
        assert(front.take(m) =~= parts.take(m));
        lemma_front_is_above(dir, front, m);
        let a = beneath(dir, front);
        let b = beneath(dir, parts);
        assert(is_at_or_above(a, b)) by {
            if front.len() == 0 {
                assert(joined(parts) == parts[0]);
                assert(a == dir);
                assert(b == stem(dir) + parts[0]);
                if a != b {
                    assert(a =~= b.subrange(0, a.len() as int));
                }
            } else {
                assert(joined(parts) == joined(front) + seq!['/'] + parts.last());
                assert(a =~= b.subrange(0, a.len() as int));
                assert(b[a.len() as int] == '/');
            }
        }
        lemma_above_trans(beneath(dir, parts.take(m)), a, b);
    }
}

/// The writes of steps put one after the other.
pub proof fn lemma_writes_concat(a: Seq<ActionView>, b: Seq<ActionView>)
    ensures
        writes_of(a + b) == writes_of(a) + writes_of(b),
    decreases b.len(),
{
    if b.len() == 0 {
        assert(a + b =~= a);
        assert(writes_of(a) + writes_of(b) =~= writes_of(a));
    } else {
        lemma_writes_concat(a, b.drop_last());
        assert((a + b).drop_last() =~= a + b.drop_last());
        assert((a + b).last() == b.last());
        match b.last() {
            ActionView::WriteFile { path, data } => {
                assert(writes_of(a + b) =~= writes_of(a) + writes_of(b));
            },
            _ => {},
        }
    }
}

/// The directories of steps put one after the other.
pub proof fn lemma_dirs_concat(a: Seq<ActionView>, b: Seq<ActionView>, p: Seq<char>)
    ensures
        makes_dir(a + b, p) <==> makes_dir(a, p) || makes_dir(b, p),
{
    let all = a + b;
    if makes_dir(a, p) {
        let j = choose|j: int| 0 <= j < a.len() && dir_made_by(#[trigger] a[j], p);
        assert(all[j] == a[j]);
    }
    if makes_dir(b, p) {
        let j = choose|j: int| 0 <= j < b.len() && dir_made_by(#[trigger] b[j], p);
        assert(all[a.len() + j] == b[j]);
    }
    if makes_dir(all, p) {
        let j = choose|j: int| 0 <= j < all.len() && dir_made_by(#[trigger] all[j], p);
        if j < a.len() {
            assert(a[j] == all[j]);
        } else {
            assert(b[j - a.len()] == all[j]);
        }
    }
}

/// What the steps of one entry leave: the entry's file, and the entry's
/// directory with all above it.
pub proof fn lemma_entry_leaves(e: EntryView, index: int, dir: Seq<char>, unix_host: bool, p: Seq<char>)
    requires
        is_accepted(e),
    ensures
        entry_actions(e, index, dir, unix_host) is Some,
        writes_of(entry_actions(e, index, dir, unix_host).unwrap()) == entry_writes(e, dir),
        makes_dir(entry_actions(e, index, dir, unix_host).unwrap(), p) <==> is_at_or_above(
            p,
            beneath(dir, entry_target(e)),
        ),
{
    let steps = entry_actions(e, index, dir, unix_host).unwrap();
    let parts = resolved(e.name).unwrap();
    let path = beneath(dir, parts);
    let notes = comment_steps(e, index);
    let modes = mode_steps(e, path, unix_host);
    let made = ActionView::CreateDirAll { path: beneath(dir, entry_target(e)) };
    let core = if is_dir_name(e.name) {
        seq![made]
    } else {
        seq![made, ActionView::WriteFile { path, data: e.data }]
    };
    assert(steps == notes + core + modes);
    lemma_writes_concat(notes + core, modes);
    lemma_writes_concat(notes, core);
    assert(writes_of(notes) =~= Seq::empty()) by {
        reveal_with_fuel(writes_of, 2);
    }
    assert(writes_of(modes) =~= Seq::empty()) by {
        reveal_with_fuel(writes_of, 2);
    }
    assert(writes_of(core) =~= entry_writes(e, dir)) by {
        reveal_with_fuel(writes_of, 3);
        if !is_dir_name(e.name) {
            assert(core.drop_last() =~= seq![made]);
        }
    }
    assert(writes_of(steps) =~= entry_writes(e, dir));
    lemma_dirs_concat(notes + core, modes, p);
    lemma_dirs_concat(notes, core, p);
    assert(!makes_dir(notes, p));
    assert(!makes_dir(modes, p));
    if is_at_or_above(p, beneath(dir, entry_target(e))) {
        assert(dir_made_by(core[0], p));
    }
}

/// What the steps of entries write, when none of them is refused.
pub proof fn lemma_entries_write(entries: Seq<EntryView>, dir: Seq<char>, unix_host: bool)
    requires
        forall|i: int| 0 <= i < entries.len() ==> is_accepted(#[trigger] entries[i]),
    ensures
        entries_actions(entries, dir, unix_host) is Some,
        writes_of(entries_actions(entries, dir, unix_host).unwrap()) == all_writes(entries, dir),
    decreases entries.len(),
{
    if entries.len() > 0 {
        let front = entries.drop_last();
        let n = entries.len() - 1;
        assert forall|i: int| 0 <= i < front.len() implies is_accepted(#[trigger] front[i]) by {
            assert(front[i] == entries[i]);
        }
        lemma_entries_write(front, dir, unix_host);
        assert(is_accepted(entries[n]));
        lemma_entry_leaves(entries.last(), n, dir, unix_host, Seq::empty());
        lemma_writes_concat(
            entries_actions(front, dir, unix_host).unwrap(),
            entry_actions(entries.last(), n, dir, unix_host).unwrap(),
        );
    } else {
        assert(writes_of(Seq::<ActionView>::empty()) =~= Seq::empty());
    }
}

/// Which directories the steps of entries make, when none of them is
/// refused.
pub proof fn lemma_entries_make(entries: Seq<EntryView>, dir: Seq<char>, unix_host: bool, p: Seq<char>)
    requires
        forall|i: int| 0 <= i < entries.len() ==> is_accepted(#[trigger] entries[i]),
    ensures
        entries_actions(entries, dir, unix_host) is Some,
        makes_dir(entries_actions(entries, dir, unix_host).unwrap(), p) <==> some_entry_makes(
            entries,
            dir,
            p,
        ),
    decreases entries.len(),
{
    if entries.len() > 0 {
        let front = entries.drop_last();
        let n = entries.len() - 1;
        assert forall|i: int| 0 <= i < front.len() implies is_accepted(#[trigger] front[i]) by {
            assert(front[i] == entries[i]);
        }
        lemma_entries_make(front, dir, unix_host, p);
        assert(is_accepted(entries[n]));
        lemma_entry_leaves(entries.last(), n, dir, unix_host, p);
        lemma_dirs_concat(
            entries_actions(front, dir, unix_host).unwrap(),
            entry_actions(entries.last(), n, dir, unix_host).unwrap(),
            p,
        );
        if some_entry_makes(front, dir, p) {
            let i = choose|i: int|
                0 <= i < front.len() && is_at_or_above(
                    p,
                    beneath(dir, entry_target(#[trigger] front[i])),
                );
            assert(front[i] == entries[i]);
        }
        if is_at_or_above(p, beneath(dir, entry_target(entries.last()))) {
            assert(entries[n] == entries.last());
        }
        if some_entry_makes(entries, dir, p) {
            let i = choose|i: int|
                0 <= i < entries.len() && is_at_or_above(
                    p,
                    beneath(dir, entry_target(#[trigger] entries[i])),
                );
            if i < n {
                assert(front[i] == entries[i]);
            }
        }
    }
}

/// An entry among the files is a file among the entries.
pub proof fn lemma_kept_is_file(entries: Seq<EntryView>, k: int) -> (i: int)
    requires
        0 <= k < file_entries(entries).len(),
    ensures
        0 <= i < entries.len(),
        entries[i] == file_entries(entries)[k],
        !is_dir_name(entries[i].name),
    decreases entries.len(),
{
    let front = entries.drop_last();
    if !is_dir_name(entries.last().name) && k == file_entries(front).len() {
        entries.len() - 1
    } else {
        let i = lemma_kept_is_file(front, k);
        assert(front[i] == entries[i]);
        i
    }
}

/// A file among the entries is among the files.
pub proof fn lemma_file_is_kept(entries: Seq<EntryView>, i: int) -> (k: int)
    requires
        0 <= i < entries.len(),
        !is_dir_name(entries[i].name),
    ensures
        0 <= k < file_entries(entries).len(),
        file_entries(entries)[k] == entries[i],
    decreases entries.len(),
{
    let front = entries.drop_last();
    if i == entries.len() - 1 {
        file_entries(front).len() as int
    } else {
        assert(front[i] == entries[i]);
        lemma_file_is_kept(front, i)
    }
}

/// The files write what all entries write.
pub proof fn lemma_files_write_all(entries: Seq<EntryView>, dir: Seq<char>)
    ensures
        all_writes(file_entries(entries), dir) == all_writes(entries, dir),
    decreases entries.len(),
{
    if entries.len() > 0 {
        let front = entries.drop_last();
        lemma_files_write_all(front, dir);
        if is_dir_name(entries.last().name) {
            assert(all_writes(front, dir) + entry_writes(entries.last(), dir) =~= all_writes(
                front,
                dir,
            ));
        } else {
            assert(file_entries(entries).drop_last() =~= file_entries(front));
        }
    }
}

/// The files make every directory that all entries make, where each
/// directory among the entries lies above one of the files.
pub proof fn lemma_files_make_all(entries: Seq<EntryView>, dir: Seq<char>, p: Seq<char>)
    requires
        forall|i: int|
            0 <= i < entries.len() && is_dir_name((#[trigger] entries[i]).name) ==> is_covered(
                entries,
                i,
            ),
    ensures
        some_entry_makes(file_entries(entries), dir, p) <==> some_entry_makes(entries, dir, p),
{
    let files = file_entries(entries);
    if some_entry_makes(files, dir, p) {
        let k = choose|k: int|
            0 <= k < files.len() && is_at_or_above(
                p,
                beneath(dir, entry_target(#[trigger] files[k])),
            );
        let i = lemma_kept_is_file(entries, k);
        assert(is_at_or_above(p, beneath(dir, entry_target(entries[i]))));
    }
    if some_entry_makes(entries, dir, p) {
        let i = choose|i: int|
            0 <= i < entries.len() && is_at_or_above(
                p,
                beneath(dir, entry_target(#[trigger] entries[i])),
            );
        let f = if is_dir_name(entries[i].name) {
            assert(is_covered(entries, i));
            let f = choose|f: int|
                0 <= f < entries.len() && !is_dir_name((#[trigger] entries[f]).name)
                    && is_accepted(entries[f]) && is_accepted(entries[i]) && entry_target(
                    entries[i],
                ).len() <= entry_target(entries[f]).len() && entry_target(entries[f]).take(
                    entry_target(entries[i]).len() as int,
                ) == entry_target(entries[i]);
            lemma_front_is_above(
                dir,
                entry_target(entries[f]),
                entry_target(entries[i]).len() as int,
            );
            lemma_above_trans(
                p,
                beneath(dir, entry_target(entries[i])),
                beneath(dir, entry_target(entries[f])),
            );
            f
        } else {
            i
        };
        let k = lemma_file_is_kept(entries, f);
        assert(is_at_or_above(p, beneath(dir, entry_target(files[k]))));
    }
}

/// Entries for directories are not needed.
///
/// Take a container none of whose entries is refused, in which every entry
/// for a directory names a directory that one of the file entries lies in
/// or beneath. Leave the entries for directories out. Then the plan of what
/// is left exists too; it writes the same files with the same bytes in the
/// same order; and it makes sure of the existence of exactly the same
/// directories.
pub proof fn lemma_directories_are_not_needed(
    entries: Seq<EntryView>,
    dir: Seq<char>,
    dir_exists: bool,
    unix_host: bool,
)
    requires
        extraction_plan(entries, dir, dir_exists, unix_host) is Some,
        forall|i: int|
            0 <= i < entries.len() && is_dir_name((#[trigger] entries[i]).name) ==> is_covered(
                entries,
                i,
            ),
    ensures
        extraction_plan(file_entries(entries), dir, dir_exists, unix_host) is Some,
        writes_of(extraction_plan(file_entries(entries), dir, dir_exists, unix_host).unwrap())
            == writes_of(extraction_plan(entries, dir, dir_exists, unix_host).unwrap()),
        forall|p: Seq<char>|
            makes_dir(
                extraction_plan(file_entries(entries), dir, dir_exists, unix_host).unwrap(),
                p,
            ) <==> #[trigger] makes_dir(
                extraction_plan(entries, dir, dir_exists, unix_host).unwrap(),
                p,
            ),
{
    let files = file_entries(entries);
    let head = head_steps(dir, dir_exists);
    assert forall|i: int| 0 <= i < entries.len() implies is_accepted(#[trigger] entries[i]) by {
        lemma_each_accepted(entries, dir, unix_host, i);
    }
    assert forall|k: int| 0 <= k < files.len() implies is_accepted(#[trigger] files[k]) by {
        let i = lemma_kept_is_file(entries, k);
    }
    lemma_entries_write(entries, dir, unix_host);
    lemma_entries_write(files, dir, unix_host);
    lemma_files_write_all(entries, dir);
    let all = entries_actions(entries, dir, unix_host).unwrap();
    let few = entries_actions(files, dir, unix_host).unwrap();
    lemma_writes_concat(head, all);
    lemma_writes_concat(head, few);
    assert forall|p: Seq<char>|
        makes_dir(head + few, p) <==> #[trigger] makes_dir(head + all, p) by {
        lemma_entries_make(entries, dir, unix_host, p);
        lemma_entries_make(files, dir, unix_host, p);
        lemma_files_make_all(entries, dir, p);
        lemma_dirs_concat(head, all, p);
        lemma_dirs_concat(head, few, p);
    }
}

} // verus!
