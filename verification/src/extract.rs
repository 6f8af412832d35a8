//! Planning an extraction: from the entries of a container to the ordered
//! file-system steps that unpack them beneath an output directory.

use vstd::prelude::*;
use crate::error::ZippyError;
use crate::laws::lemma_plan_is_safe;
use crate::laws::parents_first;
use crate::laws::stays_inside;
use crate::path::beneath;
use crate::path::is_dir_name;
use crate::path::names_dir;
use crate::path::parts_of;
use crate::path::place;
use crate::path::resolve;
use crate::path::resolved;
use crate::text::push_bytes;

verus! {

/// One entry as read from a container.
#[derive(Debug, Clone, PartialEq, Eq)]
pub struct Entry {
    /// The name as stored. It is not yet known to be safe.
    pub name: String,
    /// The payload, decompressed.
    pub data: Vec<u8>,
    /// The unix mode, where the entry carries one.
    pub unix_mode: Option<u32>,
    /// The comment; empty where there is none.
    pub comment: String,
}

/// What an [`Entry`] holds.
pub struct EntryView {
    pub name: Seq<char>,
    pub data: Seq<u8>,
    pub unix_mode: Option<u32>,
    pub comment: Seq<char>,
}

impl View for Entry {
    type V = EntryView;

    open spec fn view(&self) -> EntryView {
        EntryView {
            name: self.name@,
            data: self.data@,
            unix_mode: self.unix_mode,
            comment: self.comment@,
        }
    }
}

/// One step of an extraction, for the caller to perform.
#[derive(Debug, Clone, PartialEq, Eq)]
pub enum Action {
    /// Create the output directory itself; its parent must exist.
    CreateDir { path: String },
    /// Show the comment of the entry with the given index.
    ShowComment { index: usize, comment: String },
    /// Create a directory and every missing ancestor of it.
    CreateDirAll { path: String },
    /// Create or truncate a file and write the bytes to it.
    WriteFile { path: String, data: Vec<u8> },
    /// Set the unix mode of what was just created.
    SetPermissions { path: String, mode: u32 },
}

/// What an [`Action`] holds.
pub enum ActionView {
    CreateDir { path: Seq<char> },
    ShowComment { index: int, comment: Seq<char> },
    CreateDirAll { path: Seq<char> },
    WriteFile { path: Seq<char>, data: Seq<u8> },
    SetPermissions { path: Seq<char>, mode: u32 },
}

impl View for Action {
    type V = ActionView;

    open spec fn view(&self) -> ActionView {
        match *self {
            Action::CreateDir { path } => ActionView::CreateDir { path: path@ },
            Action::ShowComment { index, comment } => ActionView::ShowComment {
                index: index as int,
                comment: comment@,
            },
            Action::CreateDirAll { path } => ActionView::CreateDirAll { path: path@ },
            Action::WriteFile { path, data } => ActionView::WriteFile { path: path@, data: data@ },
            Action::SetPermissions { path, mode } => ActionView::SetPermissions {
                path: path@,
                mode,
            },
        }
    }
}

/// The views of a sequence of actions.
pub open spec fn views(actions: Seq<Action>) -> Seq<ActionView> {
    Seq::new(actions.len(), |i: int| actions[i]@)
}

/// The views of a sequence of entries.
pub open spec fn entry_views(entries: Seq<Entry>) -> Seq<EntryView> {
    Seq::new(entries.len(), |i: int| entries[i]@)
}

/// The step that shows an entry's comment, if it has one.
pub open spec fn comment_steps(e: EntryView, index: int) -> Seq<ActionView> {
    if e.comment.len() > 0 {
        seq![ActionView::ShowComment { index, comment: e.comment }]
    } else {
        Seq::empty()
    }
}

/// The step that restores an entry's mode, if it carries one and the host
/// knows unix modes.
pub open spec fn mode_steps(e: EntryView, path: Seq<char>, unix_host: bool) -> Seq<ActionView> {
    match e.unix_mode {
        Some(mode) => if unix_host {
            seq![ActionView::SetPermissions { path, mode }]
        } else {
            Seq::empty()
        },
        None => Seq::empty(),
    }
}

/// The steps that unpack one entry beneath `dir`, or `None` for an entry
/// that is refused: one whose name does not resolve, or a file entry whose
/// name leads nowhere.
///
/// A directory entry creates its directory with all ancestors. A file entry
/// first creates the directory it lies in, with all ancestors, then writes
/// the file. The comment comes first, the mode last.
pub open spec fn entry_actions(e: EntryView, index: int, dir: Seq<char>, unix_host: bool) -> Option<
    Seq<ActionView>,
> {
    match resolved(e.name) {
        None => None,
        Some(parts) => {
            let path = beneath(dir, parts);
            if is_dir_name(e.name) {
                Some(
                    comment_steps(e, index) + seq![ActionView::CreateDirAll { path }] + mode_steps(
                        e,
                        path,
                        unix_host,
                    ),
                )
            } else if parts.len() == 0 {
                None
            } else {
                Some(
                    comment_steps(e, index) + seq![
                        ActionView::CreateDirAll { path: beneath(dir, parts.drop_last()) },
                        ActionView::WriteFile { path, data: e.data },
                    ] + mode_steps(e, path, unix_host),
                )
            }
        },
    }
}

/// The steps of all entries, in stored order; `None` if one is refused.
pub open spec fn entries_actions(entries: Seq<EntryView>, dir: Seq<char>, unix_host: bool) -> Option<
    Seq<ActionView>,
>
    decreases entries.len(),
{
    if entries.len() == 0 {
        Some(Seq::empty())
    } else {
        match entries_actions(entries.drop_last(), dir, unix_host) {
            None => None,
            Some(before) => match entry_actions(
                entries.last(),
                entries.len() - 1,
                dir,
                unix_host,
            ) {
                None => None,
                Some(steps) => Some(before + steps),
            },
        }
    }
}

/// The step that comes before all entries: the output directory is created
/// unless it exists.
pub open spec fn head_steps(dir: Seq<char>, dir_exists: bool) -> Seq<ActionView> {
    if dir_exists {
        Seq::empty()
    } else {
        seq![ActionView::CreateDir { path: dir }]
    }
}

/// The whole plan: the output directory is created first unless it exists,
/// then come the steps of the entries. `None` if an entry is refused.
pub open spec fn extraction_plan(
    entries: Seq<EntryView>,
    dir: Seq<char>,
    dir_exists: bool,
    unix_host: bool,
) -> Option<Seq<ActionView>> {
    match entries_actions(entries, dir, unix_host) {
        None => None,
        Some(steps) => Some(head_steps(dir, dir_exists) + steps),
    }
}

/// `k` is the first entry that is refused.
pub open spec fn first_refused(entries: Seq<EntryView>, k: int, dir: Seq<char>, unix_host: bool) -> bool {
    &&& 0 <= k < entries.len()
    &&& entry_actions(entries[k], k, dir, unix_host) is None
    &&& forall|j: int| 0 <= j < k ==> entry_actions(#[trigger] entries[j], j, dir, unix_host) is Some
}

/// Plans the unpacking of one entry beneath `dir`.
pub fn plan_entry(entry: &Entry, index: usize, dir: &str, unix_host: bool) -> (r: Result<
    Vec<Action>,
    ZippyError,
>)
    ensures
        match r {
            Ok(actions) => entry_actions(entry@, index as int, dir@, unix_host) == Some(
                views(actions@),
            ),
            Err(ZippyError::UnsafeEntryName(name)) => {
                &&& entry_actions(entry@, index as int, dir@, unix_host) is None
                &&& name@ == entry.name@
            },
            Err(_) => false,
        },
{
    let parts = match resolve(entry.name.as_str()) {
        Some(parts) => parts,
        None => {
            return Err(ZippyError::UnsafeEntryName(entry.name.clone()));
        },
    };
    let ghost all = parts_of(parts@);
    assert(all.take(all.len() as int) =~= all);
    let is_dir = names_dir(entry.name.as_str());
    if !is_dir && parts.len() == 0 {
        return Err(ZippyError::UnsafeEntryName(entry.name.clone()));
    }
    let mut actions: Vec<Action> = Vec::new();
    if entry.comment.as_str().unicode_len() > 0 {
        actions.push(Action::ShowComment { index, comment: entry.comment.clone() });
    }
    assert(views(actions@) =~= comment_steps(entry@, index as int));
    let path = place(dir, &parts, parts.len());
    if is_dir {
        actions.push(Action::CreateDirAll { path: path.clone() });
        assert(views(actions@) =~= comment_steps(entry@, index as int) + seq![
            ActionView::CreateDirAll { path: path@ },
        ]);
    } else {
        let parent = place(dir, &parts, parts.len() - 1);
        assert(all.take(all.len() - 1) =~= all.drop_last());
        actions.push(Action::CreateDirAll { path: parent });
        let mut data: Vec<u8> = Vec::new();
        push_bytes(&mut data, &entry.data);
        assert(data@ =~= entry.data@);
        actions.push(Action::WriteFile { path: path.clone(), data });
        assert(views(actions@) =~= comment_steps(entry@, index as int) + seq![
            ActionView::CreateDirAll { path: beneath(dir@, all.drop_last()) },
            ActionView::WriteFile { path: path@, data: entry.data@ },
        ]);
    }
    let ghost before = views(actions@);
    match entry.unix_mode {
        Some(mode) => {
            if unix_host {
                actions.push(Action::SetPermissions { path, mode });
            }
        },
        None => {},
    }
    assert(views(actions@) =~= before + mode_steps(entry@, path@, unix_host));
    Ok(actions)
}

/// Plans the unpacking of the entries, in order, beneath `dir`, up to the
/// first entry that is refused.
///
/// The steps come back in either case. When no entry is refused they are
/// the whole plan, and the result is the number of entries. Otherwise they
/// are the plan of the entries before the first one that is refused, and the
/// error names that entry. No step touches anything outside `dir`, and a
/// file is written only directly after the directory it lies in has been
/// created.
pub fn plan_entries(entries: &Vec<Entry>, dir: &str, dir_exists: bool, unix_host: bool) -> (r: (
    Vec<Action>,
    Result<usize, ZippyError>,
))
    ensures
        stays_inside(views(r.0@), dir@),
        parents_first(views(r.0@), dir@),
        r.1 is Ok <==> extraction_plan(entry_views(entries@), dir@, dir_exists, unix_host) is Some,
        match r.1 {
            Ok(count) => {
                &&& count == entries@.len()
                &&& extraction_plan(entry_views(entries@), dir@, dir_exists, unix_host) == Some(
                    views(r.0@),
                )
            },
            Err(ZippyError::UnsafeEntryName(name)) => exists|k: int|
                {
                    &&& first_refused(entry_views(entries@), k, dir@, unix_host)
                    &&& name@ == #[trigger] entries@[k].name@
                    &&& extraction_plan(
                        entry_views(entries@).take(k),
                        dir@,
                        dir_exists,
                        unix_host,
                    ) == Some(views(r.0@))
                },
            Err(_) => false,
        },
{
    let ghost all = entry_views(entries@);
    let mut plan: Vec<Action> = Vec::new();
    if !dir_exists {
        plan.push(Action::CreateDir { path: String::from_str(dir) });
    }
    let ghost head = views(plan@);
    assert(head =~= head_steps(dir@, dir_exists));
    let mut i: usize = 0;
    assert(all.take(0) =~= Seq::<EntryView>::empty());
    assert(head + Seq::<ActionView>::empty() =~= head);
    while i < entries.len()
        invariant
            i <= entries@.len(),
            all == entry_views(entries@),
            head == head_steps(dir@, dir_exists),
            entries_actions(all.take(i as int), dir@, unix_host) is Some,
            views(plan@) == head + entries_actions(all.take(i as int), dir@, unix_host).unwrap(),
            forall|j: int| 0 <= j < i ==> entry_actions(#[trigger] all[j], j, dir@, unix_host) is Some,
        decreases entries@.len() - i,
    {
        assert(all.take(i as int + 1).drop_last() =~= all.take(i as int));
        assert(all.take(i as int + 1).last() == entries@[i as int]@);
        let ghost before = views(plan@);
        match plan_entry(&entries[i], i, dir, unix_host) {
            Ok(mut steps) => {
                let ghost added = views(steps@);
                plan.append(&mut steps);
                assert(views(plan@) =~= before + added);
                assert(before + added =~= head + (entries_actions(
                    all.take(i as int),
                    dir@,
                    unix_host,
                ).unwrap() + added));
            },
            Err(e) => {
                proof {
                    assert(entries_actions(all.take(i as int + 1), dir@, unix_host) is None);
                    lemma_refused_stays(all, i as int + 1, dir@, unix_host);
                    assert(first_refused(all, i as int, dir@, unix_host));
                    lemma_plan_is_safe(all.take(i as int), dir@, dir_exists, unix_host);
                }
                return (plan, Err(e));
            },
        }
        i += 1;
    }
    assert(all.take(all.len() as int) =~= all);
    proof {
        lemma_plan_is_safe(all, dir@, dir_exists, unix_host);
    }
    (plan, Ok(entries.len()))
}

/// Once the entries up to `n` hold one that is refused, so do all entries.
pub proof fn lemma_refused_stays(entries: Seq<EntryView>, n: int, dir: Seq<char>, unix_host: bool)
    requires
        0 <= n <= entries.len(),
        entries_actions(entries.take(n), dir, unix_host) is None,
    ensures
        entries_actions(entries, dir, unix_host) is None,
    decreases entries.len() - n,
{
    if n < entries.len() {
        assert(entries.take(n + 1).drop_last() =~= entries.take(n));
        lemma_refused_stays(entries, n + 1, dir, unix_host);
    } else {
        assert(entries.take(n) =~= entries);
    }
}

} // verus!
