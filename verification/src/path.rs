//! Entry names: how a path on disk becomes a name inside the container, and
//! how a name read from a container becomes a place beneath the output
//! directory.

use vstd::prelude::*;
use crate::text::chars_of;
use crate::text::push_chars;
use crate::text::text_from;

verus! {

/// A backslash becomes a forward slash; every other character stays.
pub open spec fn slash(c: char) -> char {
    if c == '\\' {
        '/'
    } else {
        c
    }
}

/// `s` with every backslash turned into a forward slash.
pub open spec fn slashed(s: Seq<char>) -> Seq<char> {
    Seq::new(s.len(), |i: int| slash(s[i]))
}

/// `path` names `dir` itself or something inside it: `dir` is a prefix that
/// ends at a separator.
pub open spec fn lies_under(dir: Seq<char>, path: Seq<char>) -> bool {
    &&& dir.len() > 0
    &&& dir.is_prefix_of(path)
    &&& (path.len() == dir.len() || dir.last() == '/' || path[dir.len() as int] == '/')
}

/// `s` without its leading slashes.
pub open spec fn skip_slashes(s: Seq<char>) -> Seq<char>
    decreases s.len(),
{
    if s.len() > 0 && s[0] == '/' {
        skip_slashes(s.drop_first())
    } else {
        s
    }
}

/// The name under which the file at `path` is stored, given the working
/// directory `cwd`: separators become forward slashes, and a path inside the
/// working directory is made relative to it. Any other path is kept whole.
pub open spec fn entry_name(path: Seq<char>, cwd: Seq<char>) -> Seq<char> {
    let p = slashed(path);
    let c = slashed(cwd);
    if lies_under(c, p) {
        skip_slashes(p.skip(c.len() as int))
    } else {
        p
    }
}

/// The pieces of `s` between its forward slashes. A string without a slash
/// is one piece; `n` slashes give `n + 1` pieces, some of which may be empty.
pub open spec fn components(s: Seq<char>) -> Seq<Seq<char>>
    decreases s.len(),
{
    if s.len() == 0 {
        seq![Seq::<char>::empty()]
    } else {
        let before = components(s.drop_last());
        if s.last() == '/' {
            before.push(Seq::<char>::empty())
        } else {
            before.drop_last().push(before.last().push(s.last()))
        }
    }
}

/// The component `.`.
pub open spec fn is_dot(part: Seq<char>) -> bool {
    part.len() == 1 && part[0] == '.'
}

/// The component `..`.
pub open spec fn is_dot_dot(part: Seq<char>) -> bool {
    part.len() == 2 && part[0] == '.' && part[1] == '.'
}

/// One step of following a relative path: empty components and `.` stay in
/// place, `..` leaves the last directory entered, and any other component
/// enters it. `None` when `..` would leave the starting directory.
pub open spec fn step(stack: Seq<Seq<char>>, part: Seq<char>) -> Option<Seq<Seq<char>>> {
    if part.len() == 0 || is_dot(part) {
        Some(stack)
    } else if is_dot_dot(part) {
        if stack.len() == 0 {
            None
        } else {
            Some(stack.drop_last())
        }
    } else {
        Some(stack.push(part))
    }
}

/// Follows `parts` from left to right, starting with nothing entered.
pub open spec fn follow(parts: Seq<Seq<char>>) -> Option<Seq<Seq<char>>>
    decreases parts.len(),
{
    if parts.len() == 0 {
        Some(Seq::<Seq<char>>::empty())
    } else {
        match follow(parts.drop_last()) {
            None => None,
            Some(stack) => step(stack, parts.last()),
        }
    }
}

/// An ASCII letter.
pub open spec fn is_letter(c: char) -> bool {
    ('a' <= c && c <= 'z') || ('A' <= c && c <= 'Z')
}

/// The name starts at a root: with a separator, or with a drive letter and a
/// colon.
pub open spec fn is_rooted(name: Seq<char>) -> bool {
    ||| (name.len() > 0 && name[0] == '/')
    ||| (name.len() >= 2 && is_letter(name[0]) && name[1] == ':')
}

/// The directories and the final component that the entry name leads
/// through, or `None` for a name that must not be unpacked: one that holds a
/// NUL character, starts at a root, or climbs above where it started.
pub open spec fn resolved(name: Seq<char>) -> Option<Seq<Seq<char>>> {
    let n = slashed(name);
    if n.contains('\0') || is_rooted(n) {
        None
    } else {
        follow(components(n))
    }
}

/// The name stands for a directory: it ends with a separator.
pub open spec fn is_dir_name(name: Seq<char>) -> bool {
    name.len() > 0 && slash(name.last()) == '/'
}

/// `parts` written as one relative path, with a forward slash between them.
pub open spec fn joined(parts: Seq<Seq<char>>) -> Seq<char>
    decreases parts.len(),
{
    if parts.len() == 0 {
        Seq::<char>::empty()
    } else if parts.len() == 1 {
        parts[0]
    } else {
        joined(parts.drop_last()) + seq!['/'] + parts.last()
    }
}

/// `dir`, ready to have a relative path put behind it.
pub open spec fn stem(dir: Seq<char>) -> Seq<char> {
    if dir.len() == 0 || dir.last() == '/' {
        dir
    } else {
        dir.push('/')
    }
}

/// The path of `parts` beneath `dir`; `dir` itself when there are none.
pub open spec fn beneath(dir: Seq<char>, parts: Seq<Seq<char>>) -> Seq<char> {
    if parts.len() == 0 {
        dir
    } else {
        stem(dir) + joined(parts)
    }
}

/// What a vector of character vectors holds, as sequences.
pub open spec fn parts_of(v: Seq<Vec<char>>) -> Seq<Seq<char>> {
    Seq::new(v.len(), |i: int| v[i]@)
}

/// The characters of `s`, with backslashes turned into forward slashes.
pub fn slashed_chars(s: &str) -> (r: Vec<char>)
    ensures
        r@ == slashed(s@),
{
    let mut out: Vec<char> = Vec::new();
    for c in it: s.chars()
        invariant
            it.seq() == s@,
            out@.len() == it.index(),
            forall|i: int| 0 <= i < it.index() ==> out@[i] == slash(s@[i]),
    {
        if c == '\\' {
            out.push('/');
        } else {
            out.push(c);
        }
    }
    assert(out@ =~= slashed(s@));
    out
}

/// Whether `path` names `dir` or something inside it.
pub fn is_under(dir: &Vec<char>, path: &Vec<char>) -> (r: bool)
    ensures
        r == lies_under(dir@, path@),
{
    if dir.len() == 0 || dir.len() > path.len() {
        return false;
    }
    let mut i: usize = 0;
    while i < dir.len()
        invariant
            i <= dir@.len() <= path@.len(),
            forall|k: int| 0 <= k < i ==> dir@[k] == path@[k],
        decreases dir@.len() - i,
    {
        if dir[i] != path[i] {
            assert(dir@ != path@.subrange(0, dir@.len() as int)) by {
                assert(path@.subrange(0, dir@.len() as int)[i as int] == path@[i as int]);
            }
            return false;
        }
        i += 1;
    }
    assert(dir@ =~= path@.subrange(0, dir@.len() as int));
    path.len() == dir.len() || dir[dir.len() - 1] == '/' || path[dir.len()] == '/'
}

/// The name under which the file at `path` is stored when the working
/// directory is `cwd`.
pub fn normalize(path: &str, cwd: &str) -> (r: String)
    ensures
        r@ == entry_name(path@, cwd@),
{
    let p = slashed_chars(path);
    let c = slashed_chars(cwd);
    let mut start: usize = 0;
    if is_under(&c, &p) {
        start = c.len();
        while start < p.len() && p[start] == '/'
            invariant
                c@.len() <= start <= p@.len(),
                skip_slashes(p@.skip(c@.len() as int)) == skip_slashes(p@.skip(start as int)),
            decreases p@.len() - start,
        {
            assert(p@.skip(start as int).drop_first() =~= p@.skip(start as int + 1));
            start += 1;
        }
    } else {
        assert(p@.skip(0) =~= p@);
    }
    text_from(&p, start)
}

/// Splits `s` at its forward slashes.
pub fn split(s: &Vec<char>) -> (r: Vec<Vec<char>>)
    ensures
        parts_of(r@) == components(s@),
{
    let mut done: Vec<Vec<char>> = Vec::new();
    let mut cur: Vec<char> = Vec::new();
    let mut i: usize = 0;
    assert(s@.take(0) =~= Seq::<char>::empty());
    assert(parts_of(done@).push(cur@) =~= seq![Seq::<char>::empty()]);
    while i < s.len()
        invariant
            i <= s@.len(),
            components(s@.take(i as int)) == parts_of(done@).push(cur@),
        decreases s@.len() - i,
    {
        let ghost before = parts_of(done@).push(cur@);
        let ghost old_done = done@;
        let ghost old_cur = cur@;
        assert(s@.take(i as int + 1).drop_last() =~= s@.take(i as int));
        assert(s@.take(i as int + 1).last() == s@[i as int]);
        if s[i] == '/' {
            done.push(cur);
            cur = Vec::new();
            assert(parts_of(done@) =~= before);
        } else {
            cur.push(s[i]);
            assert(before.drop_last() =~= parts_of(old_done));
            assert(parts_of(done@).push(cur@) =~= before.drop_last().push(
                before.last().push(s@[i as int]),
            ));
        }
        i += 1;
    }
    assert(s@.take(s@.len() as int) =~= s@);
    let ghost all = parts_of(done@).push(cur@);
    done.push(cur);
    assert(parts_of(done@) =~= all);
    done
}

/// Whether `part` is the component `.`.
pub fn part_is_dot(part: &Vec<char>) -> (r: bool)
    ensures
        r == is_dot(part@),
{
    part.len() == 1 && part[0] == '.'
}

/// Whether `part` is the component `..`.
pub fn part_is_dot_dot(part: &Vec<char>) -> (r: bool)
    ensures
        r == is_dot_dot(part@),
{
    part.len() == 2 && part[0] == '.' && part[1] == '.'
}

/// Whether the characters hold `c`.
pub fn holds(s: &Vec<char>, c: char) -> (r: bool)
    ensures
        r == s@.contains(c),
{
    let mut i: usize = 0;
    while i < s.len()
        invariant
            i <= s@.len(),
            forall|k: int| 0 <= k < i ==> s@[k] != c,
        decreases s@.len() - i,
    {
        if s[i] == c {
            return true;
        }
        i += 1;
    }
    false
}

/// Whether the characters start at a root.
pub fn starts_at_root(s: &Vec<char>) -> (r: bool)
    ensures
        r == is_rooted(s@),
{
    if s.len() > 0 && s[0] == '/' {
        return true;
    }
    if s.len() >= 2 && s[1] == ':' {
        let c = s[0];
        return ('a' <= c && c <= 'z') || ('A' <= c && c <= 'Z');
    }
    false
}

/// Resolves an entry name to the components it leads through, or refuses it.
pub fn resolve(name: &str) -> (r: Option<Vec<Vec<char>>>)
    ensures
        match r {
            Some(parts) => resolved(name@) == Some(parts_of(parts@)),
            None => resolved(name@) is None,
        },
{
    let n = slashed_chars(name);
    if holds(&n, '\0') || starts_at_root(&n) {
        return None;
    }
    let parts = split(&n);
    let mut stack: Vec<Vec<char>> = Vec::new();
    let mut i: usize = 0;
    assert(parts_of(parts@).take(0) =~= Seq::<Seq<char>>::empty());
    assert(parts_of(stack@) =~= Seq::<Seq<char>>::empty());
    while i < parts.len()
        invariant
            i <= parts@.len(),
            resolved(name@) == follow(parts_of(parts@)),
            follow(parts_of(parts@).take(i as int)) == Some(parts_of(stack@)),
        decreases parts@.len() - i,
    {
        let ghost all = parts_of(parts@);
        let ghost old_stack = parts_of(stack@);
        assert(all.take(i as int + 1).drop_last() =~= all.take(i as int));
        assert(all.take(i as int + 1).last() == parts@[i as int]@);
        let part = &parts[i];
        if part.len() == 0 || part_is_dot(part) {
        } else if part_is_dot_dot(part) {
            if stack.len() == 0 {
                proof {
                    assert(step(old_stack, part@) is None);
                    lemma_follow_stuck(all, i as int + 1);
                }
                return None;
            }
            stack.pop();
            assert(parts_of(stack@) =~= old_stack.drop_last());
        } else {
            let mut copy: Vec<char> = Vec::new();
            push_chars(&mut copy, part);
            assert(copy@ =~= part@);
            stack.push(copy);
            assert(parts_of(stack@) =~= old_stack.push(part@));
        }
        i += 1;
    }
    assert(parts_of(parts@).take(parts@.len() as int) =~= parts_of(parts@));
    Some(stack)
}

/// Once following a prefix of `parts` has failed, following all of them
/// fails.
pub proof fn lemma_follow_stuck(parts: Seq<Seq<char>>, n: int)
    requires
        0 <= n <= parts.len(),
        follow(parts.take(n)) is None,
    ensures
        follow(parts) is None,
    decreases parts.len() - n,
{
    if n < parts.len() {
        assert(parts.take(n + 1).drop_last() =~= parts.take(n));
        lemma_follow_stuck(parts, n + 1);
    } else {
        assert(parts.take(n) =~= parts);
    }
}

/// Whether an entry name stands for a directory.
pub fn names_dir(name: &str) -> (r: bool)
    ensures
        r == is_dir_name(name@),
{
    let n = chars_of(name);
    n.len() > 0 && (n[n.len() - 1] == '/' || n[n.len() - 1] == '\\')
}

/// The path of the first `count` of `parts` beneath `dir`.
pub fn place(dir: &str, parts: &Vec<Vec<char>>, count: usize) -> (r: String)
    requires
        count <= parts@.len(),
    ensures
        r@ == beneath(dir@, parts_of(parts@).take(count as int)),
{
    let mut out = chars_of(dir);
    let ghost all = parts_of(parts@);
    if count > 0 {
        if out.len() > 0 && out[out.len() - 1] != '/' {
            out.push('/');
        }
        assert(out@ =~= stem(dir@));
        let mut k: usize = 0;
        assert(all.take(0) =~= Seq::<Seq<char>>::empty());
        while k < count
            invariant
                k <= count <= parts@.len(),
                all == parts_of(parts@),
                out@ == stem(dir@) + joined(all.take(k as int)),
            decreases count - k,
        {
            assert(all.take(k as int + 1).drop_last() =~= all.take(k as int));
            assert(all.take(k as int + 1).last() == parts@[k as int]@);
            if k > 0 {
                out.push('/');
            }
            push_chars(&mut out, &parts[k]);
            k += 1;
            assert(out@ =~= stem(dir@) + joined(all.take(k as int)));
        }
    } else {
        assert(all.take(0) =~= Seq::<Seq<char>>::empty());
    }
    text_from(&out, 0)
}

} // verus!
