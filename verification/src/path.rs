//! Paths as text, with `/` between components.

use vstd::prelude::*;

use crate::text::{
    begins_text, chars_of, glue3, holds_char, lemma_split_append, pieces, spells, split_on,
    starts_with, text_of, views,
};

verus! {

/// The components of a path.
pub open spec fn components(path: Seq<char>) -> Seq<Seq<char>> {
    split_on(path, '/')
}

/// A path that names something below the directory it is joined to: not empty,
/// not absolute, without backslashes and without `..` components.
pub open spec fn safe_relative(path: Seq<char>) -> bool {
    &&& path.len() > 0
    &&& path[0] != '/'
    &&& !path.contains('\\')
    &&& !components(path).contains(".."@)
}

/// Whether the canonical path `path` is `root` or lies below it.
pub open spec fn within(path: Seq<char>, root: Seq<char>) -> bool {
    ||| path == root
    ||| starts_with(path, root) && root.len() > 0 && (root.last() == '/' || path[root.len() as int]
        == '/')
}

/// `name` inside the directory `dir`.
pub open spec fn joined(dir: Seq<char>, name: Seq<char>) -> Seq<char> {
    if dir.len() == 0 {
        name
    } else if dir.last() == '/' {
        dir + name
    } else {
        dir + "/"@ + name
    }
}

/// The last of the components that names something: empty components and `.` name
/// nothing of their own, and `..` names no file.
pub open spec fn last_name(parts: Seq<Seq<char>>) -> Option<Seq<char>>
    decreases parts.len(),
{
    if parts.len() == 0 {
        None
    } else if parts.last().len() == 0 || parts.last() == "."@ {
        last_name(parts.drop_last())
    } else if parts.last() == ".."@ {
        None
    } else {
        Some(parts.last())
    }
}

/// The name of the file that a path leads to.
pub open spec fn file_name(path: Seq<char>) -> Option<Seq<char>> {
    last_name(components(path))
}

/// A path with `/` in place of every backslash.
pub open spec fn normalized(path: Seq<char>) -> Seq<char> {
    path.map_values(
        |c: char|
            if c == '\\' {
                '/'
            } else {
                c
            },
    )
}

/// A path with `/` in place of every backslash.
pub fn normalize(path: &str) -> (r: String)
    ensures
        r@ == normalized(path@),
{
    let chars = chars_of(path);
    let mut out: Vec<char> = Vec::new();
    for i in 0..chars.len()
        invariant
            chars@ == path@,
            out@.len() == i,
            forall|j: int| 0 <= j < i ==> out@[j] == normalized(path@)[j],
    {
        let c = chars[i];
        out.push(
            if c == '\\' {
                '/'
            } else {
                c
            },
        );
    }
    assert(out@ =~= normalized(path@));
    text_of(&out)
}

/// Whether `path` is safe to join to a directory.
pub fn is_safe_relative(path: &str) -> (r: bool)
    ensures
        r == safe_relative(path@),
{
    let chars = chars_of(path);
    if chars.len() == 0 || chars[0] == '/' || holds_char(&chars, '\\') {
        return false;
    }
    let parts = pieces(&chars, '/');
    let ghost all = views(parts@);
    for i in 0..parts.len()
        invariant
            all == views(parts@),
            all == components(path@),
            forall|j: int| 0 <= j < i ==> #[trigger] all[j] != ".."@,
    {
        assert(all[i as int] == parts@[i as int]@);
        if spells(parts[i].as_slice(), "..") {
            assert(all.contains(".."@));
            return false;
        }
    }
    true
}

/// Whether the canonical path `path` is `root` or lies below it.
pub fn is_within(path: &str, root: &str) -> (r: bool)
    ensures
        r == within(path@, root@),
{
    let p = chars_of(path);
    let q = chars_of(root);
    assert(path@ == root@ ==> path@.take(root@.len() as int) =~= root@);
    if !begins_text(&p, root) {
        return false;
    }
    assert(starts_with(path@, root@));
    if p.len() == q.len() {
        assert(path@ =~= path@.take(root@.len() as int));
        return true;
    }
    q.len() > 0 && (q[q.len() - 1] == '/' || p[q.len()] == '/')
}

/// `name` inside the directory `dir`.
pub fn join_path(dir: &str, name: &str) -> (r: String)
    ensures
        r@ == joined(dir@, name@),
{
    let d = chars_of(dir);
    if d.len() == 0 {
        name.to_string()
    } else if d[d.len() - 1] == '/' {
        crate::text::glue2(dir, name)
    } else {
        glue3(dir, "/", name)
    }
}

/// The name of the file that a path leads to.
pub fn name_of(path: &str) -> (r: Option<String>)
    ensures
        match r {
            Some(name) => file_name(path@) == Some(name@),
            None => file_name(path@) is None,
        },
{
    let chars = chars_of(path);
    let parts = pieces(&chars, '/');
    let ghost all = views(parts@);
    let mut n: usize = parts.len();
    assert(all.take(n as int) =~= all);
    while n > 0
        invariant
            n <= parts@.len(),
            all == views(parts@),
            last_name(all.take(n as int)) == file_name(path@),
        decreases n,
    {
        let part = parts[n - 1].as_slice();
        proof {
            assert(all.take(n as int).last() == part@);
            assert(all.take(n as int).drop_last() =~= all.take(n - 1));
        }
        if part.len() > 0 && !spells(part, ".") {
            if spells(part, "..") {
                return None;
            }
            return Some(text_of(part));
        }
        n = n - 1;
    }
    None
}

/// The components of a path to something in a directory are those of the
/// directory and its name.
pub proof fn lemma_joined_components(dir: Seq<char>, name: Seq<char>)
    requires
        dir.len() > 0,
        dir.last() != '/',
        !name.contains('/'),
    ensures
        components(joined(dir, name)) == components(dir).push(name),
{
    reveal_strlit("/");
    let x = dir.push('/');
    assert(joined(dir, name) =~= x + name);
    assert(x.drop_last() =~= dir);
    let parts = components(dir);
    let empty = Seq::<char>::empty();
    assert(split_on(x, '/') == parts.push(empty));
    lemma_split_append(x, name, '/');
    assert(parts.push(empty).drop_last() =~= parts);
    assert(empty + name =~= name);
}

/// A path without separator is its only component.
pub proof fn lemma_single_component(name: Seq<char>)
    requires
        !name.contains('/'),
    ensures
        components(name) == seq![name],
{
    let empty = Seq::<char>::empty();
    lemma_split_append(empty, name, '/');
    assert(empty + name =~= name);
    assert(split_on(empty, '/') =~= seq![empty]);
    assert(components(name) =~= seq![name]);
}

/// A path that ends in a separator has an empty last component.
pub proof fn lemma_last_component(path: Seq<char>)
    requires
        path.len() > 0,
        path.last() == '/',
    ensures
        components(path).last().len() == 0,
{
}

} // verus!
