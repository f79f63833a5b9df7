//! What paths mean, stated on their characters.

use vstd::prelude::*;

use crate::collection::parent;
use crate::path::{components, file_name, joined, normalized, safe_relative, within};
use crate::text::{join, split_on};
use crate::text_laws::{law_joining, law_splitting_cuts_at_separators, law_splitting_joined_texts};

verus! {

proof fn lemma_join_two(a: Seq<Seq<char>>, b: Seq<Seq<char>>, c: char)
    requires
        a.len() > 0,
        b.len() > 0,
    ensures
        join(a + b, c) == join(a, c) + seq![c] + join(b, c),
    decreases b.len(),
{
    if b.len() == 1 {
        law_joining(a, b[0], c);
        assert(a + b =~= a.push(b[0]));
        assert(b =~= seq![b[0]]);
        law_joining(a, b[0], c);
    } else {
        let front = b.drop_last();
        lemma_join_two(a, front, c);
        law_joining(a + front, b.last(), c);
        law_joining(front, b.last(), c);
        assert(a + b =~= (a + front).push(b.last()));
        assert(b =~= front.push(b.last()));
        assert(join(a + b, c) =~= join(a, c) + seq![c] + join(b, c));
    }
}

/// Whether `name` is a component of the path: it stands between separators or ends.
pub open spec fn has_component(path: Seq<char>, name: Seq<char>) -> bool {
    exists|a: Seq<char>, b: Seq<char>| #[trigger] stands_between(path, a, name, b)
}

pub open spec fn stands_between(
    path: Seq<char>,
    a: Seq<char>,
    name: Seq<char>,
    b: Seq<char>,
) -> bool {
    &&& path == a + name + b
    &&& a.len() == 0 || a.last() == '/'
    &&& b.len() == 0 || b[0] == '/'
}

/// The components of a path are what stands between its separators.
pub proof fn law_components_stand_between_separators(path: Seq<char>, name: Seq<char>)
    requires
        !name.contains('/'),
    ensures
        components(path).contains(name) <==> has_component(path, name),
{
    let parts = components(path);
    law_splitting_cuts_at_separators(path, '/');
    if parts.contains(name) {
        let i = choose|i: int| 0 <= i < parts.len() && parts[i] == name;
        let x = parts.take(i);
        let y = parts.skip(i + 1);
        let mid = seq![name];
        law_joining(x, name, '/');
        assert(parts =~= x + mid + y);
        let a = if i == 0 {
            Seq::<char>::empty()
        } else {
            join(x, '/') + seq!['/']
        };
        let b = if y.len() == 0 {
            Seq::<char>::empty()
        } else {
            seq!['/'] + join(y, '/')
        };
        if i > 0 {
            lemma_join_two(x, mid, '/');
            if y.len() > 0 {
                lemma_join_two(x + mid, y, '/');
            } else {
                assert(parts =~= x + mid);
            }
        } else if y.len() > 0 {
            lemma_join_two(mid, y, '/');
            assert(parts =~= mid + y);
        } else {
            assert(parts =~= mid);
        }
        assert(path =~= a + name + b);
        assert(stands_between(path, a, name, b));
    }
    if has_component(path, name) {
        let (a, b) = choose|a: Seq<char>, b: Seq<char>| #[trigger]
            stands_between(path, a, name, b);
        crate::path::lemma_single_component(name);
        if a.len() > 0 {
            let front = a.drop_last();
            assert(a =~= front + seq!['/']);
            if b.len() > 0 {
                let back = b.skip(1);
                assert(b =~= seq!['/'] + back);
                law_splitting_joined_texts(name, back, '/');
                law_splitting_joined_texts(front, name + seq!['/'] + back, '/');
                assert(path =~= front + seq!['/'] + (name + seq!['/'] + back));
                let all = split_on(front, '/') + (seq![name] + split_on(back, '/'));
                assert(parts == all);
                assert(all[split_on(front, '/').len() as int] == name);
            } else {
                law_splitting_joined_texts(front, name, '/');
                assert(path =~= front + seq!['/'] + name);
                let all = split_on(front, '/') + seq![name];
                assert(all[split_on(front, '/').len() as int] == name);
            }
        } else if b.len() > 0 {
            let back = b.skip(1);
            assert(b =~= seq!['/'] + back);
            law_splitting_joined_texts(name, back, '/');
            assert(path =~= name + seq!['/'] + back);
            let all = seq![name] + split_on(back, '/');
            assert(all[0] == name);
        } else {
            assert(path =~= name);
            assert(seq![name][0] == name);
        }
    }
}

/// A path is safe exactly where it is not empty, does not start at the root, holds no
/// backslash, and no component of it leads up.
pub proof fn law_safe_paths(path: Seq<char>)
    ensures
        safe_relative(path) <==> path.len() > 0 && path[0] != '/' && !path.contains('\\')
            && !has_component(path, seq!['.', '.']),
{
    reveal_strlit("..");
    assert(".."@ =~= seq!['.', '.']);
    law_components_stand_between_separators(path, seq!['.', '.']);
}

/// A path lies within a directory exactly where it is the directory or goes on from it
/// behind a separator.
pub proof fn law_within_a_directory(path: Seq<char>, root: Seq<char>)
    requires
        root.len() > 0,
    ensures
        within(path, root) <==> {
            ||| path == root
            ||| exists|rest: Seq<char>| path == #[trigger] (root + rest) && rest.len() > 0 && (
            root.last() == '/' || rest[0] == '/')
        },
{
    if within(path, root) && path != root {
        let rest = path.skip(root.len() as int);
        assert(path =~= path.take(root.len() as int) + rest);
        assert(path == root + rest);
        if rest.len() == 0 {
            assert(path =~= root);
        }
    }
    if exists|rest: Seq<char>| path == #[trigger] (root + rest) && rest.len() > 0 && (root.last()
        == '/' || rest[0] == '/') {
        let rest = choose|rest: Seq<char>| path == #[trigger] (root + rest) && rest.len() > 0 && (
        root.last() == '/' || rest[0] == '/');
        assert(path.take(root.len() as int) =~= root);
    }
}

/// Nothing but the empty path lies within the empty path.
pub proof fn law_within_nothing(path: Seq<char>)
    ensures
        within(path, Seq::empty()) <==> path.len() == 0,
{
    if path.len() == 0 {
        assert(path =~= Seq::<char>::empty());
    }
}

/// Joining puts a separator between a directory and a name, where neither the empty
/// directory nor one that ends with a separator needs one.
pub proof fn law_joined_paths(dir: Seq<char>, name: Seq<char>)
    ensures
        joined(Seq::empty(), name) == name,
        dir.len() > 0 && dir.last() != '/' ==> joined(dir, name) == dir + seq!['/'] + name,
        joined(dir.push('/'), name) == dir.push('/') + name,
{
    reveal_strlit("/");
    assert("/"@ =~= seq!['/']);
}

/// The name of a file is its path's last component; `..` is none, and neither `.` nor
/// separators at the end count.
pub proof fn law_file_names(dir: Seq<char>, name: Seq<char>)
    requires
        !name.contains('/'),
    ensures
        ({
            let named = name.len() > 0 && name != seq!['.'] && name != seq!['.', '.'];
            &&& named ==> file_name(dir + seq!['/'] + name) == Some(name)
            &&& named ==> file_name(name) == Some(name)
            &&& named ==> file_name(dir + seq!['/'] + name + seq!['/']) == Some(name)
            &&& named ==> file_name(dir + seq!['/'] + name + seq!['/', '.']) == Some(name)
            &&& file_name(dir + seq!['/', '.', '.']) is None
            &&& file_name(seq!['/']) is None
            &&& file_name(Seq::empty()) is None
        }),
{
    reveal_strlit(".");
    reveal_strlit("..");
    assert("."@ =~= seq!['.']);
    assert(".."@ =~= seq!['.', '.']);
    crate::path::lemma_single_component(name);
    law_splitting_joined_texts(dir, name, '/');
    law_splitting_joined_texts(dir + seq!['/'] + name, Seq::empty(), '/');
    let none = Seq::<char>::empty();
    assert(dir + seq!['/'] + name + seq!['/'] =~= dir + seq!['/'] + name + seq!['/'] + none);
    let p = components(dir + seq!['/'] + name);
    assert(p.last() == name);
    let q = components(dir + seq!['/'] + name + seq!['/']);
    assert(q.last() == none);
    assert(q.drop_last() =~= p);
    let here = seq!['.'];
    crate::path::lemma_single_component(here);
    law_splitting_joined_texts(dir + seq!['/'] + name, here, '/');
    assert(dir + seq!['/'] + name + seq!['/', '.'] =~= dir + seq!['/'] + name + seq!['/'] + here);
    let h = components(dir + seq!['/'] + name + seq!['/', '.']);
    assert(h.last() == here);
    assert(h.drop_last() =~= p);
    law_splitting_joined_texts(none, none, '/');
    assert(none + seq!['/'] + none =~= seq!['/']);
    assert(split_on(none, '/') =~= seq![none]);
    assert(components(seq!['/']) =~= seq![none, none]);
    assert(seq![none, none].drop_last() =~= seq![none]);
    assert(seq![none].drop_last() =~= Seq::<Seq<char>>::empty());
    reveal_with_fuel(crate::path::last_name, 4);
    let up = seq!['.', '.'];
    crate::path::lemma_single_component(up);
    law_splitting_joined_texts(dir, up, '/');
    assert(dir + seq!['/', '.', '.'] =~= dir + seq!['/'] + up);
    let r = components(dir + seq!['/', '.', '.']);
    assert(r.last() == up);
}

/// A normalized path has separators in place of backslashes and is otherwise the same.
pub proof fn law_normalized_paths(path: Seq<char>)
    ensures
        normalized(path).len() == path.len(),
        forall|i: int|
            0 <= i < path.len() ==> #[trigger] normalized(path)[i] == if path[i] == '\\' {
                '/'
            } else {
                path[i]
            },
        !normalized(path).contains('\\'),
{
    if normalized(path).contains('\\') {
        let i = choose|i: int| 0 <= i < path.len() && normalized(path)[i] == '\\';
        assert(normalized(path)[i] == '\\');
    }
}

/// The parent of a directory's entry is the directory; that of an entry of the root is
/// the root.
pub proof fn law_parents(dir: Seq<char>, name: Seq<char>)
    requires
        !name.contains('/'),
    ensures
        dir.len() > 0 ==> parent(dir + seq!['/'] + name) == dir,
        parent(seq!['/'] + name) == seq!['/'],
        parent(name) == name,
{
    reveal_strlit("/");
    assert("/"@ =~= seq!['/']);
    crate::path::lemma_single_component(name);
    law_splitting_joined_texts(dir, name, '/');
    law_splitting_cuts_at_separators(dir, '/');
    let parts = components(dir + seq!['/'] + name);
    assert(parts =~= split_on(dir, '/').push(name));
    assert(parts.drop_last() =~= split_on(dir, '/'));
    if dir.len() > 0 && split_on(dir, '/').len() == 1 {
        law_joining(Seq::empty(), split_on(dir, '/')[0], '/');
        assert(split_on(dir, '/') =~= seq![split_on(dir, '/')[0]]);
        assert(split_on(dir, '/')[0] == dir);
    }
    let none = Seq::<char>::empty();
    law_splitting_joined_texts(none, name, '/');
    assert(none + seq!['/'] + name =~= seq!['/'] + name);
    assert(split_on(none, '/') =~= seq![none]);
    assert(components(seq!['/'] + name) =~= seq![none, name]);
}

} // verus!
