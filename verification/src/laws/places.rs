//! Where a command runs.
use vstd::prelude::*;
use vstd::string::*;

use crate::path::{last_at, lemma_last_at, name_spec, parent_spec};
use crate::repo_context::{above, below, lemma_parent_shorter, root_of, sandbox_of, Facts};
use crate::text::after;

verus! {

/// `.helix`
pub open spec fn own_dir() -> Seq<char> {
    seq!['.', 'h', 'e', 'l', 'i', 'x']
}

/// `workdir`
pub open spec fn work_dir() -> Seq<char> {
    seq!['w', 'o', 'r', 'k', 'd', 'i', 'r']
}

/// A name in a directory.
pub open spec fn inside(dir: Seq<char>, name: Seq<char>) -> Seq<char> {
    dir.push('/') + name
}

proof fn lemma_inside(dir: Seq<char>, name: Seq<char>)
    requires
        dir.len() > 0,
        !name.contains('/'),
    ensures
        parent_spec(inside(dir, name)) == Some(dir),
        name_spec(inside(dir, name)) == name,
{
    let p = inside(dir, name);
    lemma_last_at(p, '/');
    let n = dir.len() as int;
    assert(p[n] == '/');
    let i = last_at(p, '/');
    assert(i == n) by {
        if i > n {
            assert(p[i] == name[i - n - 1]);
        }
    }
    assert(p.subrange(0, n) =~= dir);
    assert(after(p, n + 1) =~= name);
    assert(p != seq!['/']) by {
        assert(p.len() > 1);
    }
}

/// A path in a directory with a directory of the tool in it lies in the repository of that
/// directory, however deep, unless a directory between them is one too.
pub proof fn repositories_are_found_above(f: Facts, dir: Seq<char>, name: Seq<char>)
    requires
        dir.len() > 0,
        dir.last() != '/',
        name.len() > 0,
        !name.contains('/'),
    ensures
        f.dirs.contains(inside(dir, own_dir())) ==> root_of(f, dir) == Some(dir),
        !f.dirs.contains(inside(inside(dir, name), own_dir())) ==> root_of(f, inside(dir, name))
            == root_of(f, dir),
{
    reveal_strlit(".helix");
    reveal_strlit("/");
    assert(".helix"@ =~= own_dir());
    assert(below(dir, ".helix"@) =~= inside(dir, own_dir()));
    let p = inside(dir, name);
    assert(p.last() == name.last());
    assert(name.last() != '/') by {
        if name.last() == '/' {
            assert(name[name.len() - 1] == '/');
        }
    }
    assert(below(p, ".helix"@) =~= inside(p, own_dir()));
    lemma_inside(dir, name);
    lemma_parent_shorter(p);
}

/// The working directory of a sandbox, three levels below its repository, lies in that sandbox
/// and that repository where the sandbox has a manifest and a directory of the tool; and a
/// path below it lies where its directory lies.
pub proof fn sandboxes_are_found_above(f: Facts, root: Seq<char>, name: Seq<char>, x: Seq<char>)
    requires
        root.len() > 0,
        root.last() != '/',
        name.len() > 0,
        !name.contains('/'),
        x.len() > 0,
        !x.contains('/'),
        x != work_dir(),
    ensures
        ({
            let home = inside(
                inside(
                    inside(root, own_dir()),
                    seq!['s', 'a', 'n', 'd', 'b', 'o', 'x', 'e', 's'],
                ),
                name,
            );
            let manifest = seq!['m', 'a', 'n', 'i', 'f', 'e', 's', 't', '.', 't', 'o', 'm', 'l'];
            &&& f.present.contains(inside(home, manifest)) && f.dirs.contains(
                inside(home, own_dir()),
            ) ==> sandbox_of(f, inside(home, work_dir())) == Some((home, root))
        }),
        sandbox_of(f, inside(root, x)) == sandbox_of(f, root),
{
    reveal_strlit(".helix");
    reveal_strlit("workdir");
    reveal_strlit("manifest.toml");
    reveal_strlit("/");
    let own = own_dir();
    let list = seq!['s', 'a', 'n', 'd', 'b', 'o', 'x', 'e', 's'];
    let manifest = seq!['m', 'a', 'n', 'i', 'f', 'e', 's', 't', '.', 't', 'o', 'm', 'l'];
    let a = inside(root, own);
    let b = inside(a, list);
    let home = inside(b, name);
    assert(".helix"@ =~= own);
    assert("workdir"@ =~= work_dir());
    assert("manifest.toml"@ =~= manifest);
    assert(home.last() == name.last());
    assert(name.last() != '/') by {
        if name.last() == '/' {
            assert(name[name.len() - 1] == '/');
        }
    }
    assert(below(home, "manifest.toml"@) =~= inside(home, manifest));
    assert(below(home, ".helix"@) =~= inside(home, own));
    lemma_inside(root, own);
    lemma_inside(a, list);
    lemma_inside(b, name);
    lemma_inside(home, work_dir());
    lemma_inside(root, x);
    lemma_parent_shorter(inside(home, work_dir()));
    lemma_parent_shorter(inside(root, x));
    reveal_with_fuel(above, 4);
    assert(above(home, 3) == Some(root));
}

} // verus!
