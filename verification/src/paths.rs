//! Plain-text path arithmetic.
//!
//! The model works on canonical UTF-8 path strings. A path never ends in a
//! slash; a direct child of a directory is the directory, one slash, and a
//! non-empty name without slashes. These definitions are the library's own
//! reading of a path; the binary around the library hands it canonical
//! paths only.

use vstd::prelude::*;

verus! {

/// Does the sequence contain the character anywhere?
pub open spec fn has_char(s: Seq<char>, c: char) -> bool {
    exists|i: int| 0 <= i < s.len() && s[i] == c
}

/// A usable entry name: non-empty and free of slashes.
pub open spec fn is_valid_name(s: Seq<char>) -> bool {
    s.len() > 0 && !has_char(s, '/')
}

/// `dir/name`.
pub open spec fn join(dir: Seq<char>, name: Seq<char>) -> Seq<char> {
    dir + seq!['/'] + name
}

/// Index of the last slash of `s`, or -1 if there is none.
pub open spec fn last_slash(s: Seq<char>) -> int
    decreases s.len(),
{
    if s.len() == 0 {
        -1
    } else if s[s.len() - 1] == '/' {
        s.len() - 1
    } else {
        last_slash(s.drop_last())
    }
}

/// The parent of a path: everything before the last slash; `/` for a
/// direct child of the root; empty for a path without slashes.
pub open spec fn parent_of(p: Seq<char>) -> Seq<char> {
    let i = last_slash(p);
    if i < 0 {
        Seq::empty()
    } else if i == 0 {
        seq!['/']
    } else {
        p.subrange(0, i)
    }
}

/// The path with its final component replaced by `name`.
pub open spec fn with_file_name(p: Seq<char>, name: Seq<char>) -> Seq<char> {
    p.subrange(0, last_slash(p) + 1) + name
}

/// Is `p` a direct child of `dir`?
pub open spec fn is_child_path(p: Seq<char>, dir: Seq<char>) -> bool {
    p.len() > dir.len() + 1 && p.subrange(0, dir.len() as int) == dir && p[dir.len() as int]
        == '/' && is_valid_name(p.subrange(dir.len() as int + 1, p.len() as int))
}

/// Is `p` strictly below `dir` (at any depth)?
pub open spec fn is_under(p: Seq<char>, dir: Seq<char>) -> bool {
    p.len() > dir.len() + 1 && p.subrange(0, dir.len() as int) == dir && p[dir.len() as int] == '/'
}

proof fn lemma_last_slash_bounds(s: Seq<char>)
    ensures
        -1 <= last_slash(s) < s.len(),
        last_slash(s) >= 0 ==> s[last_slash(s)] == '/',
        forall|j: int| last_slash(s) < j < s.len() ==> s[j] != '/',
    decreases s.len(),
{
    if s.len() == 0 {
    } else if s[s.len() - 1] == '/' {
    } else {
        lemma_last_slash_bounds(s.drop_last());
        assert forall|j: int| last_slash(s) < j < s.len() implies s[j] != '/' by {
            if j < s.len() - 1 {
                assert(s.drop_last()[j] != '/');
            }
        }
    }
}

/// A joined child path is a direct child, and the name can be read back.
pub proof fn lemma_join_child(dir: Seq<char>, name: Seq<char>)
    requires
        is_valid_name(name),
    ensures
        is_child_path(join(dir, name), dir),
        join(dir, name).subrange(dir.len() as int + 1, join(dir, name).len() as int) == name,
        join(dir, name).len() == dir.len() + 1 + name.len(),
{
    let p = join(dir, name);
    assert(p.subrange(0, dir.len() as int) =~= dir);
    assert(p.subrange(dir.len() as int + 1, p.len() as int) =~= name);
}

/// Joining is injective in the name.
pub proof fn lemma_join_injective(dir: Seq<char>, n1: Seq<char>, n2: Seq<char>)
    requires
        join(dir, n1) == join(dir, n2),
    ensures
        n1 == n2,
{
    let p = join(dir, n1);
    assert(n1 =~= p.subrange(dir.len() as int + 1, p.len() as int));
    assert(n2 =~= join(dir, n2).subrange(dir.len() as int + 1, join(dir, n2).len() as int));
}

/// A direct child is exactly a join of the directory with a valid name.
pub proof fn lemma_child_is_join(p: Seq<char>, dir: Seq<char>)
    requires
        is_child_path(p, dir),
    ensures
        p == join(dir, p.subrange(dir.len() as int + 1, p.len() as int)),
        is_valid_name(p.subrange(dir.len() as int + 1, p.len() as int)),
{
    assert(p =~= join(dir, p.subrange(dir.len() as int + 1, p.len() as int)));
}

/// Two distinct direct children of one directory are never nested.
pub proof fn lemma_children_not_nested(p1: Seq<char>, p2: Seq<char>, dir: Seq<char>)
    requires
        is_child_path(p1, dir),
        is_child_path(p2, dir),
        p1 != p2,
    ensures
        !is_under(p1, p2),
        p1 != p2,
{
    if is_under(p1, p2) {
        // p1 extends p2 past a slash, so p1's name would contain a slash.
        let n1 = p1.subrange(dir.len() as int + 1, p1.len() as int);
        assert(p1[p2.len() as int] == '/');
        assert(p2.len() > dir.len() + 1);
        assert(n1[p2.len() - dir.len() - 1] == '/');
        assert(has_char(n1, '/'));
    }
}

/// Being below a directory is transitive through a deeper directory.
pub proof fn lemma_under_trans(k: Seq<char>, mid: Seq<char>, root: Seq<char>)
    requires
        k == mid || is_under(k, mid),
        is_under(mid, root),
    ensures
        is_under(k, root),
{
    if k != mid {
        assert forall|idx: int| 0 <= idx < root.len() implies k[idx] == root[idx] by {
            assert(k.subrange(0, mid.len() as int)[idx] == k[idx]);
            assert(mid.subrange(0, root.len() as int)[idx] == mid[idx]);
        }
        assert(k.subrange(0, mid.len() as int)[root.len() as int] == k[root.len() as int]);
        assert(k[root.len() as int] == mid[root.len() as int]);
        assert(k.subrange(0, root.len() as int) =~= root);
    }
}

/// Index of the last slash, as `last_slash` names it.
pub fn find_last_slash(s: &str) -> (r: Option<usize>)
    ensures
        match r {
            Some(i) => last_slash(s@) == i as int,
            None => last_slash(s@) == -1,
        },
{
    let n = s.unicode_len();
    proof {
        assert(s@.subrange(0, n as int) =~= s@);
    }
    let mut i: usize = n;
    while i > 0
        invariant
            0 <= i <= n,
            n == s@.len(),
            last_slash(s@) == last_slash(s@.subrange(0, i as int)),
        decreases i,
    {
        let c = s.get_char(i - 1);
        if c == '/' {
            proof {
                assert(s@.subrange(0, i as int)[i - 1] == '/');
            }
            return Some(i - 1);
        }
        proof {
            assert(s@.subrange(0, i as int).drop_last() =~= s@.subrange(0, i - 1 as int));
            assert(s@.subrange(0, i as int)[i - 1] == s@[i - 1]);
        }
        i = i - 1;
    }
    proof {
        assert(s@.subrange(0, 0) =~= Seq::<char>::empty());
    }
    None
}

/// The parent of a path, as `parent_of` names it.
pub fn parent_path(p: &str) -> (r: String)
    ensures
        r@ == parent_of(p@),
{
    match find_last_slash(p) {
        None => String::new(),
        Some(i) => {
            if i == 0 {
                proof {
                    reveal_strlit("/");
                    assert("/"@ =~= seq!['/']);
                }
                String::from_str("/")
            } else {
                proof {
                    lemma_last_slash_bounds(p@);
                }
                String::from_str(p.substring_char(0, i))
            }
        },
    }
}

/// The path with its final component replaced, as `with_file_name` names it.
pub fn with_file_name_exec(p: &str, name: &str) -> (r: String)
    ensures
        r@ == with_file_name(p@, name@),
{
    match find_last_slash(p) {
        None => {
            proof {
                assert(p@.subrange(0, 0) =~= Seq::<char>::empty());
                assert(with_file_name(p@, name@) =~= name@);
            }
            String::from_str(name)
        },
        Some(i) => {
            let n = p.unicode_len();
            proof {
                lemma_last_slash_bounds(p@);
            }
            let prefix = p.substring_char(0, i + 1);
            String::from_str(prefix).concat(name)
        },
    }
}

/// `dir/name`, as `join` names it.
pub fn join_path(dir: &str, name: &str) -> (r: String)
    ensures
        r@ == join(dir@, name@),
{
    proof {
        reveal_strlit("/");
        assert("/"@ =~= seq!['/']);
    }
    String::from_str(dir).concat("/").concat(name)
}

/// If `p` is a direct child of `dir`, its name; `None` otherwise.
pub fn child_name(p: &str, dir: &str) -> (r: Option<String>)
    ensures
        match r {
            Some(n) => is_child_path(p@, dir@) && p@ == join(dir@, n@) && is_valid_name(n@),
            None => !is_child_path(p@, dir@),
        },
{
    let np = p.unicode_len();
    let nd = dir.unicode_len();
    if np <= nd || np - nd <= 1 {
        return None;
    }
    let mut i: usize = 0;
    while i < nd
        invariant
            0 <= i <= nd,
            nd == dir@.len(),
            np == p@.len(),
            np > nd + 1,
            forall|j: int| 0 <= j < i ==> p@[j] == dir@[j],
        decreases nd - i,
    {
        if p.get_char(i) != dir.get_char(i) {
            proof {
                assert(p@.subrange(0, nd as int)[i as int] != dir@[i as int]);
            }
            return None;
        }
        i = i + 1;
    }
    if p.get_char(nd) != '/' {
        return None;
    }
    let mut j: usize = nd + 1;
    while j < np
        invariant
            nd + 1 <= j <= np,
            nd == dir@.len(),
            np == p@.len(),
            np > nd + 1,
            forall|k: int| nd + 1 <= k < j ==> p@[k] != '/',
        decreases np - j,
    {
        if p.get_char(j) == '/' {
            proof {
                let nm = p@.subrange(nd + 1, np as int);
                assert(nm[j - nd - 1] == '/');
            }
            return None;
        }
        j = j + 1;
    }
    let name = p.substring_char(nd + 1, np);
    proof {
        assert(p@.subrange(0, nd as int) =~= dir@);
        let nm = p@.subrange(nd + 1, np as int);
        assert(!has_char(nm, '/')) by {
            assert forall|k: int| 0 <= k < nm.len() implies nm[k] != '/' by {
                assert(nm[k] == p@[nd + 1 + k]);
            }
        }
        lemma_child_is_join(p@, dir@);
    }
    Some(String::from_str(name))
}

} // verus!
