//! The filesystem state this tool touches, as an explicit value.
//!
//! `FsSpace` holds one entry per canonical path: its kind (directory or
//! not) and its extended attributes. The trash manager and the
//! configuration provider are verified against this model; the binary
//! around the library mirrors each verified decision onto the real
//! filesystem.

use vstd::prelude::*;
use crate::paths::{is_under, is_valid_name, join, is_child_path, child_name};
use crate::error::XAttrError;

verus! {

/// One filesystem entry: kind and extended attributes.
pub struct FsEntry {
    pub path: String,
    pub is_dir: bool,
    pub attrs: Vec<(String, String)>,
}

/// What one entry amounts to: its kind and its attribute map.
#[verifier::ext_equal]
pub struct EntryModel {
    pub is_dir: bool,
    pub attrs: Map<Seq<char>, Seq<char>>,
}

/// The attribute list as a map; a later pair wins, though well-formed
/// lists never repeat a key.
pub open spec fn attrs_map(s: Seq<(String, String)>) -> Map<Seq<char>, Seq<char>>
    decreases s.len(),
{
    if s.len() == 0 {
        Map::empty()
    } else {
        attrs_map(s.drop_last()).insert(s.last().0@, s.last().1@)
    }
}

pub open spec fn entry_model(e: FsEntry) -> EntryModel {
    EntryModel { is_dir: e.is_dir, attrs: attrs_map(e.attrs@) }
}

/// The entry list as a map from path to entry model.
pub open spec fn entries_map(s: Seq<FsEntry>) -> Map<Seq<char>, EntryModel>
    decreases s.len(),
{
    if s.len() == 0 {
        Map::empty()
    } else {
        entries_map(s.drop_last()).insert(s.last().path@, entry_model(s.last()))
    }
}

pub open spec fn attrs_wf(s: Seq<(String, String)>) -> bool {
    forall|i: int, j: int| 0 <= i < j < s.len() ==> s[i].0@ != s[j].0@
}

pub open spec fn entries_wf(s: Seq<FsEntry>) -> bool {
    (forall|i: int, j: int| 0 <= i < j < s.len() ==> s[i].path@ != s[j].path@) && (forall|i: int|
        0 <= i < s.len() ==> attrs_wf(#[trigger] s[i].attrs@))
}

/// The same entry in substance: path, kind and attribute list agree.
pub open spec fn entry_like(a: FsEntry, b: FsEntry) -> bool {
    a.path@ == b.path@ && a.is_dir == b.is_dir && a.attrs@ == b.attrs@
}

proof fn lemma_attrs_map_domain(s: Seq<(String, String)>)
    ensures
        forall|k: Seq<char>| #[trigger]
            attrs_map(s).contains_key(k) <==> exists|i: int| 0 <= i < s.len() && s[i].0@ == k,
    decreases s.len(),
{
    if s.len() > 0 {
        lemma_attrs_map_domain(s.drop_last());
        assert forall|k: Seq<char>| #[trigger] attrs_map(s).contains_key(k) implies exists|i: int|
            0 <= i < s.len() && s[i].0@ == k by {
            if k == s.last().0@ {
                assert(s[s.len() - 1].0@ == k);
            } else {
                assert(attrs_map(s.drop_last()).contains_key(k));
                let i = choose|i: int| 0 <= i < s.drop_last().len() && s.drop_last()[i].0@ == k;
                assert(s.drop_last()[i] == s[i]);
            }
        }
        assert forall|k: Seq<char>|
            exists|i: int| 0 <= i < s.len() && s[i].0@ == k implies #[trigger] attrs_map(
            s,
        ).contains_key(k) by {
            let i = choose|i: int| 0 <= i < s.len() && s[i].0@ == k;
            if i < s.len() - 1 {
                assert(s.drop_last()[i] == s[i]);
                assert(exists|i2: int| 0 <= i2 < s.drop_last().len() && s.drop_last()[i2].0@ == k);
                assert(attrs_map(s.drop_last()).contains_key(k));
            }
        }
    }
}

proof fn lemma_attrs_map_index(s: Seq<(String, String)>, i: int)
    requires
        attrs_wf(s),
        0 <= i < s.len(),
    ensures
        attrs_map(s).contains_key(s[i].0@),
        attrs_map(s)[s[i].0@] == s[i].1@,
    decreases s.len(),
{
    if i == s.len() - 1 {
    } else {
        assert(s.drop_last()[i] == s[i]);
        lemma_attrs_map_index(s.drop_last(), i);
    }
}

proof fn lemma_attrs_map_push(s: Seq<(String, String)>, p: (String, String))
    ensures
        attrs_map(s.push(p)) == attrs_map(s).insert(p.0@, p.1@),
{
    assert(s.push(p).drop_last() =~= s);
    assert(s.push(p).last() == p);
}

proof fn lemma_attrs_map_remove(s: Seq<(String, String)>, i: int)
    requires
        attrs_wf(s),
        0 <= i < s.len(),
    ensures
        attrs_map(s.remove(i)) == attrs_map(s).remove(s[i].0@),
        attrs_wf(s.remove(i)),
    decreases s.len(),
{
    lemma_attrs_map_domain(s.drop_last());
    if i == s.len() - 1 {
        assert(s.remove(i) =~= s.drop_last());
        assert(forall|j: int| 0 <= j < s.drop_last().len() ==> s.drop_last()[j] == s[j]);
        assert(!attrs_map(s.drop_last()).contains_key(s[i].0@));
        assert(attrs_map(s.drop_last()) =~= attrs_map(s).remove(s[i].0@));
    } else {
        assert(s.remove(i).drop_last() =~= s.drop_last().remove(i));
        assert(s.drop_last()[i] == s[i]);
        lemma_attrs_map_remove(s.drop_last(), i);
        assert(s.remove(i).last() == s.last());
        assert(attrs_map(s.remove(i)) == attrs_map(s.drop_last().remove(i)).insert(
            s.last().0@,
            s.last().1@,
        ));
        assert(attrs_map(s.remove(i)) =~= attrs_map(s).remove(s[i].0@));
    }
    assert forall|a: int, b: int| 0 <= a < b < s.remove(i).len() implies s.remove(i)[a].0@
        != s.remove(i)[b].0@ by {
        let a0 = if a < i {
            a
        } else {
            a + 1
        };
        let b0 = if b < i {
            b
        } else {
            b + 1
        };
        assert(s.remove(i)[a] == s[a0] && s.remove(i)[b] == s[b0]);
    }
}

proof fn lemma_entries_map_domain(s: Seq<FsEntry>)
    ensures
        forall|k: Seq<char>| #[trigger]
            entries_map(s).contains_key(k) <==> exists|i: int| 0 <= i < s.len() && s[i].path@ == k,
    decreases s.len(),
{
    if s.len() > 0 {
        lemma_entries_map_domain(s.drop_last());
        assert forall|k: Seq<char>| #[trigger] entries_map(s).contains_key(k) implies exists|
            i: int,
        | 0 <= i < s.len() && s[i].path@ == k by {
            if k == s.last().path@ {
                assert(s[s.len() - 1].path@ == k);
            } else {
                assert(entries_map(s.drop_last()).contains_key(k));
                let i = choose|i: int| 0 <= i < s.drop_last().len() && s.drop_last()[i].path@ == k;
                assert(s.drop_last()[i] == s[i]);
            }
        }
        assert forall|k: Seq<char>|
            exists|i: int| 0 <= i < s.len() && s[i].path@ == k implies #[trigger] entries_map(
            s,
        ).contains_key(k) by {
            let i = choose|i: int| 0 <= i < s.len() && s[i].path@ == k;
            if i < s.len() - 1 {
                assert(s.drop_last()[i] == s[i]);
                assert(exists|i2: int|
                    0 <= i2 < s.drop_last().len() && s.drop_last()[i2].path@ == k);
                assert(entries_map(s.drop_last()).contains_key(k));
            }
        }
    }
}

proof fn lemma_entries_map_index(s: Seq<FsEntry>, i: int)
    requires
        forall|a: int, b: int| 0 <= a < b < s.len() ==> s[a].path@ != s[b].path@,
        0 <= i < s.len(),
    ensures
        entries_map(s).contains_key(s[i].path@),
        entries_map(s)[s[i].path@] == entry_model(s[i]),
    decreases s.len(),
{
    if i == s.len() - 1 {
    } else {
        assert(s.drop_last()[i] == s[i]);
        lemma_entries_map_index(s.drop_last(), i);
    }
}

proof fn lemma_entries_map_push(s: Seq<FsEntry>, e: FsEntry)
    ensures
        entries_map(s.push(e)) == entries_map(s).insert(e.path@, entry_model(e)),
{
    assert(s.push(e).drop_last() =~= s);
    assert(s.push(e).last() == e);
}

proof fn lemma_entries_map_remove(s: Seq<FsEntry>, i: int)
    requires
        forall|a: int, b: int| 0 <= a < b < s.len() ==> s[a].path@ != s[b].path@,
        0 <= i < s.len(),
    ensures
        entries_map(s.remove(i)) == entries_map(s).remove(s[i].path@),
        forall|a: int, b: int|
            0 <= a < b < s.remove(i).len() ==> s.remove(i)[a].path@ != s.remove(i)[b].path@,
    decreases s.len(),
{
    lemma_entries_map_domain(s.drop_last());
    if i == s.len() - 1 {
        assert(s.remove(i) =~= s.drop_last());
        assert(forall|j: int| 0 <= j < s.drop_last().len() ==> s.drop_last()[j] == s[j]);
        assert(!entries_map(s.drop_last()).contains_key(s[i].path@));
        assert(entries_map(s.drop_last()) =~= entries_map(s).remove(s[i].path@));
    } else {
        assert(s.remove(i).drop_last() =~= s.drop_last().remove(i));
        assert(s.drop_last()[i] == s[i]);
        lemma_entries_map_remove(s.drop_last(), i);
        assert(s.remove(i).last() == s.last());
        assert(entries_map(s.remove(i)) == entries_map(s.drop_last().remove(i)).insert(
            s.last().path@,
            entry_model(s.last()),
        ));
        assert(entries_map(s.remove(i)) =~= entries_map(s).remove(s[i].path@));
    }
    assert forall|a: int, b: int| 0 <= a < b < s.remove(i).len() implies s.remove(i)[a].path@
        != s.remove(i)[b].path@ by {
        let a0 = if a < i {
            a
        } else {
            a + 1
        };
        let b0 = if b < i {
            b
        } else {
            b + 1
        };
        assert(s.remove(i)[a] == s[a0] && s.remove(i)[b] == s[b0]);
    }
}

/// Plain character-wise string equality.
pub fn str_eq(a: &str, b: &str) -> (r: bool)
    ensures
        r == (a@ == b@),
{
    let na = a.unicode_len();
    let nb = b.unicode_len();
    if na != nb {
        return false;
    }
    let mut i: usize = 0;
    while i < na
        invariant
            0 <= i <= na,
            na == a@.len(),
            na == b@.len(),
            forall|j: int| 0 <= j < i ==> a@[j] == b@[j],
        decreases na - i,
    {
        if a.get_char(i) != b.get_char(i) {
            return false;
        }
        i = i + 1;
    }
    proof {
        assert(a@ =~= b@);
    }
    true
}

/// Index of `key` in an attribute list.
fn attr_find(attrs: &Vec<(String, String)>, key: &str) -> (r: Option<usize>)
    requires
        attrs_wf(attrs@),
    ensures
        match r {
            Some(j) => j < attrs@.len() && attrs@[j as int].0@ == key@ && attrs_map(
                attrs@,
            ).contains_key(key@) && attrs_map(attrs@)[key@] == attrs@[j as int].1@,
            None => !attrs_map(attrs@).contains_key(key@),
        },
{
    let n = attrs.len();
    let mut j: usize = 0;
    while j < n
        invariant
            0 <= j <= n,
            n == attrs@.len(),
            attrs_wf(attrs@),
            forall|k: int| 0 <= k < j ==> attrs@[k].0@ != key@,
        decreases n - j,
    {
        if str_eq(attrs[j].0.as_str(), key) {
            proof {
                lemma_attrs_map_index(attrs@, j as int);
            }
            return Some(j);
        }
        j = j + 1;
    }
    proof {
        lemma_attrs_map_domain(attrs@);
    }
    None
}

/// The filesystem namespace this tool sees, as a value.
pub struct FsSpace {
    entries: Vec<FsEntry>,
}

impl View for FsSpace {
    type V = Map<Seq<char>, EntryModel>;

    closed spec fn view(&self) -> Map<Seq<char>, EntryModel> {
        entries_map(self.entries@)
    }
}

impl FsSpace {
    /// Internal shape: paths unique, attribute keys unique per entry.
    pub closed spec fn wf(&self) -> bool {
        entries_wf(self.entries@)
    }

    /// An empty namespace.
    pub fn new() -> (r: FsSpace)
        ensures
            r.wf(),
            r@ == Map::<Seq<char>, EntryModel>::empty(),
    {
        FsSpace { entries: Vec::new() }
    }

    /// Index of the entry at `path`, private to the model.
    fn find(&self, path: &str) -> (r: Option<usize>)
        requires
            self.wf(),
        ensures
            match r {
                Some(i) => i < self.entries@.len() && self.entries@[i as int].path@ == path@
                    && self@.contains_key(path@) && self@[path@] == entry_model(
                    self.entries@[i as int],
                ),
                None => !self@.contains_key(path@),
            },
    {
        let n = self.entries.len();
        let mut i: usize = 0;
        while i < n
            invariant
                0 <= i <= n,
                n == self.entries@.len(),
                self.wf(),
                forall|j: int| 0 <= j < i ==> self.entries@[j].path@ != path@,
            decreases n - i,
        {
            if str_eq(self.entries[i].path.as_str(), path) {
                proof {
                    lemma_entries_map_index(self.entries@, i as int);
                }
                return Some(i);
            }
            i = i + 1;
        }
        proof {
            lemma_entries_map_domain(self.entries@);
        }
        None
    }

    /// Is there an entry at `path`?
    pub fn exists_at(&self, path: &str) -> (r: bool)
        requires
            self.wf(),
        ensures
            r == self@.contains_key(path@),
    {
        self.find(path).is_some()
    }

    /// Is the entry at `path` a directory? `false` where there is none.
    pub fn is_dir_at(&self, path: &str) -> (r: bool)
        requires
            self.wf(),
        ensures
            r == (self@.contains_key(path@) && self@[path@].is_dir),
    {
        match self.find(path) {
            Some(i) => self.entries[i].is_dir,
            None => false,
        }
    }

    /// Create (or replace by) a bare entry with no attributes.
    pub fn add_entry(&mut self, path: &str, is_dir: bool)
        requires
            old(self).wf(),
        ensures
            final(self).wf(),
            final(self)@ == old(self)@.insert(path@, EntryModel { is_dir, attrs: Map::empty() }),
    {
        match self.find(path) {
            Some(i) => {
                proof {
                    lemma_entries_map_remove(self.entries@, i as int);
                }
                let _ = self.entries.remove(i);
            },
            None => {},
        }
        let ghost mid = self.entries@;
        proof {
            lemma_entries_map_domain(mid);
        }
        let e = FsEntry { path: String::from_str(path), is_dir, attrs: Vec::new() };
        proof {
            lemma_entries_map_push(mid, e);
        }
        self.entries.push(e);
        proof {
            assert(entry_model(e) =~= (EntryModel { is_dir, attrs: Map::empty() }));
            assert(final(self)@ =~= old(self)@.insert(
                path@,
                EntryModel { is_dir, attrs: Map::empty() },
            ));
            assert forall|a: int, b: int|
                0 <= a < b < self.entries@.len() implies self.entries@[a].path@
                != self.entries@[b].path@ by {
                if b == self.entries@.len() - 1 {
                    assert(mid[a] == self.entries@[a]);
                    assert(!entries_map(mid).contains_key(path@));
                }
            }
        }
    }

    /// The attribute value at (`path`, `key`), if both exist.
    pub fn get_attr_at(&self, path: &str, key: &str) -> (r: Option<String>)
        requires
            self.wf(),
        ensures
            match r {
                Some(v) => self@.contains_key(path@) && self@[path@].attrs.contains_key(key@) && v@
                    == self@[path@].attrs[key@],
                None => !self@.contains_key(path@) || !self@[path@].attrs.contains_key(key@),
            },
    {
        match self.find(path) {
            None => None,
            Some(i) => {
                match attr_find(&self.entries[i].attrs, key) {
                    None => None,
                    Some(j) => Some(self.entries[i].attrs[j].1.clone()),
                }
            },
        }
    }

    /// Write an attribute; fails where `path` names no entry.
    pub fn set_attr_at(&mut self, path: &str, key: &str, value: &str) -> (r: Result<
        (),
        XAttrError,
    >)
        requires
            old(self).wf(),
        ensures
            final(self).wf(),
            match r {
                Ok(()) => old(self)@.contains_key(path@) && final(self)@ == old(self)@.insert(
                    path@,
                    EntryModel {
                        is_dir: old(self)@[path@].is_dir,
                        attrs: old(self)@[path@].attrs.insert(key@, value@),
                    },
                ),
                Err(e) => final(self)@ == old(self)@ && !old(self)@.contains_key(path@) && e matches
                    XAttrError::SetAttr { .. },
            },
    {
        let i = match self.find(path) {
            None => {
                return Err(
                    XAttrError::SetAttr { attr: String::from_str(key), path: String::from_str(path) },
                );
            },
            Some(i) => i,
        };
        proof {
            lemma_entries_map_remove(self.entries@, i as int);
        }
        let mut e = self.entries.remove(i);
        let ghost mid = self.entries@;
        let ghost oldattrs = e.attrs@;
        match attr_find(&e.attrs, key) {
            Some(j) => {
                proof {
                    lemma_attrs_map_remove(e.attrs@, j as int);
                }
                let _ = e.attrs.remove(j);
            },
            None => {},
        }
        let ghost midattrs = e.attrs@;
        let pair = (String::from_str(key), String::from_str(value));
        proof {
            lemma_attrs_map_domain(midattrs);
            lemma_attrs_map_push(midattrs, pair);
        }
        e.attrs.push(pair);
        proof {
            assert(attrs_map(e.attrs@) =~= attrs_map(oldattrs).insert(key@, value@));
            assert forall|a: int, b: int| 0 <= a < b < e.attrs@.len() implies e.attrs@[a].0@
                != e.attrs@[b].0@ by {
                if b == e.attrs@.len() - 1 {
                    assert(midattrs[a] == e.attrs@[a]);
                    assert(!attrs_map(midattrs).contains_key(key@));
                }
            }
        }
        let ghost epath = e.path@;
        proof {
            lemma_entries_map_push(mid, e);
            lemma_entries_map_domain(mid);
        }
        self.entries.push(e);
        proof {
            assert(epath == path@);
            assert(final(self)@ =~= old(self)@.insert(
                path@,
                EntryModel {
                    is_dir: old(self)@[path@].is_dir,
                    attrs: old(self)@[path@].attrs.insert(key@, value@),
                },
            ));
            assert forall|a: int, b: int|
                0 <= a < b < self.entries@.len() implies self.entries@[a].path@
                != self.entries@[b].path@ by {
                if b == self.entries@.len() - 1 {
                    assert(mid[a] == self.entries@[a]);
                    assert(!entries_map(mid).contains_key(path@));
                }
            }
        }
        Ok(())
    }

    /// Remove an attribute; removing from a missing entry, or a key that
    /// is not there, is a hard error, as on several platform backends.
    pub fn remove_attr_at(&mut self, path: &str, key: &str) -> (r: Result<(), XAttrError>)
        requires
            old(self).wf(),
        ensures
            final(self).wf(),
            match r {
                Ok(()) => old(self)@.contains_key(path@) && old(self)@[path@].attrs.contains_key(
                    key@,
                ) && final(self)@ == old(self)@.insert(
                    path@,
                    EntryModel {
                        is_dir: old(self)@[path@].is_dir,
                        attrs: old(self)@[path@].attrs.remove(key@),
                    },
                ),
                Err(e) => final(self)@ == old(self)@ && !(old(self)@.contains_key(path@) && old(
                    self,
                )@[path@].attrs.contains_key(key@)) && e matches XAttrError::RemoveAttr { .. },
            },
    {
        let i = match self.find(path) {
            None => {
                return Err(
                    XAttrError::RemoveAttr {
                        attr: String::from_str(key),
                        path: String::from_str(path),
                    },
                );
            },
            Some(i) => i,
        };
        let j = match attr_find(&self.entries[i].attrs, key) {
            None => {
                return Err(
                    XAttrError::RemoveAttr {
                        attr: String::from_str(key),
                        path: String::from_str(path),
                    },
                );
            },
            Some(j) => j,
        };
        proof {
            lemma_entries_map_remove(self.entries@, i as int);
        }
        let mut e = self.entries.remove(i);
        let ghost mid = self.entries@;
        proof {
            lemma_attrs_map_remove(e.attrs@, j as int);
        }
        let _ = e.attrs.remove(j);
        proof {
            lemma_entries_map_push(mid, e);
            lemma_entries_map_domain(mid);
        }
        self.entries.push(e);
        proof {
            assert(final(self)@ =~= old(self)@.insert(
                path@,
                EntryModel {
                    is_dir: old(self)@[path@].is_dir,
                    attrs: old(self)@[path@].attrs.remove(key@),
                },
            ));
            assert forall|a: int, b: int|
                0 <= a < b < self.entries@.len() implies self.entries@[a].path@
                != self.entries@[b].path@ by {
                if b == self.entries@.len() - 1 {
                    assert(mid[a] == self.entries@[a]);
                    assert(!entries_map(mid).contains_key(path@));
                }
            }
        }
        Ok(())
    }

    /// Move the entry at `from` to `to`, attributes and kind intact,
    /// replacing whatever was at `to`.
    pub fn rename_entry(&mut self, from: &str, to: &str)
        requires
            old(self).wf(),
            old(self)@.contains_key(from@),
        ensures
            final(self).wf(),
            final(self)@ == old(self)@.remove(from@).insert(to@, old(self)@[from@]),
    {
        let i = match self.find(from) {
            Some(i) => i,
            None => {
                proof {
                    assert(false);
                }
                unreached()
            },
        };
        proof {
            lemma_entries_map_remove(self.entries@, i as int);
        }
        let e = self.entries.remove(i);
        match self.find(to) {
            Some(j) => {
                proof {
                    lemma_entries_map_remove(self.entries@, j as int);
                }
                let _ = self.entries.remove(j);
            },
            None => {},
        }
        let ghost mid = self.entries@;
        proof {
            lemma_entries_map_domain(mid);
        }
        let e2 = FsEntry { path: String::from_str(to), is_dir: e.is_dir, attrs: e.attrs };
        proof {
            lemma_entries_map_push(mid, e2);
        }
        self.entries.push(e2);
        proof {
            assert(entry_model(e2) == old(self)@[from@]);
            assert(final(self)@ =~= old(self)@.remove(from@).insert(to@, old(self)@[from@]));
            assert forall|a: int, b: int|
                0 <= a < b < self.entries@.len() implies self.entries@[a].path@
                != self.entries@[b].path@ by {
                if b == self.entries@.len() - 1 {
                    assert(mid[a] == self.entries@[a]);
                    assert(!entries_map(mid).contains_key(to@));
                }
            }
        }
    }

    /// The names of the direct children of `dir`, each exactly once.
    pub fn children_names(&self, dir: &str) -> (r: Vec<String>)
        requires
            self.wf(),
        ensures
            forall|j: int|
                0 <= j < r@.len() ==> is_valid_name(#[trigger] r@[j]@) && self@.contains_key(
                    join(dir@, r@[j]@),
                ),
            forall|k: Seq<char>| #[trigger]
                self@.contains_key(k) && is_child_path(k, dir@) ==> exists|j: int|
                    0 <= j < r@.len() && k == join(dir@, r@[j]@),
            forall|j1: int, j2: int| 0 <= j1 < j2 < r@.len() ==> r@[j1]@ != r@[j2]@,
    {
        let n = self.entries.len();
        let mut out: Vec<String> = Vec::new();
        let mut i: usize = 0;
        while i < n
            invariant
                0 <= i <= n,
                n == self.entries@.len(),
                self.wf(),
                forall|j: int|
                    0 <= j < out@.len() ==> is_valid_name(#[trigger] out@[j]@)
                        && self@.contains_key(join(dir@, out@[j]@)),
                forall|j: int|
                    0 <= j < out@.len() ==> exists|i0: int|
                        0 <= i0 < i && self.entries@[i0].path@ == join(dir@, #[trigger] out@[j]@),
                forall|i0: int|
                    0 <= i0 < i && is_child_path(#[trigger] self.entries@[i0].path@, dir@)
                        ==> exists|j: int|
                        0 <= j < out@.len() && self.entries@[i0].path@ == join(dir@, out@[j]@),
                forall|j1: int, j2: int| 0 <= j1 < j2 < out@.len() ==> out@[j1]@ != out@[j2]@,
            decreases n - i,
        {
            let ghost prev = out@;
            match child_name(self.entries[i].path.as_str(), dir) {
                Some(name) => {
                    proof {
                        lemma_entries_map_index(self.entries@, i as int);
                        assert forall|j: int| 0 <= j < prev.len() implies prev[j]@ != name@ by {
                            let i0 = choose|i0: int|
                                0 <= i0 < i && self.entries@[i0].path@ == join(dir@, prev[j]@);
                            if prev[j]@ == name@ {
                                assert(self.entries@[i0].path@ == self.entries@[i as int].path@);
                            }
                        }
                    }
                    out.push(name);
                    proof {
                        assert(out@ == prev.push(name));
                        assert(out@[out@.len() - 1]@ == name@);
                        assert forall|j: int|
                            0 <= j < out@.len() implies is_valid_name(#[trigger] out@[j]@)
                            && self@.contains_key(join(dir@, out@[j]@)) by {
                            if j < prev.len() {
                                assert(out@[j] == prev[j]);
                            }
                        }
                        assert forall|j: int| 0 <= j < out@.len() implies exists|i0: int|
                            0 <= i0 < i + 1 && self.entries@[i0].path@ == join(
                            dir@,
                            #[trigger] out@[j]@,
                        ) by {
                            if j < prev.len() {
                                assert(out@[j] == prev[j]);
                                let i0 = choose|i0: int|
                                    0 <= i0 < i && self.entries@[i0].path@ == join(dir@, prev[j]@);
                                assert(self.entries@[i0].path@ == join(dir@, out@[j]@));
                            } else {
                                assert(self.entries@[i as int].path@ == join(dir@, out@[j]@));
                            }
                        }
                        assert forall|i0: int|
                            0 <= i0 < i + 1 && is_child_path(
                                #[trigger] self.entries@[i0].path@,
                                dir@,
                            ) implies exists|j: int|
                            0 <= j < out@.len() && self.entries@[i0].path@ == join(
                                dir@,
                                out@[j]@,
                            ) by {
                            if i0 < i {
                                let j = choose|j: int|
                                    0 <= j < prev.len() && self.entries@[i0].path@ == join(
                                        dir@,
                                        prev[j]@,
                                    );
                                assert(out@[j] == prev[j]);
                                assert(self.entries@[i0].path@ == join(dir@, out@[j]@));
                            } else {
                                assert(self.entries@[i0].path@ == join(
                                    dir@,
                                    out@[out@.len() - 1]@,
                                ));
                            }
                        }
                    }
                },
                None => {
                    proof {
                        assert forall|i0: int|
                            0 <= i0 < i + 1 && is_child_path(
                                #[trigger] self.entries@[i0].path@,
                                dir@,
                            ) implies exists|j: int|
                            0 <= j < out@.len() && self.entries@[i0].path@ == join(
                                dir@,
                                out@[j]@,
                            ) by {
                            if i0 < i {
                            } else {
                                assert(!is_child_path(self.entries@[i0].path@, dir@));
                            }
                        }
                    }
                },
            }
            i = i + 1;
        }
        proof {
            lemma_entries_map_domain(self.entries@);
            assert forall|k: Seq<char>| #[trigger]
                self@.contains_key(k) && is_child_path(k, dir@) implies exists|j: int|
                0 <= j < out@.len() && k == join(dir@, out@[j]@) by {
                let i0 = choose|i0: int| 0 <= i0 < n && self.entries@[i0].path@ == k;
                let j = choose|j: int|
                    0 <= j < out@.len() && self.entries@[i0].path@ == join(dir@, out@[j]@);
                assert(k == join(dir@, out@[j]@));
            }
        }
        out
    }

    /// Remove the entry at `path` and every entry below it.
    pub fn remove_subtree(&mut self, path: &str)
        requires
            old(self).wf(),
        ensures
            final(self).wf(),
            forall|k: Seq<char>| #[trigger]
                final(self)@.contains_key(k) <==> old(self)@.contains_key(k) && !(k == path@
                    || is_under(k, path@)),
            forall|k: Seq<char>| #[trigger]
                final(self)@.contains_key(k) ==> final(self)@[k] == old(self)@[k],
    {
        let ghost ole = self.entries@;
        let n = self.entries.len();
        let mut kept: Vec<FsEntry> = Vec::new();
        let mut i: usize = 0;
        while i < n
            invariant
                0 <= i <= n,
                n == ole.len(),
                self.entries@ == ole,
                self.wf(),
                forall|j: int|
                    0 <= j < kept@.len() ==> exists|i0: int|
                        0 <= i0 < i && entry_like(#[trigger] kept@[j], ole[i0]),
                forall|j1: int, j2: int| 0 <= j1 < j2 < kept@.len() ==> kept@[j1].path@
                    != kept@[j2].path@,
                forall|j: int| 0 <= j < kept@.len() ==> attrs_wf(#[trigger] kept@[j].attrs@),
                forall|k: Seq<char>| #[trigger]
                    entries_map(kept@).contains_key(k) <==> entries_map(
                        ole.subrange(0, i as int),
                    ).contains_key(k) && !(k == path@ || is_under(k, path@)),
                forall|k: Seq<char>| #[trigger]
                    entries_map(kept@).contains_key(k) ==> entries_map(kept@)[k] == entries_map(
                        ole.subrange(0, i as int),
                    )[k],
            decreases n - i,
        {
            let keep = !path_covers(path, self.entries[i].path.as_str());
            let ghost prev = kept@;
            let ghost prefix = ole.subrange(0, i as int);
            proof {
                assert(ole.subrange(0, i + 1 as int).drop_last() =~= prefix);
                assert(ole.subrange(0, i + 1 as int).last() == ole[i as int]);
                assert(entries_map(ole.subrange(0, i + 1 as int)) == entries_map(prefix).insert(
                    ole[i as int].path@,
                    entry_model(ole[i as int]),
                ));
            }
            if keep {
                let e2 = clone_entry(&self.entries[i]);
                proof {
                    lemma_entries_map_push(prev, e2);
                    assert(entry_model(e2) == entry_model(ole[i as int]));
                    assert forall|j: int| 0 <= j < prev.len() implies prev[j].path@ != e2.path@ by {
                        let i0 = choose|i0: int| 0 <= i0 < i && entry_like(prev[j], ole[i0]);
                        assert(ole[i0].path@ != ole[i as int].path@);
                    }
                    assert(entry_like(e2, ole[i as int]));
                }
                kept.push(e2);
                proof {
                    assert forall|j: int| 0 <= j < kept@.len() implies exists|i0: int|
                        0 <= i0 < i + 1 && entry_like(#[trigger] kept@[j], ole[i0]) by {
                        if j < prev.len() {
                            assert(kept@[j] == prev[j]);
                            let i0 = choose|i0: int| 0 <= i0 < i && entry_like(prev[j], ole[i0]);
                            assert(entry_like(kept@[j], ole[i0]));
                        } else {
                            assert(entry_like(kept@[j], ole[i as int]));
                        }
                    }
                }
            }
            i = i + 1;
        }
        proof {
            assert(ole.subrange(0, n as int) =~= ole);
        }
        self.entries = kept;
    }
}

/// Does removing the subtree rooted at `root` take `p` with it?
fn path_covers(root: &str, p: &str) -> (r: bool)
    ensures
        r == (p@ == root@ || is_under(p@, root@)),
{
    if str_eq(p, root) {
        return true;
    }
    let np = p.unicode_len();
    let nr = root.unicode_len();
    if np <= nr || np - nr <= 1 {
        return false;
    }
    let mut i: usize = 0;
    while i < nr
        invariant
            0 <= i <= nr,
            nr == root@.len(),
            np == p@.len(),
            np > nr + 1,
            p@ != root@,
            forall|j: int| 0 <= j < i ==> p@[j] == root@[j],
        decreases nr - i,
    {
        if p.get_char(i) != root.get_char(i) {
            proof {
                assert(p@.subrange(0, nr as int)[i as int] != root@[i as int]);
            }
            return false;
        }
        i = i + 1;
    }
    proof {
        assert(p@.subrange(0, nr as int) =~= root@);
    }
    p.get_char(nr) == '/'
}

/// A fresh entry with the same path, kind and attributes.
fn clone_entry(e: &FsEntry) -> (r: FsEntry)
    ensures
        entry_like(r, *e),
{
    let mut attrs: Vec<(String, String)> = Vec::new();
    let n = e.attrs.len();
    let mut i: usize = 0;
    while i < n
        invariant
            0 <= i <= n,
            n == e.attrs@.len(),
            attrs@ =~= e.attrs@.subrange(0, i as int),
        decreases n - i,
    {
        attrs.push((e.attrs[i].0.clone(), e.attrs[i].1.clone()));
        proof {
            assert(e.attrs@[i as int] == (e.attrs@[i as int].0, e.attrs@[i as int].1));
            assert(attrs@ =~= e.attrs@.subrange(0, i + 1 as int));
        }
        i = i + 1;
    }
    proof {
        assert(attrs@ =~= e.attrs@);
    }
    FsEntry { path: e.path.clone(), is_dir: e.is_dir, attrs }
}

} // verus!
