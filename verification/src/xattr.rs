//! The Attribute Store capability: per-entry key/value string metadata
//! that survives a rename of the entry.
//!
//! The trait is the interface the configuration provider and the trash
//! manager depend on; the filesystem model implements it. The binary
//! around the library carries its own store backed by the platform's
//! extended-attribute calls.

use vstd::prelude::*;
use crate::error::XAttrError;
use crate::fsmodel::{EntryModel, FsSpace};

verus! {

/// A capability to attach string key/value pairs to filesystem entries.
pub trait ExtendedAttributes: Sized {
    /// The store's own well-formedness.
    spec fn inv(&self) -> bool;

    /// The attributes held, per entry path.
    spec fn store_view(&self) -> Map<Seq<char>, Map<Seq<char>, Seq<char>>>;

    /// Whatever the backing state holds besides attributes — for the
    /// filesystem model, each entry's kind. No attribute operation,
    /// successful or not, may touch it.
    spec fn kinds_view(&self) -> Map<Seq<char>, bool>;

    /// Attach `value` under `key` to the entry at `path`.
    fn set_attr(&mut self, path: &str, key: &str, value: &str) -> (r: Result<(), XAttrError>)
        requires
            old(self).inv(),
        ensures
            final(self).inv(),
            final(self).kinds_view() == old(self).kinds_view(),
            match r {
                Ok(()) => old(self).store_view().contains_key(path@) && final(self).store_view()
                    == old(self).store_view().insert(
                    path@,
                    old(self).store_view()[path@].insert(key@, value@),
                ),
                Err(_) => final(self).store_view() == old(self).store_view(),
            },
    ;

    /// The value under `key` at `path`; `None` where either is absent.
    fn get_attr(&self, path: &str, key: &str) -> (r: Result<Option<String>, XAttrError>)
        requires
            self.inv(),
        ensures
            match r {
                Ok(Some(v)) => self.store_view().contains_key(path@)
                    && self.store_view()[path@].contains_key(key@) && v@
                    == self.store_view()[path@][key@],
                Ok(None) => !self.store_view().contains_key(path@)
                    || !self.store_view()[path@].contains_key(key@),
                Err(_) => true,
            },
    ;

    /// Detach `key` from the entry at `path`; an absent key is a hard
    /// error, matching the stricter platform backends.
    fn remove_attr(&mut self, path: &str, key: &str) -> (r: Result<(), XAttrError>)
        requires
            old(self).inv(),
        ensures
            final(self).inv(),
            final(self).kinds_view() == old(self).kinds_view(),
            match r {
                Ok(()) => old(self).store_view().contains_key(path@)
                    && old(self).store_view()[path@].contains_key(key@) && final(self).store_view()
                    == old(self).store_view().insert(
                    path@,
                    old(self).store_view()[path@].remove(key@),
                ),
                Err(_) => final(self).store_view() == old(self).store_view(),
            },
    ;
}

impl ExtendedAttributes for FsSpace {
    open spec fn inv(&self) -> bool {
        self.wf()
    }

    open spec fn store_view(&self) -> Map<Seq<char>, Map<Seq<char>, Seq<char>>> {
        Map::new(|k: Seq<char>| self@.contains_key(k), |k: Seq<char>| self@[k].attrs)
    }

    open spec fn kinds_view(&self) -> Map<Seq<char>, bool> {
        Map::new(|k: Seq<char>| self@.contains_key(k), |k: Seq<char>| self@[k].is_dir)
    }

    fn set_attr(&mut self, path: &str, key: &str, value: &str) -> (r: Result<(), XAttrError>) {
        let r = self.set_attr_at(path, key, value);
        proof {
            if r is Ok {
                assert(final(self).store_view() =~~= old(self).store_view().insert(
                    path@,
                    old(self).store_view()[path@].insert(key@, value@),
                ));
            } else {
                assert(final(self).store_view() =~~= old(self).store_view());
            }
            assert(final(self).kinds_view() =~= old(self).kinds_view());
        }
        r
    }

    fn get_attr(&self, path: &str, key: &str) -> (r: Result<Option<String>, XAttrError>) {
        Ok(self.get_attr_at(path, key))
    }

    fn remove_attr(&mut self, path: &str, key: &str) -> (r: Result<(), XAttrError>) {
        let r = self.remove_attr_at(path, key);
        proof {
            if r is Ok {
                assert(final(self).store_view() =~~= old(self).store_view().insert(
                    path@,
                    old(self).store_view()[path@].remove(key@),
                ));
            } else {
                assert(final(self).store_view() =~~= old(self).store_view());
            }
            assert(final(self).kinds_view() =~= old(self).kinds_view());
        }
        r
    }
}

/// The two views pin the whole filesystem state: a store mutation that
/// wrote one attribute at `path` and kept every kind left exactly the
/// one-entry update behind.
pub proof fn lemma_attr_write_pins_state(a: FsSpace, b: FsSpace, path: Seq<char>, attrs: Map<
    Seq<char>,
    Seq<char>,
>)
    requires
        a.store_view().contains_key(path),
        b.store_view() == a.store_view().insert(path, attrs),
        b.kinds_view() == a.kinds_view(),
    ensures
        a@.contains_key(path),
        b@ == a@.insert(path, EntryModel { is_dir: a@[path].is_dir, attrs }),
{
    let m = a@.insert(path, EntryModel { is_dir: a@[path].is_dir, attrs });
    assert forall|k: Seq<char>| #[trigger] b@.contains_key(k) <==> m.contains_key(k) by {
        assert(b@.contains_key(k) == b.store_view().contains_key(k));
        assert(a@.contains_key(k) == a.store_view().contains_key(k));
    }
    assert forall|k: Seq<char>| b@.contains_key(k) implies #[trigger] b@[k] == m[k] by {
        assert(b@[k].attrs == b.store_view()[k]);
        assert(b@[k].is_dir == b.kinds_view()[k]);
        if k != path {
            assert(a@[k].attrs == a.store_view()[k]);
            assert(a@[k].is_dir == a.kinds_view()[k]);
        } else {
            assert(a@[path].is_dir == a.kinds_view()[path]);
        }
        assert(b@[k] =~= m[k]);
    }
    assert(b@ =~= m);
}

/// Unchanged views mean an unchanged filesystem state.
pub proof fn lemma_same_views_same_state(a: FsSpace, b: FsSpace)
    requires
        b.store_view() == a.store_view(),
        b.kinds_view() == a.kinds_view(),
    ensures
        b@ == a@,
{
    assert forall|k: Seq<char>| #[trigger] b@.contains_key(k) <==> a@.contains_key(k) by {
        assert(b@.contains_key(k) == b.store_view().contains_key(k));
        assert(a@.contains_key(k) == a.store_view().contains_key(k));
    }
    assert forall|k: Seq<char>| b@.contains_key(k) implies #[trigger] b@[k] == a@[k] by {
        assert(b@[k].attrs == b.store_view()[k]);
        assert(a@[k].attrs == a.store_view()[k]);
        assert(b@[k].is_dir == b.kinds_view()[k]);
        assert(a@[k].is_dir == a.kinds_view()[k]);
        assert(b@[k] =~= a@[k]);
    }
    assert(b@ =~= a@);
}

} // verus!
