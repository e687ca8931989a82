//! The trash lifecycle manager: move-to-trash, enumeration, restore, and
//! expiry-based purge over the filesystem model.
//!
//! Orderings chosen here, visible to a crash between steps: when trashing,
//! the two provenance attributes are written while the item is still at
//! its original location, and the rename into the trash directory comes
//! last; when restoring, the move back comes first and the attributes are
//! cleared afterwards, so an interruption leaves a restored entry with
//! stale trash metadata rather than an entry stuck in the trash with no
//! provenance.

use vstd::prelude::*;
use crate::error::Error;
use crate::fsmodel::{EntryModel, FsSpace};
use crate::paths::{
    has_char, is_under, is_valid_name, join, is_child_path, join_path, lemma_child_is_join,
    lemma_children_not_nested, lemma_join_child, lemma_join_injective, parent_of,
    with_file_name, with_file_name_exec, parent_path,
};
use crate::fsmodel::str_eq;
use crate::time::{day_of, parse_display_spec, parse_rfc3339_spec, Timestamp};

verus! {

/// Name of the attribute that holds the path an entry came from.
pub open spec fn original_path_attr() -> Seq<char> {
    "original_path"@
}

/// Name of the attribute that holds the deletion date.
pub open spec fn deletion_date_attr() -> Seq<char> {
    "deletion_date"@
}

fn original_path_attr_str() -> (r: &'static str)
    ensures
        r@ == original_path_attr(),
{
    "original_path"
}

fn deletion_date_attr_str() -> (r: &'static str)
    ensures
        r@ == deletion_date_attr(),
{
    "deletion_date"
}

/// The seconds a parsable deletion-date attribute denotes.
pub open spec fn parsed_secs(o: Option<int>) -> int {
    match o {
        Some(v) => v,
        None => 0,
    }
}

/// One trashed entry as the manager reads it back.
pub struct TrashItem {
    pub id: String,
    pub path: String,
    pub original_path: String,
    pub deletion_date: Timestamp,
}

/// The spec-level picture of one trashed entry.
pub struct TrashItemModel {
    pub id: Seq<char>,
    pub path: Seq<char>,
    pub original_path: Seq<char>,
    pub deletion_secs: int,
}

impl View for TrashItem {
    type V = TrashItemModel;

    open spec fn view(&self) -> TrashItemModel {
        TrashItemModel {
            id: self.id@,
            path: self.path@,
            original_path: self.original_path@,
            deletion_secs: self.deletion_date.secs as int,
        }
    }
}

impl TrashItem {
    /// Current kind of the trashed entry, from the live state, never
    /// cached.
    pub fn kind(&self, fs: &FsSpace) -> (r: &'static str)
        requires
            fs.wf(),
        ensures
            (fs@.contains_key(self.path@) && fs@[self.path@].is_dir) ==> r@ == "Directory"@,
            !(fs@.contains_key(self.path@) && fs@[self.path@].is_dir) ==> r@ == "File"@,
    {
        if fs.is_dir_at(self.path.as_str()) {
            "Directory"
        } else {
            "File"
        }
    }

    /// Categorical rendering of the deletion date: "Today" on the current
    /// UTC calendar day, "Tomorrow" on the next, the absolute form
    /// otherwise. A pure function of the two timestamps.
    pub fn format_deletion_date(&self, now: Timestamp) -> (r: String)
        requires
            self.deletion_date.valid(),
            now.valid(),
        ensures
            day_of(self.deletion_date.secs as int) == day_of(now.secs as int) ==> r@ == "Today"@,
            day_of(self.deletion_date.secs as int) == day_of(now.secs as int) + 1 ==> r@
                == "Tomorrow"@,
            (day_of(self.deletion_date.secs as int) != day_of(now.secs as int) && day_of(
                self.deletion_date.secs as int,
            ) != day_of(now.secs as int) + 1) ==> parse_display_spec(r@) == Some(
                self.deletion_date.secs as int,
            ),
    {
        let dd = self.deletion_date.secs / 86400;
        let nd = now.secs / 86400;
        if dd == nd {
            String::from_str("Today")
        } else if dd == nd + 1 {
            String::from_str("Tomorrow")
        } else {
            self.deletion_date.render_display()
        }
    }
}

/// One path successfully trashed, and the id it is filed under.
pub struct TrashRecord {
    pub path: String,
    pub id: String,
}

/// One path that could not be trashed, and why.
pub struct TrashFailure {
    pub path: String,
    pub error: Error,
}

/// The aggregate outcome of one batch of trashing.
pub struct TrashReport {
    pub trashed: Vec<TrashRecord>,
    pub failures: Vec<TrashFailure>,
}

/// Is the entry filed under `id` a well-formed trash entry: present, both
/// provenance attributes attached, the date parsable? Anything else in the
/// trash directory is foreign and is skipped, never adopted or deleted.
pub open spec fn wf_trash_entry(m: Map<Seq<char>, EntryModel>, td: Seq<char>, id: Seq<char>) -> bool {
    &&& is_valid_name(id)
    &&& m.contains_key(join(td, id))
    &&& m[join(td, id)].attrs.contains_key(original_path_attr())
    &&& m[join(td, id)].attrs.contains_key(deletion_date_attr())
    &&& parse_rfc3339_spec(m[join(td, id)].attrs[deletion_date_attr()]) is Some
}

/// What a well-formed trash entry holds.
pub open spec fn trash_entry_model(m: Map<Seq<char>, EntryModel>, td: Seq<char>, id: Seq<char>) -> TrashItemModel {
    TrashItemModel {
        id,
        path: join(td, id),
        original_path: m[join(td, id)].attrs[original_path_attr()],
        deletion_secs: parsed_secs(
            parse_rfc3339_spec(m[join(td, id)].attrs[deletion_date_attr()]),
        ),
    }
}

/// The map after one entry at `p` is stamped (original path, deletion
/// date `ds`) and moved to the trash under `id`.
pub open spec fn trash_step(
    m: Map<Seq<char>, EntryModel>,
    td: Seq<char>,
    p: Seq<char>,
    id: Seq<char>,
    ds: Seq<char>,
) -> Map<Seq<char>, EntryModel> {
    m.remove(p).insert(
        join(td, id),
        EntryModel {
            is_dir: m[p].is_dir,
            attrs: m[p].attrs.insert(original_path_attr(), p).insert(deletion_date_attr(), ds),
        },
    )
}

/// The map after the trash entry at `ip` is moved back to `dest` and its
/// provenance attributes are cleared.
pub open spec fn restore_step(
    m: Map<Seq<char>, EntryModel>,
    ip: Seq<char>,
    dest: Seq<char>,
) -> Map<Seq<char>, EntryModel> {
    m.remove(ip).insert(
        dest,
        EntryModel {
            is_dir: m[ip].is_dir,
            attrs: m[ip].attrs.remove(original_path_attr()).remove(deletion_date_attr()),
        },
    )
}

/// Where a restore puts the entry filed under `id`: its recorded original
/// path, with the final component replaced where a new name is given.
pub open spec fn restore_dest(
    m: Map<Seq<char>, EntryModel>,
    td: Seq<char>,
    id: Seq<char>,
    rename: Option<Seq<char>>,
) -> Seq<char> {
    let orig = m[join(td, id)].attrs[original_path_attr()];
    match rename {
        Some(n) => with_file_name(orig, n),
        None => orig,
    }
}

/// The destination's parent must already exist; the root always does.
pub open spec fn parent_ok(m: Map<Seq<char>, EntryModel>, dest: Seq<char>) -> bool {
    parent_of(dest) == seq!['/'] || m.contains_key(parent_of(dest))
}

/// Is the entry filed under `id` due for purging?
pub open spec fn eligible(
    m: Map<Seq<char>, EntryModel>,
    td: Seq<char>,
    id: Seq<char>,
    immediate: bool,
    now: int,
) -> bool {
    wf_trash_entry(m, td, id) && (immediate || trash_entry_model(m, td, id).deletion_secs < now)
}

/// Does a purge remove the key `k`: is it a due trash entry, or below one?
pub open spec fn doomed(
    m: Map<Seq<char>, EntryModel>,
    td: Seq<char>,
    immediate: bool,
    now: int,
    k: Seq<char>,
) -> bool {
    exists|id: Seq<char>|
        eligible(m, td, id, immediate, now) && (k == join(td, id) || is_under(k, join(td, id)))
}

/// Relies on the uuid crate: `Uuid::new_v4().to_string()` is the
/// 36-character hyphenated form, lowercase hexadecimal digits and hyphens
/// only — in particular, never a slash.
#[verifier::external_body]
fn fresh_id() -> (r: String)
    ensures
        r@.len() == 36,
        forall|i: int| 0 <= i < r@.len() ==> r@[i] != '/',
{
    uuid::Uuid::new_v4().to_string()
}

/// The sole owner of the trash directory's namespace and metadata.
pub struct TrashManager {
    trash_dir: String,
}

impl TrashManager {
    /// The directory the manager files trashed entries under.
    pub closed spec fn trash_dir_spec(&self) -> Seq<char> {
        self.trash_dir@
    }

    /// The path the entry filed under `id` occupies.
    pub open spec fn item_path(&self, id: Seq<char>) -> Seq<char> {
        join(self.trash_dir_spec(), id)
    }

    pub fn new(trash_dir: String) -> (r: TrashManager)
        ensures
            r.trash_dir_spec() == trash_dir@,
    {
        TrashManager { trash_dir }
    }

    /// Move one existing entry into the trash: stamp its canonical path
    /// and the deletion date on it, then file it under a fresh id.
    pub fn trash_one(&self, fs: &mut FsSpace, path: &str, deletion_date: Timestamp) -> (r: Result<
        String,
        Error,
    >)
        requires
            old(fs).wf(),
            deletion_date.valid(),
        ensures
            final(fs).wf(),
            match r {
                Ok(id) => {
                    &&& is_valid_name(id@)
                    &&& old(fs)@.contains_key(path@)
                    &&& !old(fs)@.contains_key(self.item_path(id@))
                    &&& final(fs)@ == trash_step(
                        old(fs)@,
                        self.trash_dir_spec(),
                        path@,
                        id@,
                        final(fs)@[self.item_path(id@)].attrs[deletion_date_attr()],
                    )
                    &&& parse_rfc3339_spec(final(fs)@[self.item_path(id@)].attrs[deletion_date_attr()])
                        == Some(deletion_date.secs as int)
                },
                Err(e) => final(fs)@ == old(fs)@ && match e {
                    Error::Io(_) => !old(fs)@.contains_key(path@),
                    Error::PathAlreadyExists(tp) => old(fs)@.contains_key(path@)
                        && old(fs)@.contains_key(tp@) && (exists|idv: Seq<char>|
                        is_valid_name(idv) && idv.len() == 36 && tp@ == self.item_path(idv)),
                    _ => false,
                },
            },
    {
        if !fs.exists_at(path) {
            return Err(Error::Io(String::from_str("No such file or directory")));
        }
        let id = fresh_id();
        proof {
            assert(is_valid_name(id@)) by {
                if has_char(id@, '/') {
                    let i = choose|i: int| 0 <= i < id@.len() && id@[i] == '/';
                }
            }
        }
        let ip = join_path(self.trash_dir.as_str(), id.as_str());
        if fs.exists_at(ip.as_str()) {
            proof {
                assert(is_valid_name(id@) && id@.len() == 36 && ip@ == self.item_path(id@));
            }
            return Err(Error::PathAlreadyExists(ip));
        }
        let ds = deletion_date.render_rfc3339();
        match fs.set_attr_at(path, original_path_attr_str(), path) {
            Ok(()) => {},
            Err(_) => {
                proof {
                    assert(false);
                }
            },
        }
        match fs.set_attr_at(path, deletion_date_attr_str(), ds.as_str()) {
            Ok(()) => {},
            Err(_) => {
                proof {
                    assert(false);
                }
            },
        }
        fs.rename_entry(path, ip.as_str());
        proof {
            let m = old(fs)@;
            let td = self.trash_dir_spec();
            assert(fs@ =~= trash_step(m, td, path@, id@, ds@));
            lemma_join_child(td, id@);
            assert(fs@[self.item_path(id@)].attrs[deletion_date_attr()] == ds@);
        }
        Ok(id)
    }

    /// Move each path to the trash, independently and in order; the
    /// report lists what was filed where and which paths failed, and why.
    /// One path's failure never aborts the rest.
    pub fn trash_items(&self, fs: &mut FsSpace, paths: &Vec<String>, deletion_date: Timestamp) -> (r:
        TrashReport)
        requires
            old(fs).wf(),
            deletion_date.valid(),
        ensures
            final(fs).wf(),
            r.trashed@.len() + r.failures@.len() == paths@.len(),
            trash_batch(
                old(fs)@,
                self.trash_dir_spec(),
                path_views(paths@),
                deletion_date.secs as int,
                r.trashed@,
                r.failures@,
                final(fs)@,
            ),
    {
        let ghost td = self.trash_dir_spec();
        let mut trashed: Vec<TrashRecord> = Vec::new();
        let mut failures: Vec<TrashFailure> = Vec::new();
        let n = paths.len();
        let mut i: usize = 0;
        proof {
            assert(path_views(paths@.subrange(0, 0)) =~= Seq::<Seq<char>>::empty());
        }
        while i < n
            invariant
                0 <= i <= n,
                n == paths@.len(),
                fs.wf(),
                deletion_date.valid(),
                td == self.trash_dir_spec(),
                trashed@.len() + failures@.len() == i,
                trash_batch(
                    old(fs)@,
                    td,
                    path_views(paths@.subrange(0, i as int)),
                    deletion_date.secs as int,
                    trashed@,
                    failures@,
                    fs@,
                ),
            decreases n - i,
        {
            let ghost prefix = path_views(paths@.subrange(0, i as int));
            let ghost prev_trashed = trashed@;
            let ghost prev_failures = failures@;
            let ghost mid = fs@;
            let p = paths[i].clone();
            match self.trash_one(fs, p.as_str(), deletion_date) {
                Ok(id) => {
                    let ghost ds = fs@[self.item_path(id@)].attrs[deletion_date_attr()];
                    trashed.push(TrashRecord { path: p, id });
                    proof {
                        let recv = trashed@.last();
                        assert(recv.path@ == paths@[i as int]@);
                        lemma_trash_batch_push_ok(
                            old(fs)@,
                            td,
                            prefix,
                            deletion_date.secs as int,
                            prev_trashed,
                            prev_failures,
                            mid,
                            recv,
                            ds,
                        );
                        assert(trashed@ =~= prev_trashed.push(recv));
                        assert(fs@ == trash_step(mid, td, recv.path@, recv.id@, ds));
                    }
                },
                Err(e) => {
                    failures.push(TrashFailure { path: p, error: e });
                    proof {
                        let fv = failures@.last();
                        assert(fv.path@ == paths@[i as int]@);
                        if fv.error is Io {
                            assert(!mid.contains_key(fv.path@));
                        } else {
                            assert(collision_error(fv.error, mid, td));
                        }
                        lemma_trash_batch_push_fail(
                            old(fs)@,
                            td,
                            prefix,
                            deletion_date.secs as int,
                            prev_trashed,
                            prev_failures,
                            mid,
                            fv,
                        );
                        assert(failures@ =~= prev_failures.push(fv));
                    }
                },
            }
            proof {
                assert(path_views(paths@.subrange(0, i + 1 as int)) =~= prefix.push(
                    paths@[i as int]@,
                ));
            }
            i = i + 1;
        }
        proof {
            assert(paths@.subrange(0, n as int) =~= paths@);
            assert(path_views(paths@.subrange(0, n as int)) =~= path_views(paths@));
        }
        TrashReport { trashed, failures }
    }

    /// Every well-formed entry currently in the trash, each exactly once,
    /// in no particular order. A foreign or corrupt entry — missing
    /// either attribute, or with an unparsable date — is skipped.
    #[verifier::rlimit(100)]
    pub fn list_items(&self, fs: &FsSpace) -> (r: Vec<TrashItem>)
        requires
            fs.wf(),
        ensures
            forall|j: int|
                0 <= j < r@.len() ==> wf_trash_entry(
                    fs@,
                    self.trash_dir_spec(),
                    #[trigger] r@[j].id@,
                ) && r@[j]@ == trash_entry_model(fs@, self.trash_dir_spec(), r@[j].id@),
            forall|id: Seq<char>| #[trigger]
                wf_trash_entry(fs@, self.trash_dir_spec(), id) ==> exists|j: int|
                    0 <= j < r@.len() && r@[j].id@ == id,
            forall|j1: int, j2: int| 0 <= j1 < j2 < r@.len() ==> r@[j1].id@ != r@[j2].id@,
    {
        let ghost td = self.trash_dir_spec();
        let names = fs.children_names(self.trash_dir.as_str());
        let n = names.len();
        let mut out: Vec<TrashItem> = Vec::new();
        let mut i: usize = 0;
        while i < n
            invariant
                0 <= i <= n,
                n == names@.len(),
                fs.wf(),
                td == self.trash_dir_spec(),
                forall|j: int|
                    0 <= j < names@.len() ==> is_valid_name(#[trigger] names@[j]@)
                        && fs@.contains_key(join(td, names@[j]@)),
                forall|j1: int, j2: int| 0 <= j1 < j2 < names@.len() ==> names@[j1]@ != names@[j2]@,
                forall|j: int|
                    0 <= j < out@.len() ==> wf_trash_entry(fs@, td, #[trigger] out@[j].id@)
                        && out@[j]@ == trash_entry_model(fs@, td, out@[j].id@),
                forall|j: int|
                    0 <= j < out@.len() ==> exists|j0: int|
                        0 <= j0 < i && #[trigger] out@[j].id@ == names@[j0]@,
                forall|j0: int|
                    0 <= j0 < i && wf_trash_entry(fs@, td, #[trigger] names@[j0]@) ==> exists|
                        j: int,
                    | 0 <= j < out@.len() && out@[j].id@ == names@[j0]@,
                forall|j1: int, j2: int| 0 <= j1 < j2 < out@.len() ==> out@[j1].id@ != out@[j2].id@,
            decreases n - i,
        {
            let ghost prev = out@;
            let name = names[i].clone();
            match self.read_item(fs, name) {
                Some(item) => {
                    proof {
                        assert forall|j: int| 0 <= j < prev.len() implies prev[j].id@
                            != names@[i as int]@ by {
                            let j0 = choose|j0: int| 0 <= j0 < i && prev[j].id@ == names@[j0]@;
                        }
                    }
                    out.push(item);
                    proof {
                        assert(out@ == prev.push(item));
                        assert(out@[out@.len() - 1].id@ == names@[i as int]@);
                        assert forall|j: int| 0 <= j < out@.len() implies exists|j0: int|
                            0 <= j0 < i + 1 && #[trigger] out@[j].id@ == names@[j0]@ by {
                            if j < prev.len() {
                                assert(out@[j] == prev[j]);
                                let j0 = choose|j0: int| 0 <= j0 < i && prev[j].id@ == names@[j0]@;
                                assert(out@[j].id@ == names@[j0]@);
                            } else {
                                assert(out@[j].id@ == names@[i as int]@);
                            }
                        }
                        assert forall|j0: int|
                            0 <= j0 < i + 1 && wf_trash_entry(
                                fs@,
                                td,
                                #[trigger] names@[j0]@,
                            ) implies exists|j: int|
                            0 <= j < out@.len() && out@[j].id@ == names@[j0]@ by {
                            if j0 < i {
                                let j = choose|j: int|
                                    0 <= j < prev.len() && prev[j].id@ == names@[j0]@;
                                assert(out@[j] == prev[j]);
                                assert(out@[j].id@ == names@[j0]@);
                            } else {
                                assert(out@[out@.len() - 1].id@ == names@[j0]@);
                            }
                        }
                    }
                },
                None => {
                    proof {
                        assert forall|j0: int|
                            0 <= j0 < i + 1 && wf_trash_entry(
                                fs@,
                                td,
                                #[trigger] names@[j0]@,
                            ) implies exists|j: int|
                            0 <= j < out@.len() && out@[j].id@ == names@[j0]@ by {
                            if j0 == i {
                                assert(!wf_trash_entry(fs@, td, names@[j0]@));
                            }
                        }
                    }
                },
            }
            i = i + 1;
        }
        proof {
            assert forall|id: Seq<char>| #[trigger] wf_trash_entry(fs@, td, id) implies exists|
                j: int,
            | 0 <= j < out@.len() && out@[j].id@ == id by {
                lemma_join_child(td, id);
                let j0 = choose|j0: int| 0 <= j0 < names@.len() && join(td, id) == join(
                    td,
                    names@[j0]@,
                );
                lemma_join_injective(td, id, names@[j0]@);
                assert(wf_trash_entry(fs@, td, names@[j0]@));
            }
        }
        out
    }

    /// Read back the entry filed under `name`, or nothing where it is
    /// foreign or corrupt.
    fn read_item(&self, fs: &FsSpace, name: String) -> (r: Option<TrashItem>)
        requires
            fs.wf(),
            is_valid_name(name@),
            fs@.contains_key(join(self.trash_dir_spec(), name@)),
        ensures
            match r {
                Some(item) => wf_trash_entry(fs@, self.trash_dir_spec(), name@) && item.id@
                    == name@ && item@ == trash_entry_model(fs@, self.trash_dir_spec(), name@),
                None => !wf_trash_entry(fs@, self.trash_dir_spec(), name@),
            },
    {
        let ip = join_path(self.trash_dir.as_str(), name.as_str());
        let op = match fs.get_attr_at(ip.as_str(), original_path_attr_str()) {
            Some(v) => v,
            None => {
                return None;
            },
        };
        let dd = match fs.get_attr_at(ip.as_str(), deletion_date_attr_str()) {
            Some(v) => v,
            None => {
                return None;
            },
        };
        let ts = match Timestamp::parse_rfc3339(dd.as_str()) {
            Some(v) => v,
            None => {
                return None;
            },
        };
        Some(TrashItem { id: name, path: ip, original_path: op, deletion_date: ts })
    }

    /// Put the entry filed under `id` back where it came from, or under a
    /// new final name; never overwriting, never creating missing parent
    /// directories, never guessing at an entry without provenance.
    pub fn restore_item_by_id(&self, fs: &mut FsSpace, id: &str, rename: Option<String>) -> (r:
        Result<(), Error>)
        requires
            old(fs).wf(),
        ensures
            final(fs).wf(),
            ({
                let m = old(fs)@;
                let td = self.trash_dir_spec();
                let ip = join(td, id@);
                let ren = match rename {
                    Some(n) => Some(n@),
                    None => None::<Seq<char>>,
                };
                let dest = restore_dest(m, td, id@, ren);
                let has_op = m.contains_key(ip) && m[ip].attrs.contains_key(original_path_attr());
                match r {
                    Ok(()) => m.contains_key(ip) && has_op && !m.contains_key(dest) && parent_ok(
                        m,
                        dest,
                    ) && final(fs)@ == restore_step(m, ip, dest),
                    Err(Error::ItemNotFound(s)) => s@ == id@ && !m.contains_key(ip) && final(fs)@ == m,
                    Err(Error::MissingAttribute { attr, id: rid }) => attr@ == original_path_attr()
                        && rid@ == id@ && m.contains_key(ip) && !m[ip].attrs.contains_key(
                        original_path_attr(),
                    ) && final(fs)@ == m,
                    Err(Error::PathAlreadyExists(p)) => p@ == dest && m.contains_key(ip) && has_op
                        && m.contains_key(dest) && final(fs)@ == m,
                    Err(Error::InvalidOriginalPath(p)) => p@ == dest && m.contains_key(ip) && has_op
                        && !m.contains_key(dest) && !parent_ok(m, dest) && final(fs)@ == m,
                    Err(_) => false,
                }
            }),
    {
        let ip = join_path(self.trash_dir.as_str(), id);
        if !fs.exists_at(ip.as_str()) {
            return Err(Error::ItemNotFound(String::from_str(id)));
        }
        let orig = match fs.get_attr_at(ip.as_str(), original_path_attr_str()) {
            Some(v) => v,
            None => {
                return Err(
                    Error::MissingAttribute {
                        attr: String::from_str(original_path_attr_str()),
                        id: String::from_str(id),
                    },
                );
            },
        };
        let dest = match &rename {
            Some(n) => with_file_name_exec(orig.as_str(), n.as_str()),
            None => orig,
        };
        if fs.exists_at(dest.as_str()) {
            return Err(Error::PathAlreadyExists(dest));
        }
        let par = parent_path(dest.as_str());
        let par_is_root = {
            proof {
                reveal_strlit("/");
                assert("/"@ =~= seq!['/']);
            }
            str_eq(par.as_str(), "/")
        };
        if !par_is_root && !fs.exists_at(par.as_str()) {
            return Err(Error::InvalidOriginalPath(dest));
        }
        // the move first; clearing stale attributes can be redone after a
        // crash, a lost entry cannot
        fs.rename_entry(ip.as_str(), dest.as_str());
        match fs.remove_attr_at(dest.as_str(), original_path_attr_str()) {
            Ok(()) => {},
            Err(_) => {
                proof {
                    assert(false);
                }
            },
        }
        let has_dd = fs.get_attr_at(dest.as_str(), deletion_date_attr_str()).is_some();
        if has_dd {
            match fs.remove_attr_at(dest.as_str(), deletion_date_attr_str()) {
                Ok(()) => {},
                Err(_) => {
                    proof {
                        assert(false);
                    }
                },
            }
        }
        proof {
            let m = old(fs)@;
            let td = self.trash_dir_spec();
            let ipv = join(td, id@);
            let ren = match rename {
                Some(n) => Some(n@),
                None => None::<Seq<char>>,
            };
            let destv = restore_dest(m, td, id@, ren);
            assert(dest@ == destv);
            assert(fs@ =~~= restore_step(m, ipv, destv));
        }
        Ok(())
    }

    /// Permanently reclaim every well-formed trash entry that is due:
    /// every one, when `immediate` is set, and otherwise those whose
    /// deletion date lies strictly before `now`. Foreign entries are
    /// never touched; a directory entry goes with everything below it.
    /// This is the one irreversible operation.
    pub fn clean_trash(&self, fs: &mut FsSpace, immediate: bool, now: Timestamp) -> (r: Result<
        (),
        Error,
    >)
        requires
            old(fs).wf(),
        ensures
            final(fs).wf(),
            r is Ok,
            forall|k: Seq<char>| #[trigger]
                final(fs)@.contains_key(k) <==> old(fs)@.contains_key(k) && !doomed(
                    old(fs)@,
                    self.trash_dir_spec(),
                    immediate,
                    now.secs as int,
                    k,
                ),
            forall|k: Seq<char>| #[trigger] final(fs)@.contains_key(k) ==> final(fs)@[k] == old(fs)@[k],
    {
        let ghost td = self.trash_dir_spec();
        let ghost m0 = old(fs)@;
        let items = self.list_items(fs);
        let n = items.len();
        let mut i: usize = 0;
        while i < n
            invariant
                0 <= i <= n,
                n == items@.len(),
                fs.wf(),
                td == self.trash_dir_spec(),
                forall|j: int|
                    0 <= j < items@.len() ==> wf_trash_entry(m0, td, #[trigger] items@[j].id@)
                        && items@[j]@ == trash_entry_model(m0, td, items@[j].id@),
                forall|id: Seq<char>| #[trigger]
                    wf_trash_entry(m0, td, id) ==> exists|j: int|
                        0 <= j < items@.len() && items@[j].id@ == id,
                forall|j1: int, j2: int| 0 <= j1 < j2 < items@.len() ==> items@[j1].id@
                    != items@[j2].id@,
                forall|k: Seq<char>| #[trigger]
                    fs@.contains_key(k) <==> m0.contains_key(k) && !removed_by(
                        items@,
                        i as int,
                        td,
                        immediate,
                        now.secs as int,
                        k,
                    ),
                forall|k: Seq<char>| #[trigger] fs@.contains_key(k) ==> fs@[k] == m0[k],
            decreases n - i,
        {
            let due = immediate || items[i].deletion_date.secs < now.secs;
            let ghost before = fs@;
            if due {
                self.delete_item_permanently(fs, &items[i]);
            }
            proof {
                assert forall|k: Seq<char>| #[trigger]
                    fs@.contains_key(k) <==> m0.contains_key(k) && !removed_by(
                        items@,
                        i + 1,
                        td,
                        immediate,
                        now.secs as int,
                        k,
                    ) by {
                    if fs@.contains_key(k) {
                        assert(before.contains_key(k));
                    }
                    if m0.contains_key(k) && !removed_by(
                        items@,
                        i + 1,
                        td,
                        immediate,
                        now.secs as int,
                        k,
                    ) {
                        assert(!removed_by(items@, i as int, td, immediate, now.secs as int, k));
                        assert(before.contains_key(k));
                        if due {
                            assert(!(k == items@[i as int]@.path || is_under(
                                k,
                                items@[i as int]@.path,
                            )));
                        }
                    }
                    if fs@.contains_key(k) && removed_by(
                        items@,
                        i + 1,
                        td,
                        immediate,
                        now.secs as int,
                        k,
                    ) {
                        let j = choose|j: int|
                            0 <= j < i + 1 && (immediate || items@[j]@.deletion_secs
                                < now.secs as int) && (k == items@[j]@.path || is_under(
                                k,
                                items@[j]@.path,
                            ));
                        assert(j == i);
                        assert(due);
                        assert(false);
                    }
                }
            }
            i = i + 1;
        }
        proof {
            assert forall|k: Seq<char>| #[trigger]
                fs@.contains_key(k) <==> m0.contains_key(k) && !doomed(
                    m0,
                    td,
                    immediate,
                    now.secs as int,
                    k,
                ) by {
                if m0.contains_key(k) {
                    if removed_by(items@, n as int, td, immediate, now.secs as int, k) {
                        let j = choose|j: int|
                            0 <= j < n && (immediate || items@[j]@.deletion_secs < now.secs as int)
                                && (k == items@[j]@.path || is_under(k, items@[j]@.path));
                        assert(eligible(m0, td, items@[j].id@, immediate, now.secs as int));
                        assert(doomed(m0, td, immediate, now.secs as int, k));
                    }
                    if doomed(m0, td, immediate, now.secs as int, k) {
                        let id = choose|id: Seq<char>|
                            eligible(m0, td, id, immediate, now.secs as int) && (k == join(td, id)
                                || is_under(k, join(td, id)));
                        let j = choose|j: int| 0 <= j < items@.len() && items@[j].id@ == id;
                        assert(k == items@[j]@.path || is_under(k, items@[j]@.path));
                        assert(removed_by(items@, n as int, td, immediate, now.secs as int, k));
                    }
                }
            }
        }
        Ok(())
    }

    /// Remove one trashed entry outright, with everything below it.
    fn delete_item_permanently(&self, fs: &mut FsSpace, item: &TrashItem)
        requires
            old(fs).wf(),
        ensures
            final(fs).wf(),
            forall|k: Seq<char>| #[trigger]
                final(fs)@.contains_key(k) <==> old(fs)@.contains_key(k) && !(k == item.path@ || is_under(
                    k,
                    item.path@,
                )),
            forall|k: Seq<char>| #[trigger] final(fs)@.contains_key(k) ==> final(fs)@[k] == old(fs)@[k],
    {
        fs.remove_subtree(item.path.as_str());
    }
}

/// Did one of the first `upto` listed items take the key `k` with it?
pub open spec fn removed_by(
    items: Seq<TrashItem>,
    upto: int,
    td: Seq<char>,
    immediate: bool,
    now: int,
    k: Seq<char>,
) -> bool {
    exists|j: int|
        0 <= j < upto && (immediate || items[j]@.deletion_secs < now) && (k == items[j]@.path
            || is_under(k, items[j]@.path))
}

/// The paths of a batch, as text.
pub open spec fn path_views(paths: Seq<String>) -> Seq<Seq<char>> {
    paths.map_values(|p: String| p@)
}

/// A failure reported because the freshly drawn id collided with an
/// existing entry in the trash directory: the error names an occupied
/// path directly under the trash directory with a 36-character name.
pub open spec fn collision_error(e: Error, m: Map<Seq<char>, EntryModel>, td: Seq<char>) -> bool {
    match e {
        Error::PathAlreadyExists(tp) => m.contains_key(tp@) && (exists|idv: Seq<char>|
            is_valid_name(idv) && idv.len() == 36 && tp@ == join(td, idv)),
        _ => false,
    }
}

/// The batch relation of `trash_items`: each input path in turn, in
/// order, either was absent in the state its turn saw (one failure
/// carrying the not-found error), collided on its freshly drawn id (one
/// failure naming the occupied trash path), or was filed in the trash
/// under a fresh id with a deletion-date attribute that reads back as
/// `dsecs` (one record). The records and failures interleave to exactly
/// the input paths, and `m2` is the state all the steps leave behind.
pub open spec fn trash_batch(
    m: Map<Seq<char>, EntryModel>,
    td: Seq<char>,
    paths: Seq<Seq<char>>,
    dsecs: int,
    trashed: Seq<TrashRecord>,
    failures: Seq<TrashFailure>,
    m2: Map<Seq<char>, EntryModel>,
) -> bool
    decreases paths.len(),
{
    if paths.len() == 0 {
        trashed.len() == 0 && failures.len() == 0 && m2 == m
    } else {
        let p = paths[0];
        if !m.contains_key(p) {
            &&& failures.len() > 0
            &&& failures[0].path@ == p
            &&& failures[0].error is Io
            &&& trash_batch(m, td, paths.drop_first(), dsecs, trashed, failures.drop_first(), m2)
        } else {
            ||| {
                &&& trashed.len() > 0
                &&& trashed[0].path@ == p
                &&& is_valid_name(trashed[0].id@)
                &&& !m.contains_key(join(td, trashed[0].id@))
                &&& exists|ds: Seq<char>|
                    parse_rfc3339_spec(ds) == Some(dsecs) && trash_batch(
                        trash_step(m, td, p, trashed[0].id@, ds),
                        td,
                        paths.drop_first(),
                        dsecs,
                        trashed.drop_first(),
                        failures,
                        m2,
                    )
            }
            ||| {
                &&& failures.len() > 0
                &&& failures[0].path@ == p
                &&& collision_error(failures[0].error, m, td)
                &&& trash_batch(m, td, paths.drop_first(), dsecs, trashed, failures.drop_first(), m2)
            }
        }
    }
}

proof fn lemma_trash_batch_push_ok(
    m: Map<Seq<char>, EntryModel>,
    td: Seq<char>,
    ps: Seq<Seq<char>>,
    dsecs: int,
    trashed: Seq<TrashRecord>,
    failures: Seq<TrashFailure>,
    m2: Map<Seq<char>, EntryModel>,
    rec: TrashRecord,
    ds: Seq<char>,
)
    requires
        trash_batch(m, td, ps, dsecs, trashed, failures, m2),
        m2.contains_key(rec.path@),
        is_valid_name(rec.id@),
        !m2.contains_key(join(td, rec.id@)),
        parse_rfc3339_spec(ds) == Some(dsecs),
    ensures
        trash_batch(
            m,
            td,
            ps.push(rec.path@),
            dsecs,
            trashed.push(rec),
            failures,
            trash_step(m2, td, rec.path@, rec.id@, ds),
        ),
    decreases ps.len(),
{
    let ps2 = ps.push(rec.path@);
    let m3 = trash_step(m2, td, rec.path@, rec.id@, ds);
    if ps.len() == 0 {
        assert(m2 == m);
        assert(ps2[0] == rec.path@);
        assert(ps2.drop_first() =~= Seq::<Seq<char>>::empty());
        assert(trashed.push(rec)[0] == rec);
        assert(trashed.push(rec).drop_first() =~= Seq::<TrashRecord>::empty());
        assert(trash_batch(trash_step(m, td, rec.path@, rec.id@, ds), td, ps2.drop_first(), dsecs,
            trashed.push(rec).drop_first(), failures, m3));
    } else {
        let p0 = ps[0];
        assert(ps2[0] == p0);
        assert(ps2.drop_first() =~= ps.drop_first().push(rec.path@));
        if !m.contains_key(p0) {
            lemma_trash_batch_push_ok(m, td, ps.drop_first(), dsecs, trashed,
                failures.drop_first(), m2, rec, ds);
        } else if trashed.len() > 0 && trashed[0].path@ == p0 && is_valid_name(trashed[0].id@)
            && !m.contains_key(join(td, trashed[0].id@)) && (exists|ds0: Seq<char>|
            parse_rfc3339_spec(ds0) == Some(dsecs) && trash_batch(
                trash_step(m, td, p0, trashed[0].id@, ds0),
                td,
                ps.drop_first(),
                dsecs,
                trashed.drop_first(),
                failures,
                m2,
            )) {
            let ds0 = choose|ds0: Seq<char>|
                parse_rfc3339_spec(ds0) == Some(dsecs) && trash_batch(
                    trash_step(m, td, p0, trashed[0].id@, ds0),
                    td,
                    ps.drop_first(),
                    dsecs,
                    trashed.drop_first(),
                    failures,
                    m2,
                );
            lemma_trash_batch_push_ok(trash_step(m, td, p0, trashed[0].id@, ds0), td,
                ps.drop_first(), dsecs, trashed.drop_first(), failures, m2, rec, ds);
            assert(trashed.push(rec)[0] == trashed[0]);
            assert(trashed.push(rec).drop_first() =~= trashed.drop_first().push(rec));
            assert(parse_rfc3339_spec(ds0) == Some(dsecs) && trash_batch(
                trash_step(m, td, p0, trashed.push(rec)[0].id@, ds0),
                td,
                ps2.drop_first(),
                dsecs,
                trashed.push(rec).drop_first(),
                failures,
                m3,
            ));
        } else {
            lemma_trash_batch_push_ok(m, td, ps.drop_first(), dsecs, trashed,
                failures.drop_first(), m2, rec, ds);
        }
    }
}

proof fn lemma_trash_batch_push_fail(
    m: Map<Seq<char>, EntryModel>,
    td: Seq<char>,
    ps: Seq<Seq<char>>,
    dsecs: int,
    trashed: Seq<TrashRecord>,
    failures: Seq<TrashFailure>,
    m2: Map<Seq<char>, EntryModel>,
    f: TrashFailure,
)
    requires
        trash_batch(m, td, ps, dsecs, trashed, failures, m2),
        (!m2.contains_key(f.path@) && f.error is Io) || (m2.contains_key(f.path@)
            && collision_error(f.error, m2, td)),
    ensures
        trash_batch(m, td, ps.push(f.path@), dsecs, trashed, failures.push(f), m2),
    decreases ps.len(),
{
    let ps2 = ps.push(f.path@);
    if ps.len() == 0 {
        assert(m2 == m);
        assert(ps2[0] == f.path@);
        assert(ps2.drop_first() =~= Seq::<Seq<char>>::empty());
        assert(failures.push(f)[0] == f);
        assert(failures.push(f).drop_first() =~= Seq::<TrashFailure>::empty());
        if !m.contains_key(f.path@) {
            assert(f.error is Io);
        } else {
            assert(collision_error(f.error, m, td));
        }
        assert(trash_batch(m, td, ps2.drop_first(), dsecs, trashed, failures.push(
            f,
        ).drop_first(), m2));
    } else {
        let p0 = ps[0];
        assert(ps2[0] == p0);
        assert(ps2.drop_first() =~= ps.drop_first().push(f.path@));
        if !m.contains_key(p0) {
            lemma_trash_batch_push_fail(m, td, ps.drop_first(), dsecs, trashed,
                failures.drop_first(), m2, f);
            assert(failures.push(f)[0] == failures[0]);
            assert(failures.push(f).drop_first() =~= failures.drop_first().push(f));
            assert(trash_batch(m, td, ps2.drop_first(), dsecs, trashed, failures.push(
                f,
            ).drop_first(), m2));
        } else if trashed.len() > 0 && trashed[0].path@ == p0 && is_valid_name(trashed[0].id@)
            && !m.contains_key(join(td, trashed[0].id@)) && (exists|ds0: Seq<char>|
            parse_rfc3339_spec(ds0) == Some(dsecs) && trash_batch(
                trash_step(m, td, p0, trashed[0].id@, ds0),
                td,
                ps.drop_first(),
                dsecs,
                trashed.drop_first(),
                failures,
                m2,
            )) {
            let ds0 = choose|ds0: Seq<char>|
                parse_rfc3339_spec(ds0) == Some(dsecs) && trash_batch(
                    trash_step(m, td, p0, trashed[0].id@, ds0),
                    td,
                    ps.drop_first(),
                    dsecs,
                    trashed.drop_first(),
                    failures,
                    m2,
                );
            lemma_trash_batch_push_fail(trash_step(m, td, p0, trashed[0].id@, ds0), td,
                ps.drop_first(), dsecs, trashed.drop_first(), failures, m2, f);
            assert(parse_rfc3339_spec(ds0) == Some(dsecs) && trash_batch(
                trash_step(m, td, p0, trashed[0].id@, ds0),
                td,
                ps2.drop_first(),
                dsecs,
                trashed.drop_first(),
                failures.push(f),
                m2,
            ));
        } else {
            lemma_trash_batch_push_fail(m, td, ps.drop_first(), dsecs, trashed,
                failures.drop_first(), m2, f);
            assert(failures.push(f)[0] == failures[0]);
            assert(failures.push(f).drop_first() =~= failures.drop_first().push(f));
            assert(collision_error(failures[0].error, m, td));
            assert(trash_batch(m, td, ps2.drop_first(), dsecs, trashed, failures.push(
                f,
            ).drop_first(), m2));
        }
    }
}

} // verus!
