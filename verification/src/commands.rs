//! The command surface: one argument bundle and one handler per command.
//! Handlers decide; the binary around the library parses arguments,
//! performs the real filesystem calls, and renders results.

use vstd::prelude::*;
use vstd::seq_lib::group_seq_properties;
use crate::config::Config;
use crate::digits::{dec_digits, parse_u32, parse_u32_spec};
use crate::error::Error;
use crate::fsmodel::FsSpace;
use crate::paths::is_under;
use crate::time::{Timestamp, MAX_EPOCH_SECS};
use crate::trash::{
    doomed, path_views, trash_batch, trash_entry_model, wf_trash_entry, TrashItem, TrashManager,
    TrashReport,
};
use crate::xattr::ExtendedAttributes;

verus! {

broadcast use group_seq_properties;

/// Arguments of the `clean` command.
pub struct CleanArgs {
    pub immediate: bool,
}

/// Arguments of the `restore` command.
pub struct RestoreArgs {
    pub id: String,
    pub rename: Option<String>,
}

/// Arguments of the `list` command.
pub struct ListArgs {
    pub filter_path: Option<String>,
}

/// Arguments of the `rm` command.
pub struct RmArgs {
    pub paths: Vec<String>,
    pub immediate: bool,
    pub auto_clean: bool,
    pub grace_period_in_days: Option<u32>,
}

/// Arguments of the `config` command.
pub struct ConfigArgs {
    pub action: ConfigAction,
}

pub enum ConfigAction {
    Show { key: ConfigKey },
    Assign { key: ConfigKey, value: String },
}

pub enum ConfigKey {
    TrashDir,
    GracePeriod,
}

/// Reclaim what is due: everything, with the immediate flag, and expired
/// entries otherwise.
pub fn handle_clean(
    trash_manager: &TrashManager,
    fs: &mut FsSpace,
    args: CleanArgs,
    now: Timestamp,
) -> (r: Result<(), Error>)
    requires
        old(fs).wf(),
    ensures
        final(fs).wf(),
        r is Ok,
        forall|k: Seq<char>| #[trigger]
            final(fs)@.contains_key(k) <==> old(fs)@.contains_key(k) && !doomed(
                old(fs)@,
                trash_manager.trash_dir_spec(),
                args.immediate,
                now.secs as int,
                k,
            ),
        forall|k: Seq<char>| #[trigger]
            final(fs)@.contains_key(k) ==> final(fs)@[k] == old(fs)@[k],
{
    trash_manager.clean_trash(fs, args.immediate, now)
}

/// Put one trashed entry back, optionally under a new final name.
pub fn handle_restore(trash_manager: &TrashManager, fs: &mut FsSpace, args: RestoreArgs) -> (r:
    Result<(), Error>)
    requires
        old(fs).wf(),
    ensures
        final(fs).wf(),
        ({
            let m = old(fs)@;
            let td = trash_manager.trash_dir_spec();
            let ip = crate::paths::join(td, args.id@);
            let ren = match args.rename {
                Some(n) => Some(n@),
                None => None::<Seq<char>>,
            };
            let dest = crate::trash::restore_dest(m, td, args.id@, ren);
            let has_op = m.contains_key(ip) && m[ip].attrs.contains_key(
                crate::trash::original_path_attr(),
            );
            match r {
                Ok(()) => m.contains_key(ip) && has_op && !m.contains_key(dest)
                    && crate::trash::parent_ok(m, dest) && final(fs)@ == crate::trash::restore_step(
                    m,
                    ip,
                    dest,
                ),
                Err(Error::ItemNotFound(s)) => s@ == args.id@ && !m.contains_key(ip) && final(fs)@
                    == m,
                Err(Error::MissingAttribute { attr, id: rid }) => attr@
                    == crate::trash::original_path_attr() && rid@ == args.id@ && m.contains_key(ip)
                    && !m[ip].attrs.contains_key(crate::trash::original_path_attr()) && final(fs)@
                    == m,
                Err(Error::PathAlreadyExists(p)) => p@ == dest && m.contains_key(ip) && has_op
                    && m.contains_key(dest) && final(fs)@ == m,
                Err(Error::InvalidOriginalPath(p)) => p@ == dest && m.contains_key(ip) && has_op
                    && !m.contains_key(dest) && !crate::trash::parent_ok(m, dest) && final(fs)@
                    == m,
                Err(_) => false,
            }
        }),
{
    trash_manager.restore_item_by_id(fs, args.id.as_str(), args.rename)
}

/// Does `hay` contain `needle` as a contiguous run?
pub open spec fn contains_seq(hay: Seq<char>, needle: Seq<char>) -> bool {
    exists|i: int|
        0 <= i <= hay.len() - needle.len() && #[trigger] hay.subrange(i, i + needle.len())
            == needle
}

/// Does the item pass the optional original-path substring filter?
pub open spec fn passes_filter(orig: Seq<char>, filter: Option<Seq<char>>) -> bool {
    match filter {
        None => true,
        Some(f) => contains_seq(orig, f),
    }
}

/// Substring search, as `contains_seq` names it.
pub fn contains_substr(hay: &str, needle: &str) -> (r: bool)
    ensures
        r == contains_seq(hay@, needle@),
{
    let nh = hay.unicode_len();
    let nn = needle.unicode_len();
    if nn > nh {
        return false;
    }
    if nn == 0 {
        proof {
            assert(hay@.subrange(0, 0 + needle@.len() as int) =~= needle@);
            assert(contains_seq(hay@, needle@));
        }
        return true;
    }
    let mut i: usize = 0;
    while i <= nh - nn
        invariant
            0 <= i <= nh - nn + 1,
            0 < nn <= nh,
            nh == hay@.len(),
            nn == needle@.len(),
            forall|i0: int|
                0 <= i0 < i ==> #[trigger] hay@.subrange(i0, i0 + nn) != needle@,
        decreases nh - nn - i + 1,
    {
        let mut j: usize = 0;
        let mut ok = true;
        while j < nn && ok
            invariant
                0 <= j <= nn,
                i + nn <= nh,
                nh == hay@.len(),
                nn == needle@.len(),
                ok ==> forall|j0: int| 0 <= j0 < j ==> hay@[i + j0] == needle@[j0],
                !ok ==> hay@.subrange(i as int, i + nn) != needle@,
            decreases nn - j, (if ok {
                1int
            } else {
                0int
            }),
        {
            if hay.get_char(i + j) != needle.get_char(j) {
                proof {
                    assert(hay@.subrange(i as int, i + nn)[j as int] != needle@[j as int]);
                }
                ok = false;
            } else {
                j = j + 1;
            }
        }
        if ok {
            proof {
                assert(hay@.subrange(i as int, i + nn) =~= needle@);
            }
            return true;
        }
        i = i + 1;
    }
    proof {
        assert forall|i0: int|
            0 <= i0 <= hay@.len() - needle@.len() implies #[trigger] hay@.subrange(
            i0,
            i0 + nn as int,
        ) != needle@ by {
            assert(i0 < i);
        }
    }
    false
}

/// Is the listed sequence in deletion-date order?
pub open spec fn sorted_by_deletion(s: Seq<TrashItem>) -> bool {
    forall|a: int, b: int| 0 <= a <= b < s.len() ==> s[a]@.deletion_secs <= s[b]@.deletion_secs
}

/// Sort listed items by deletion date, keeping exactly the same items.
fn sort_items(items: Vec<TrashItem>) -> (r: Vec<TrashItem>)
    ensures
        r@.to_multiset() == items@.to_multiset(),
        sorted_by_deletion(r@),
        r@.len() == items@.len(),
{
    let mut rest = items;
    let mut out: Vec<TrashItem> = Vec::new();
    let ghost orig = rest@;
    while rest.len() > 0
        invariant
            out@.to_multiset().add(rest@.to_multiset()) == orig.to_multiset(),
            out@.len() + rest@.len() == orig.len(),
            sorted_by_deletion(out@),
            forall|a: int, b: int|
                0 <= a < out@.len() && 0 <= b < rest@.len() ==> out@[a]@.deletion_secs
                    <= rest@[b]@.deletion_secs,
        decreases rest@.len(),
    {
        let n = rest.len();
        let mut mi: usize = 0;
        let mut k: usize = 1;
        while k < n
            invariant
                0 <= mi < k <= n,
                n == rest@.len(),
                forall|a: int|
                    0 <= a < k ==> rest@[mi as int]@.deletion_secs <= rest@[a]@.deletion_secs,
            decreases n - k,
        {
            if rest[k].deletion_date.secs < rest[mi].deletion_date.secs {
                mi = k;
            }
            k = k + 1;
        }
        let ghost prev_out = out@;
        let ghost prev_rest = rest@;
        let x = rest.remove(mi);
        out.push(x);
        proof {
            prev_rest.to_multiset_ensures();
            prev_out.to_multiset_ensures();
            assert(rest@.to_multiset() =~= prev_rest.to_multiset().remove(prev_rest[mi as int]));
            assert(out@.to_multiset() =~= prev_out.to_multiset().insert(prev_rest[mi as int]));
            assert(out@.to_multiset().add(rest@.to_multiset()) =~= prev_out.to_multiset().add(
                prev_rest.to_multiset(),
            ));
            assert forall|a: int, b: int|
                0 <= a < out@.len() && 0 <= b < rest@.len() implies out@[a]@.deletion_secs
                <= rest@[b]@.deletion_secs by {
                let b0 = if b < mi {
                    b
                } else {
                    b + 1
                };
                assert(rest@[b] == prev_rest[b0]);
                if a < prev_out.len() {
                    assert(out@[a] == prev_out[a]);
                } else {
                    assert(out@[a] == prev_rest[mi as int]);
                }
            }
        }
    }
    out
}

/// The trash's current contents for presentation: only well-formed
/// entries, only those whose original path passes the optional substring
/// filter, in deletion-date order. Rendering is the caller's concern.
pub fn handle_list(
    trash_manager: &TrashManager,
    fs: &FsSpace,
    args: ListArgs,
) -> (r: Vec<TrashItem>)
    requires
        fs.wf(),
    ensures
        ({
            let td = trash_manager.trash_dir_spec();
            let fil = match args.filter_path {
                Some(f) => Some(f@),
                None => None::<Seq<char>>,
            };
            &&& forall|j: int|
                0 <= j < r@.len() ==> wf_trash_entry(fs@, td, #[trigger] r@[j].id@) && r@[j]@
                    == trash_entry_model(fs@, td, r@[j].id@) && passes_filter(
                    r@[j]@.original_path,
                    fil,
                )
            &&& forall|id: Seq<char>| #[trigger]
                wf_trash_entry(fs@, td, id) && passes_filter(
                    trash_entry_model(fs@, td, id).original_path,
                    fil,
                ) ==> exists|j: int| 0 <= j < r@.len() && r@[j].id@ == id
            &&& sorted_by_deletion(r@)
        }),
{
    let ghost td = trash_manager.trash_dir_spec();
    let ghost fil = match &args.filter_path {
        Some(f) => Some(f@),
        None => None::<Seq<char>>,
    };
    let items = trash_manager.list_items(fs);
    let n = items.len();
    let mut kept: Vec<TrashItem> = Vec::new();
    let mut i: usize = 0;
    while i < n
        invariant
            0 <= i <= n,
            n == items@.len(),
            fs.wf(),
            td == trash_manager.trash_dir_spec(),
            fil == (match args.filter_path {
                Some(f) => Some(f@),
                None => None::<Seq<char>>,
            }),
            forall|j: int|
                0 <= j < items@.len() ==> wf_trash_entry(fs@, td, #[trigger] items@[j].id@)
                    && items@[j]@ == trash_entry_model(fs@, td, items@[j].id@),
            forall|id: Seq<char>| #[trigger]
                wf_trash_entry(fs@, td, id) ==> exists|j: int|
                    0 <= j < items@.len() && items@[j].id@ == id,
            forall|j: int|
                0 <= j < kept@.len() ==> wf_trash_entry(fs@, td, #[trigger] kept@[j].id@)
                    && kept@[j]@ == trash_entry_model(fs@, td, kept@[j].id@) && passes_filter(
                    kept@[j]@.original_path,
                    fil,
                ),
            forall|j0: int|
                0 <= j0 < i && passes_filter(
                    (#[trigger] items@[j0])@.original_path,
                    fil,
                ) ==> kept@.contains(items@[j0]),
        decreases n - i,
    {
        let ghost prev = kept@;
        let keep = match &args.filter_path {
            None => true,
            Some(f) => contains_substr(items[i].original_path.as_str(), f.as_str()),
        };
        if keep {
            let item = clone_item(&items[i]);
            kept.push(item);
            proof {
                assert(kept@ == prev.push(items@[i as int]));
                assert(kept@[kept@.len() - 1] == items@[i as int]);
                assert forall|j0: int|
                    0 <= j0 < i + 1 && passes_filter(
                        (#[trigger] items@[j0])@.original_path,
                        fil,
                    ) implies kept@.contains(items@[j0]) by {
                    if j0 < i {
                        let j = choose|j: int| 0 <= j < prev.len() && prev[j] == items@[j0];
                        assert(kept@[j] == items@[j0]);
                    } else {
                        assert(kept@[kept@.len() - 1] == items@[j0]);
                    }
                }
            }
        }
        i = i + 1;
    }
    let ghost keptv = kept@;
    let out = sort_items(kept);
    proof {
        keptv.to_multiset_ensures();
        out@.to_multiset_ensures();
        assert forall|j: int|
            0 <= j < out@.len() implies wf_trash_entry(fs@, td, #[trigger] out@[j].id@) && out@[j]@
            == trash_entry_model(fs@, td, out@[j].id@) && passes_filter(
            out@[j]@.original_path,
            fil,
        ) by {
            assert(out@.to_multiset().contains(out@[j]));
            assert(keptv.contains(out@[j]));
            let j0 = choose|j0: int| 0 <= j0 < keptv.len() && keptv[j0] == out@[j];
        }
        assert forall|id: Seq<char>| #[trigger]
            wf_trash_entry(fs@, td, id) && passes_filter(
                trash_entry_model(fs@, td, id).original_path,
                fil,
            ) implies exists|j: int| 0 <= j < out@.len() && out@[j].id@ == id by {
            let j0 = choose|j0: int| 0 <= j0 < items@.len() && items@[j0].id@ == id;
            assert(keptv.contains(items@[j0]));
            assert(out@.to_multiset().contains(items@[j0]));
            assert(out@.contains(items@[j0]));
            let j = choose|j: int| 0 <= j < out@.len() && out@[j] == items@[j0];
            assert(out@[j].id@ == id);
        }
    }
    out
}

/// A fresh item with the same fields.
fn clone_item(item: &TrashItem) -> (r: TrashItem)
    ensures
        r == *item,
{
    TrashItem {
        id: item.id.clone(),
        path: item.path.clone(),
        original_path: item.original_path.clone(),
        deletion_date: item.deletion_date,
    }
}

/// Remove each named entry outright, with everything below it; a missing
/// path is skipped, never an error.
pub fn delete_paths(fs: &mut FsSpace, paths: &Vec<String>) -> (r: Result<(), Error>)
    requires
        old(fs).wf(),
    ensures
        final(fs).wf(),
        r is Ok,
        forall|k: Seq<char>| #[trigger]
            final(fs)@.contains_key(k) <==> old(fs)@.contains_key(k) && !(exists|j: int|
                0 <= j < paths@.len() && old(fs)@.contains_key(#[trigger] paths@[j]@) && (k
                    == paths@[j]@ || is_under(k, paths@[j]@))),
        forall|k: Seq<char>| #[trigger]
            final(fs)@.contains_key(k) ==> final(fs)@[k] == old(fs)@[k],
{
    let n = paths.len();
    let mut i: usize = 0;
    while i < n
        invariant
            0 <= i <= n,
            n == paths@.len(),
            fs.wf(),
            forall|k: Seq<char>| #[trigger]
                fs@.contains_key(k) <==> old(fs)@.contains_key(k) && !(exists|j: int|
                    0 <= j < i && old(fs)@.contains_key(#[trigger] paths@[j]@) && (k == paths@[j]@
                        || is_under(k, paths@[j]@))),
            forall|k: Seq<char>| #[trigger] fs@.contains_key(k) ==> fs@[k] == old(fs)@[k],
        decreases n - i,
    {
        let ghost before = fs@;
        if fs.exists_at(paths[i].as_str()) {
            fs.remove_subtree(paths[i].as_str());
        }
        proof {
            let pv = paths@[i as int]@;
            assert forall|k: Seq<char>| #[trigger]
                fs@.contains_key(k) <==> old(fs)@.contains_key(k) && !(exists|j: int|
                    0 <= j < i + 1 && old(fs)@.contains_key(#[trigger] paths@[j]@) && (k
                        == paths@[j]@ || is_under(k, paths@[j]@))) by {
                if fs@.contains_key(k) {
                    assert(before.contains_key(k));
                    if exists|j: int|
                        0 <= j < i + 1 && old(fs)@.contains_key(#[trigger] paths@[j]@) && (k
                            == paths@[j]@ || is_under(k, paths@[j]@)) {
                        let j = choose|j: int|
                            0 <= j < i + 1 && old(fs)@.contains_key(#[trigger] paths@[j]@) && (k
                                == paths@[j]@ || is_under(k, paths@[j]@));
                        assert(j == i);
                        if before.contains_key(pv) {
                            assert(false);
                        } else {
                            let j2 = choose|j2: int|
                                0 <= j2 < i && old(fs)@.contains_key(#[trigger] paths@[j2]@) && (pv
                                    == paths@[j2]@ || is_under(pv, paths@[j2]@));
                            if pv == paths@[j2]@ {
                            } else if k == pv {
                            } else {
                                crate::paths::lemma_under_trans(k, pv, paths@[j2]@);
                            }
                            assert(!before.contains_key(k));
                            assert(false);
                        }
                    }
                }
                if old(fs)@.contains_key(k) && !(exists|j: int|
                    0 <= j < i + 1 && old(fs)@.contains_key(#[trigger] paths@[j]@) && (k
                        == paths@[j]@ || is_under(k, paths@[j]@))) {
                    assert(before.contains_key(k));
                    if before.contains_key(pv) {
                        assert(old(fs)@.contains_key(pv));
                        assert(!(k == pv || is_under(k, pv)));
                    }
                }
            }
        }
        i = i + 1;
    }
    Ok(())
}

/// What a purge without the immediate flag leaves of `mid`: exactly the
/// keys not doomed, with their entries intact.
pub open spec fn purge_relation(
    mid: Map<Seq<char>, crate::fsmodel::EntryModel>,
    post: Map<Seq<char>, crate::fsmodel::EntryModel>,
    td: Seq<char>,
    now: int,
) -> bool {
    (forall|k: Seq<char>| #[trigger]
        post.contains_key(k) <==> mid.contains_key(k) && !doomed(mid, td, false, now, k)) && (
    forall|k: Seq<char>| #[trigger] post.contains_key(k) ==> post[k] == mid[k])
}

/// The deletion date `rm` stamps: now plus the grace period, taken from
/// the arguments where given and from the configuration otherwise.
pub open spec fn rm_grace_days(config: &Config, args: &RmArgs) -> u32 {
    match args.grace_period_in_days {
        Some(d) => d,
        None => config.grace_spec(),
    }
}

/// Remove paths: outright with the immediate flag, into the trash
/// otherwise, optionally reclaiming expired entries afterwards. Each
/// path's failure is reported and never aborts the rest.
pub fn handle_rm(
    config: &Config,
    trash_manager: &TrashManager,
    fs: &mut FsSpace,
    args: &RmArgs,
    now: Timestamp,
) -> (r: Result<TrashReport, Error>)
    requires
        old(fs).wf(),
        now.valid(),
        now.secs + rm_grace_days(config, args) * 86400 <= MAX_EPOCH_SECS,
    ensures
        final(fs).wf(),
        r is Ok,
        args.immediate ==> forall|k: Seq<char>| #[trigger]
            final(fs)@.contains_key(k) <==> old(fs)@.contains_key(k) && !(exists|j: int|
                0 <= j < args.paths@.len() && old(fs)@.contains_key(#[trigger] args.paths@[j]@) && (
                k == args.paths@[j]@ || is_under(k, args.paths@[j]@))),
        !args.immediate ==> ({
            let dsecs = now.secs + rm_grace_days(config, args) * 86400;
            match r {
                Ok(report) => {
                    &&& report.trashed@.len() + report.failures@.len() == args.paths@.len()
                    &&& exists|mid: Map<Seq<char>, crate::fsmodel::EntryModel>|
                        #![trigger mid.dom()]
                        {
                            &&& trash_batch(
                                old(fs)@,
                                trash_manager.trash_dir_spec(),
                                path_views(args.paths@),
                                dsecs,
                                report.trashed@,
                                report.failures@,
                                mid,
                            )
                            &&& if args.auto_clean {
                                purge_relation(
                                    mid,
                                    final(fs)@,
                                    trash_manager.trash_dir_spec(),
                                    now.secs as int,
                                )
                            } else {
                                final(fs)@ == mid
                            }
                        }
                },
                Err(_) => false,
            }
        }),
{
    if args.immediate {
        match delete_paths(fs, &args.paths) {
            Ok(()) => Ok(TrashReport { trashed: Vec::new(), failures: Vec::new() }),
            Err(_) => {
                proof {
                    assert(false);
                }
                unreached()
            },
        }
    } else {
        let grace: u32 = match args.grace_period_in_days {
            Some(d) => d,
            None => config.grace_period(),
        };
        let deletion_date = match now.checked_add_days(grace) {
            Some(d) => d,
            None => {
                proof {
                    assert(false);
                }
                unreached()
            },
        };
        let report = trash_manager.trash_items(fs, &args.paths, deletion_date);
        let ghost mid = fs@;
        let ghost tr = report.trashed@;
        let ghost fl = report.failures@;
        if args.auto_clean {
            match trash_manager.clean_trash(fs, false, now) {
                Ok(()) => {},
                Err(_) => {
                    proof {
                        assert(false);
                    }
                },
            }
        }
        proof {
            let td = trash_manager.trash_dir_spec();
            let dsecs = now.secs + rm_grace_days(config, args) * 86400;
            let psv = path_views(args.paths@);
            assert(trash_batch(old(fs)@, td, psv, dsecs, tr, fl, mid));
            if args.auto_clean {
                assert(purge_relation(mid, fs@, td, now.secs as int));
            }
            assert(mid.dom() =~= mid.dom());
        }
        Ok(report)
    }
}

/// Show or change one configuration key; the returned line is what the
/// caller prints. An unusable grace-period value changes nothing and
/// yields the complaint, as a line, not an error.
pub fn handle_config(config: &Config, fs: &mut FsSpace, args: ConfigArgs) -> (r: Result<
    String,
    Error,
>)
    requires
        old(fs).wf(),
    ensures
        final(fs).wf(),
        ({
            let m = old(fs)@;
            match args.action {
                ConfigAction::Show { key: ConfigKey::TrashDir } => final(fs)@ == m && match r {
                    Ok(msg) => msg@ == "Trash directory: "@ + config.trash_dir_spec(),
                    Err(_) => false,
                },
                ConfigAction::Show { key: ConfigKey::GracePeriod } => final(fs)@ == m && match r {
                    Ok(msg) => msg@ == "Grace period in days: "@ + dec_digits(
                        config.grace_spec() as int,
                    ),
                    Err(_) => false,
                },
                ConfigAction::Assign { key: ConfigKey::TrashDir, value } => match r {
                    Ok(msg) => m.contains_key(config.bin_path_spec()) && final(fs)@ == m.insert(
                        config.bin_path_spec(),
                        crate::fsmodel::EntryModel {
                            is_dir: m[config.bin_path_spec()].is_dir,
                            attrs: m[config.bin_path_spec()].attrs.insert(
                                crate::config::trash_dir_attr(),
                                value@,
                            ),
                        },
                    ) && msg@ == "Set trash directory to "@ + value@,
                    Err(e) => final(fs)@ == m && e matches Error::XAttr(_),
                },
                ConfigAction::Assign { key: ConfigKey::GracePeriod, value } => match parse_u32_spec(
                    value@,
                ) {
                    None => final(fs)@ == m && match r {
                        Ok(msg) => msg@ == "Grace period must be a positive integer."@,
                        Err(_) => false,
                    },
                    Some(days) => match r {
                        Ok(msg) => m.contains_key(config.trash_dir_spec()) && final(fs)@
                            == m.insert(
                            config.trash_dir_spec(),
                            crate::fsmodel::EntryModel {
                                is_dir: m[config.trash_dir_spec()].is_dir,
                                attrs: m[config.trash_dir_spec()].attrs.insert(
                                    crate::config::grace_period_attr(),
                                    dec_digits(days as int),
                                ),
                            },
                        ) && msg@ == "Set grace period in days to "@ + dec_digits(days as int),
                        Err(e) => final(fs)@ == m && e matches Error::XAttr(_),
                    },
                },
            }
        }),
{
    match args.action {
        ConfigAction::Show { key: ConfigKey::TrashDir } => Ok(
            String::from_str("Trash directory: ").concat(config.trash_dir_str()),
        ),
        ConfigAction::Show { key: ConfigKey::GracePeriod } => {
            let mut msg = String::from_str("Grace period in days: ");
            crate::digits::append_u32(&mut msg, config.grace_period());
            Ok(msg)
        },
        ConfigAction::Assign { key: ConfigKey::TrashDir, value } => {
            match config.set_trash_dir(fs, value.as_str()) {
                Ok(()) => {
                    proof {
                        crate::xattr::lemma_attr_write_pins_state(
                            *old(fs),
                            *fs,
                            config.bin_path_spec(),
                            old(fs).store_view()[config.bin_path_spec()].insert(
                                crate::config::trash_dir_attr(),
                                value@,
                            ),
                        );
                    }
                    Ok(String::from_str("Set trash directory to ").concat(value.as_str()))
                },
                Err(e) => {
                    proof {
                        crate::xattr::lemma_same_views_same_state(*old(fs), *fs);
                    }
                    Err(e)
                },
            }
        },
        ConfigAction::Assign { key: ConfigKey::GracePeriod, value } => {
            match parse_u32(value.as_str()) {
                Some(days) => match config.set_grace_period(fs, days) {
                    Ok(()) => {
                        proof {
                            crate::xattr::lemma_attr_write_pins_state(
                                *old(fs),
                                *fs,
                                config.trash_dir_spec(),
                                old(fs).store_view()[config.trash_dir_spec()].insert(
                                    crate::config::grace_period_attr(),
                                    dec_digits(days as int),
                                ),
                            );
                        }
                        let mut msg = String::from_str("Set grace period in days to ");
                        crate::digits::append_u32(&mut msg, days);
                        Ok(msg)
                    },
                    Err(e) => {
                        proof {
                            crate::xattr::lemma_same_views_same_state(*old(fs), *fs);
                        }
                        Err(e)
                    },
                },
                None => Ok(String::from_str("Grace period must be a positive integer.")),
            }
        },
    }
}

} // verus!
