//! The laws the lifecycle keeps, proved over the same spec functions the
//! managers' contracts use.

use vstd::prelude::*;
use crate::fsmodel::EntryModel;
use crate::paths::{
    is_child_path, is_under, is_valid_name, join, lemma_child_is_join, lemma_children_not_nested,
    lemma_join_child, lemma_join_injective, parent_of,
};
use crate::time::parse_rfc3339_spec;
use crate::trash::{
    deletion_date_attr, doomed, eligible, original_path_attr, parent_ok, restore_dest,
    restore_step, trash_entry_model, trash_step, wf_trash_entry,
};

verus! {

/// The two provenance attributes have different names.
pub proof fn lemma_attr_names_differ()
    ensures
        original_path_attr() != deletion_date_attr(),
{
    reveal_strlit("original_path");
    reveal_strlit("deletion_date");
    assert(original_path_attr()[0] == 'o');
    assert(deletion_date_attr()[0] == 'd');
}

/// Round trip: trashing an entry at `p` under a fresh id, with a
/// deletion-date attribute that reads back as `dsecs`, makes exactly one
/// well-formed trash entry whose original path is `p` and whose deletion
/// date is `dsecs` — provided no entry already in the trash carries that
/// same pair, as a second trashing of a recreated `p` with the same date
/// would.
pub proof fn lemma_trash_then_list_round_trip(
    m: Map<Seq<char>, EntryModel>,
    td: Seq<char>,
    p: Seq<char>,
    id: Seq<char>,
    ds: Seq<char>,
    dsecs: int,
)
    requires
        m.contains_key(p),
        is_valid_name(id),
        !m.contains_key(join(td, id)),
        parse_rfc3339_spec(ds) == Some(dsecs),
        forall|id2: Seq<char>| #[trigger]
            wf_trash_entry(m, td, id2) ==> !(trash_entry_model(m, td, id2).original_path == p
                && trash_entry_model(m, td, id2).deletion_secs == dsecs),
    ensures
        ({
            let m2 = trash_step(m, td, p, id, ds);
            &&& wf_trash_entry(m2, td, id)
            &&& trash_entry_model(m2, td, id).original_path == p
            &&& trash_entry_model(m2, td, id).deletion_secs == dsecs
            &&& forall|id2: Seq<char>| #[trigger]
                wf_trash_entry(m2, td, id2) && trash_entry_model(m2, td, id2).original_path == p
                    && trash_entry_model(m2, td, id2).deletion_secs == dsecs ==> id2 == id
        }),
{
    lemma_attr_names_differ();
    let m2 = trash_step(m, td, p, id, ds);
    assert(m2[join(td, id)].attrs[deletion_date_attr()] == ds);
    assert(m2[join(td, id)].attrs[original_path_attr()] == p);
    assert forall|id2: Seq<char>| #[trigger]
        wf_trash_entry(m2, td, id2) && trash_entry_model(m2, td, id2).original_path == p
            && trash_entry_model(m2, td, id2).deletion_secs == dsecs implies id2 == id by {
        if id2 != id {
            if join(td, id2) == join(td, id) {
                lemma_join_injective(td, id2, id);
            } else {
                assert(m2.contains_key(join(td, id2)));
                assert(m.contains_key(join(td, id2)) && join(td, id2) != p);
                assert(m2[join(td, id2)] == m[join(td, id2)]);
                assert(wf_trash_entry(m, td, id2));
                assert(trash_entry_model(m, td, id2) == trash_entry_model(m2, td, id2));
            }
        }
    }
}

/// Restore inverse: trashing an entry at `p` and then restoring the
/// resulting id, with no rename, is permitted by every restore check,
/// recreates an entry at `p` with its kind intact and the two provenance
/// attributes gone, and leaves nothing in the trash under that id.
pub proof fn lemma_trash_then_restore_inverse(
    m: Map<Seq<char>, EntryModel>,
    td: Seq<char>,
    p: Seq<char>,
    id: Seq<char>,
    ds: Seq<char>,
)
    requires
        m.contains_key(p),
        is_valid_name(id),
        !m.contains_key(join(td, id)),
        parent_of(p) == seq!['/'] || (m.contains_key(parent_of(p)) && parent_of(p) != p),
    ensures
        ({
            let m2 = trash_step(m, td, p, id, ds);
            let ip = join(td, id);
            &&& restore_dest(m2, td, id, None) == p
            &&& m2.contains_key(ip)
            &&& m2[ip].attrs.contains_key(original_path_attr())
            &&& !m2.contains_key(p)
            &&& parent_ok(m2, p)
            &&& restore_step(m2, ip, p) == m.insert(
                p,
                EntryModel {
                    is_dir: m[p].is_dir,
                    attrs: m[p].attrs.remove(original_path_attr()).remove(deletion_date_attr()),
                },
            )
            &&& !restore_step(m2, ip, p).contains_key(ip)
            &&& restore_step(m2, ip, p)[p].is_dir == m[p].is_dir
        }),
{
    lemma_attr_names_differ();
    let m2 = trash_step(m, td, p, id, ds);
    let ip = join(td, id);
    assert(ip != p);
    assert(m2[ip].attrs[original_path_attr()] == p);
    assert(restore_step(m2, ip, p) =~~= m.insert(
        p,
        EntryModel {
            is_dir: m[p].is_dir,
            attrs: m[p].attrs.remove(original_path_attr()).remove(deletion_date_attr()),
        },
    ));
}

/// Restore inverse, the listing half: after trashing an entry at `p` and
/// restoring the resulting id with no rename, no well-formed trash entry
/// is filed under that id, nor records `p` as its original path — provided
/// `p` lies outside the trash directory and no entry already recorded it,
/// as a second entry trashed earlier from the same recreated path would.
pub proof fn lemma_restore_clears_listing(
    m: Map<Seq<char>, EntryModel>,
    td: Seq<char>,
    p: Seq<char>,
    id: Seq<char>,
    ds: Seq<char>,
)
    requires
        m.contains_key(p),
        is_valid_name(id),
        !m.contains_key(join(td, id)),
        !is_under(p, td),
        forall|id2: Seq<char>| #[trigger]
            wf_trash_entry(m, td, id2) ==> trash_entry_model(m, td, id2).original_path != p,
    ensures
        ({
            let m3 = restore_step(trash_step(m, td, p, id, ds), join(td, id), p);
            forall|id2: Seq<char>| #[trigger]
                wf_trash_entry(m3, td, id2) ==> id2 != id && trash_entry_model(
                    m3,
                    td,
                    id2,
                ).original_path != p
        }),
{
    let m2 = trash_step(m, td, p, id, ds);
    let ip = join(td, id);
    let m3 = restore_step(m2, ip, p);
    assert forall|id2: Seq<char>| #[trigger] wf_trash_entry(m3, td, id2) implies id2 != id
        && trash_entry_model(m3, td, id2).original_path != p by {
        let k = join(td, id2);
        lemma_join_child(td, id2);
        if k == p {
            assert(is_under(p, td));
            assert(false);
        } else if k == ip {
            assert(!m3.contains_key(k));
            assert(false);
        } else {
            assert(m3.contains_key(k) && m3[k] == m[k]);
            assert(wf_trash_entry(m, td, id2));
            assert(trash_entry_model(m3, td, id2).original_path == trash_entry_model(
                m,
                td,
                id2,
            ).original_path);
            if id2 == id {
                lemma_join_injective(td, id2, id);
            }
        }
    }
}

/// Idempotent corruption skip: an entry in the trash directory that is
/// not well formed — it lacks an attribute, or its date is unparsable —
/// is never a well-formed entry (so listing never shows it) and no purge,
/// immediate or not, ever dooms it.
pub proof fn lemma_foreign_entry_skipped(
    m: Map<Seq<char>, EntryModel>,
    td: Seq<char>,
    name: Seq<char>,
    immediate: bool,
    now: int,
)
    requires
        is_valid_name(name),
        m.contains_key(join(td, name)),
        !wf_trash_entry(m, td, name),
    ensures
        !doomed(m, td, immediate, now, join(td, name)),
{
    let k = join(td, name);
    if doomed(m, td, immediate, now, k) {
        let id = choose|id: Seq<char>|
            eligible(m, td, id, immediate, now) && (k == join(td, id) || is_under(k, join(td, id)));
        if k == join(td, id) {
            lemma_join_injective(td, name, id);
        } else {
            lemma_join_child(td, name);
            lemma_join_child(td, id);
            lemma_children_not_nested(k, join(td, id), td);
        }
    }
}

/// Grace period boundary: a purge without the immediate flag dooms a
/// well-formed entry exactly when its deletion date lies strictly before
/// now; one dated at or after now survives.
pub proof fn lemma_grace_period_boundary(
    m: Map<Seq<char>, EntryModel>,
    td: Seq<char>,
    id: Seq<char>,
    now: int,
)
    requires
        wf_trash_entry(m, td, id),
    ensures
        doomed(m, td, false, now, join(td, id)) <==> trash_entry_model(m, td, id).deletion_secs
            < now,
{
    let k = join(td, id);
    if doomed(m, td, false, now, k) {
        let id2 = choose|id2: Seq<char>|
            eligible(m, td, id2, false, now) && (k == join(td, id2) || is_under(k, join(td, id2)));
        if k == join(td, id2) {
            lemma_join_injective(td, id, id2);
        } else {
            lemma_join_child(td, id);
            lemma_join_child(td, id2);
            lemma_children_not_nested(k, join(td, id2), td);
        }
    }
    if trash_entry_model(m, td, id).deletion_secs < now {
        assert(eligible(m, td, id, false, now));
        assert(doomed(m, td, false, now, k));
    }
}

/// Immediate purge: where every direct child of the trash directory is
/// well formed, and everything deeper lies under some present direct
/// child, an immediate purge dooms every key below the trash directory —
/// the directory is left empty. A single foreign direct child voids the
/// premise, and survives instead.
pub proof fn lemma_immediate_purge_empties(m: Map<Seq<char>, EntryModel>, td: Seq<char>, now: int)
    requires
        forall|k: Seq<char>| #[trigger]
            m.contains_key(k) && is_child_path(k, td) ==> wf_trash_entry(
                m,
                td,
                k.subrange(td.len() as int + 1, k.len() as int),
            ),
        forall|k: Seq<char>| #[trigger]
            m.contains_key(k) && is_under(k, td) && !is_child_path(k, td) ==> exists|c: Seq<char>|
                is_child_path(c, td) && m.contains_key(c) && is_under(k, c),
    ensures
        forall|k: Seq<char>| #[trigger]
            m.contains_key(k) && is_under(k, td) ==> doomed(m, td, true, now, k),
{
    assert forall|k: Seq<char>| #[trigger] m.contains_key(k) && is_under(k, td) implies doomed(
        m,
        td,
        true,
        now,
        k,
    ) by {
        if is_child_path(k, td) {
            lemma_child_is_join(k, td);
            let id = k.subrange(td.len() as int + 1, k.len() as int);
            assert(eligible(m, td, id, true, now));
            assert(k == join(td, id));
        } else {
            let c = choose|c: Seq<char>|
                is_child_path(c, td) && m.contains_key(c) && is_under(k, c);
            lemma_child_is_join(c, td);
            let id = c.subrange(td.len() as int + 1, c.len() as int);
            assert(eligible(m, td, id, true, now));
            assert(is_under(k, join(td, id)));
        }
    }
}

} // verus!
