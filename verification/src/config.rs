//! The configuration provider: two scalar settings, both persisted as
//! extended attributes — the grace period on the trash directory itself,
//! and the trash directory location on a fixed anchor entry (the running
//! binary). Absent or unusable values fall back to compiled-in defaults.

use vstd::prelude::*;
use crate::digits::{dec_digits, parse_u32, parse_u32_spec, render_u32};
use crate::error::Error;
use crate::fsmodel::{EntryModel, FsSpace};
use crate::paths::{parent_of, parent_path};
use crate::fsmodel::str_eq;
use crate::trash::parent_ok;
use crate::xattr::ExtendedAttributes;

verus! {

/// Days to wait before a trashed entry may be reclaimed, by default.
pub const DEFAULT_GRACE_PERIOD_IN_DAYS: u32 = 7;

/// Attribute on the anchor entry that holds the trash directory path.
pub open spec fn trash_dir_attr() -> Seq<char> {
    "trash_dir"@
}

/// Attribute on the trash directory that holds the grace period.
pub open spec fn grace_period_attr() -> Seq<char> {
    "grace_period_in_days"@
}

fn trash_dir_attr_str() -> (r: &'static str)
    ensures
        r@ == trash_dir_attr(),
{
    "trash_dir"
}

fn grace_period_attr_str() -> (r: &'static str)
    ensures
        r@ == grace_period_attr(),
{
    "grace_period_in_days"
}

/// The default trash directory: a fixed dotfile under the user's home.
pub open spec fn default_trash_dir(home: Seq<char>) -> Seq<char> {
    home + "/.tmp_trash"@
}

/// The trash directory the configuration names: a non-empty attribute on
/// the anchor entry, or the default.
pub open spec fn wanted_trash_dir(
    m: Map<Seq<char>, EntryModel>,
    bin: Seq<char>,
    home: Seq<char>,
) -> Seq<char> {
    if m.contains_key(bin) && m[bin].attrs.contains_key(trash_dir_attr())
        && m[bin].attrs[trash_dir_attr()].len() > 0 {
        m[bin].attrs[trash_dir_attr()]
    } else {
        default_trash_dir(home)
    }
}

/// The grace period the configuration names: a parsable attribute on the
/// trash directory, or the default.
pub open spec fn stored_grace_period(m: Map<Seq<char>, EntryModel>, dir: Seq<char>) -> u32 {
    if m.contains_key(dir) && m[dir].attrs.contains_key(grace_period_attr()) {
        match parse_u32_spec(m[dir].attrs[grace_period_attr()]) {
            Some(g) => g,
            None => DEFAULT_GRACE_PERIOD_IN_DAYS,
        }
    } else {
        DEFAULT_GRACE_PERIOD_IN_DAYS
    }
}

/// The two settings, loaded once and passed explicitly.
pub struct Config {
    pub grace_period_in_days: u32,
    pub trash_dir: String,
    bin_path: String,
}

impl Config {
    /// The anchor entry the trash directory location is stored on.
    pub closed spec fn bin_path_spec(&self) -> Seq<char> {
        self.bin_path@
    }

    /// The configured grace period, for contracts.
    pub closed spec fn grace_spec(&self) -> u32 {
        self.grace_period_in_days
    }

    /// The configured trash directory, for contracts.
    pub closed spec fn trash_dir_spec(&self) -> Seq<char> {
        self.trash_dir@
    }

    /// The configured grace period, in days.
    pub fn grace_period(&self) -> (r: u32)
        ensures
            r == self.grace_spec(),
    {
        self.grace_period_in_days
    }

    /// The configured trash directory.
    pub fn trash_dir_str(&self) -> (r: &str)
        ensures
            r@ == self.trash_dir_spec(),
    {
        self.trash_dir.as_str()
    }

    /// Read both settings, creating the trash directory if it is missing;
    /// its parent is never created.
    pub fn load(fs: &mut FsSpace, bin_path: &str, home: &str) -> (r: Result<Config, Error>)
        requires
            old(fs).wf(),
        ensures
            final(fs).wf(),
            ({
                let w = wanted_trash_dir(old(fs)@, bin_path@, home@);
                match r {
                    Ok(c) => c.trash_dir_spec() == w && c.grace_spec() == stored_grace_period(
                        old(fs)@,
                        w,
                    ) && c.bin_path_spec() == bin_path@ && (old(fs)@.contains_key(w) ==> final(fs)@
                        == old(fs)@) && (!old(fs)@.contains_key(w) ==> parent_ok(old(fs)@, w)
                        && final(fs)@ == old(fs)@.insert(
                        w,
                        EntryModel { is_dir: true, attrs: Map::empty() },
                    )),
                    Err(Error::Io(_)) => !old(fs)@.contains_key(w) && !parent_ok(old(fs)@, w)
                        && final(fs)@ == old(fs)@,
                    Err(_) => false,
                }
            }),
    {
        let wanted: String = match fs.get_attr_at(bin_path, trash_dir_attr_str()) {
            Some(v) => {
                if v.unicode_len() > 0 {
                    v
                } else {
                    String::from_str(home).concat("/.tmp_trash")
                }
            },
            None => String::from_str(home).concat("/.tmp_trash"),
        };
        if !fs.exists_at(wanted.as_str()) {
            let par = parent_path(wanted.as_str());
            let par_is_root = {
                proof {
                    reveal_strlit("/");
                    assert("/"@ =~= seq!['/']);
                }
                str_eq(par.as_str(), "/")
            };
            if !par_is_root && !fs.exists_at(par.as_str()) {
                return Err(Error::Io(String::from_str("cannot create the trash directory")));
            }
            fs.add_entry(wanted.as_str(), true);
        }
        let grace: u32 = match fs.get_attr_at(wanted.as_str(), grace_period_attr_str()) {
            Some(v) => match parse_u32(v.as_str()) {
                Some(g) => g,
                None => DEFAULT_GRACE_PERIOD_IN_DAYS,
            },
            None => DEFAULT_GRACE_PERIOD_IN_DAYS,
        };
        Ok(
            Config {
                grace_period_in_days: grace,
                trash_dir: wanted,
                bin_path: String::from_str(bin_path),
            },
        )
    }

    /// Store the grace period, in days, on the trash directory.
    pub fn set_grace_period<T: ExtendedAttributes>(&self, store: &mut T, days: u32) -> (r: Result<
        (),
        Error,
    >)
        requires
            old(store).inv(),
        ensures
            final(store).inv(),
            final(store).kinds_view() == old(store).kinds_view(),
            parse_u32_spec(dec_digits(days as int)) == Some(days),
            match r {
                Ok(()) => old(store).store_view().contains_key(self.trash_dir_spec())
                    && final(store).store_view() == old(store).store_view().insert(
                    self.trash_dir_spec(),
                    old(store).store_view()[self.trash_dir_spec()].insert(
                        grace_period_attr(),
                        dec_digits(days as int),
                    ),
                ),
                Err(Error::XAttr(_)) => final(store).store_view() == old(store).store_view(),
                Err(_) => false,
            },
    {
        let v = render_u32(days);
        match store.set_attr(self.trash_dir.as_str(), grace_period_attr_str(), v.as_str()) {
            Ok(()) => Ok(()),
            Err(e) => Err(Error::XAttr(e)),
        }
    }

    /// Store the trash directory location on the anchor entry.
    pub fn set_trash_dir<T: ExtendedAttributes>(&self, store: &mut T, path: &str) -> (r: Result<
        (),
        Error,
    >)
        requires
            old(store).inv(),
        ensures
            final(store).inv(),
            final(store).kinds_view() == old(store).kinds_view(),
            match r {
                Ok(()) => old(store).store_view().contains_key(self.bin_path_spec())
                    && final(store).store_view() == old(store).store_view().insert(
                    self.bin_path_spec(),
                    old(store).store_view()[self.bin_path_spec()].insert(trash_dir_attr(), path@),
                ),
                Err(Error::XAttr(_)) => final(store).store_view() == old(store).store_view(),
                Err(_) => false,
            },
    {
        match store.set_attr(self.bin_path.as_str(), trash_dir_attr_str(), path) {
            Ok(()) => Ok(()),
            Err(e) => Err(Error::XAttr(e)),
        }
    }
}

} // verus!
