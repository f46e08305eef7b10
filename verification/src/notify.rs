//! Notify filters: the set of metadata dimensions whose change counts as a
//! reportable change, and the evaluator that decides whether an old/new
//! metadata pair qualifies under a given dimension set.
use vstd::prelude::*;

use crate::search_dir::File;

verus! {

/// A set over the eight watchable dimensions. Combination is field-wise
/// union and membership is field-wise implication, preserving the
/// OR-combination and containment semantics of a bitmask exactly.
#[derive(Debug, Clone, Copy, PartialEq, Eq, Structural)]
pub struct NotifyFilters {
    pub attributes: bool,
    pub creation_time: bool,
    pub directory_name: bool,
    pub file_name: bool,
    pub last_access: bool,
    pub last_write: bool,
    pub security: bool,
    pub size: bool,
}

/// Every dimension of `b` is also in `a`.
pub open spec fn filters_contain(a: NotifyFilters, b: NotifyFilters) -> bool {
    &&& (b.attributes ==> a.attributes)
    &&& (b.creation_time ==> a.creation_time)
    &&& (b.directory_name ==> a.directory_name)
    &&& (b.file_name ==> a.file_name)
    &&& (b.last_access ==> a.last_access)
    &&& (b.last_write ==> a.last_write)
    &&& (b.security ==> a.security)
    &&& (b.size ==> a.size)
}

impl NotifyFilters {
    /// The empty dimension set.
    pub fn none() -> (r: NotifyFilters)
        ensures
            r == (NotifyFilters {
                attributes: false,
                creation_time: false,
                directory_name: false,
                file_name: false,
                last_access: false,
                last_write: false,
                security: false,
                size: false,
            }),
    {
        NotifyFilters {
            attributes: false,
            creation_time: false,
            directory_name: false,
            file_name: false,
            last_access: false,
            last_write: false,
            security: false,
            size: false,
        }
    }

    pub fn attributes() -> (r: NotifyFilters)
        ensures
            r == (NotifyFilters { attributes: true, ..NotifyFilters {
                attributes: false,
                creation_time: false,
                directory_name: false,
                file_name: false,
                last_access: false,
                last_write: false,
                security: false,
                size: false,
            } }),
    {
        let mut r = Self::none();
        r.attributes = true;
        r
    }

    pub fn creation_time() -> (r: NotifyFilters)
        ensures
            r == (NotifyFilters { creation_time: true, ..NotifyFilters {
                attributes: false,
                creation_time: false,
                directory_name: false,
                file_name: false,
                last_access: false,
                last_write: false,
                security: false,
                size: false,
            } }),
    {
        let mut r = Self::none();
        r.creation_time = true;
        r
    }

    pub fn directory_name() -> (r: NotifyFilters)
        ensures
            r == (NotifyFilters { directory_name: true, ..NotifyFilters {
                attributes: false,
                creation_time: false,
                directory_name: false,
                file_name: false,
                last_access: false,
                last_write: false,
                security: false,
                size: false,
            } }),
    {
        let mut r = Self::none();
        r.directory_name = true;
        r
    }

    pub fn file_name() -> (r: NotifyFilters)
        ensures
            r == (NotifyFilters { file_name: true, ..NotifyFilters {
                attributes: false,
                creation_time: false,
                directory_name: false,
                file_name: false,
                last_access: false,
                last_write: false,
                security: false,
                size: false,
            } }),
    {
        let mut r = Self::none();
        r.file_name = true;
        r
    }

    pub fn last_access() -> (r: NotifyFilters)
        ensures
            r == (NotifyFilters { last_access: true, ..NotifyFilters {
                attributes: false,
                creation_time: false,
                directory_name: false,
                file_name: false,
                last_access: false,
                last_write: false,
                security: false,
                size: false,
            } }),
    {
        let mut r = Self::none();
        r.last_access = true;
        r
    }

    pub fn last_write() -> (r: NotifyFilters)
        ensures
            r == (NotifyFilters { last_write: true, ..NotifyFilters {
                attributes: false,
                creation_time: false,
                directory_name: false,
                file_name: false,
                last_access: false,
                last_write: false,
                security: false,
                size: false,
            } }),
    {
        let mut r = Self::none();
        r.last_write = true;
        r
    }

    pub fn security() -> (r: NotifyFilters)
        ensures
            r == (NotifyFilters { security: true, ..NotifyFilters {
                attributes: false,
                creation_time: false,
                directory_name: false,
                file_name: false,
                last_access: false,
                last_write: false,
                security: false,
                size: false,
            } }),
    {
        let mut r = Self::none();
        r.security = true;
        r
    }

    pub fn size() -> (r: NotifyFilters)
        ensures
            r == (NotifyFilters { size: true, ..NotifyFilters {
                attributes: false,
                creation_time: false,
                directory_name: false,
                file_name: false,
                last_access: false,
                last_write: false,
                security: false,
                size: false,
            } }),
    {
        let mut r = Self::none();
        r.size = true;
        r
    }

    /// The union of two dimension sets.
    pub fn or(self, other: NotifyFilters) -> (r: NotifyFilters)
        ensures
            r == (NotifyFilters {
                attributes: self.attributes || other.attributes,
                creation_time: self.creation_time || other.creation_time,
                directory_name: self.directory_name || other.directory_name,
                file_name: self.file_name || other.file_name,
                last_access: self.last_access || other.last_access,
                last_write: self.last_write || other.last_write,
                security: self.security || other.security,
                size: self.size || other.size,
            }),
    {
        NotifyFilters {
            attributes: self.attributes || other.attributes,
            creation_time: self.creation_time || other.creation_time,
            directory_name: self.directory_name || other.directory_name,
            file_name: self.file_name || other.file_name,
            last_access: self.last_access || other.last_access,
            last_write: self.last_write || other.last_write,
            security: self.security || other.security,
            size: self.size || other.size,
        }
    }

    /// Whether every dimension of `other` is watched by `self`.
    pub fn contains(self, other: NotifyFilters) -> (r: bool)
        ensures
            r == filters_contain(self, other),
    {
        (!other.attributes || self.attributes) && (!other.creation_time || self.creation_time)
            && (!other.directory_name || self.directory_name) && (!other.file_name
            || self.file_name) && (!other.last_access || self.last_access) && (!other.last_write
            || self.last_write) && (!other.security || self.security) && (!other.size || self.size)
    }
}

/// Whether an old/new metadata pair counts as a reportable change under the
/// watched dimensions: a differing modified timestamp when last-write or
/// file-name is watched, a differing accessed timestamp when last-access is
/// watched, or a differing created timestamp when creation-time is watched.
/// The clauses are independent; their order affects nothing.
pub open spec fn qualifies_spec(old_f: File, new_f: File, mask: NotifyFilters) -> bool {
    ||| ((mask.last_write || mask.file_name) && old_f.last_modified != new_f.last_modified)
    ||| (mask.last_access && old_f.last_accessed != new_f.last_accessed)
    ||| (mask.creation_time && old_f.created != new_f.created)
}

pub(crate) fn opt_eq(a: Option<u64>, b: Option<u64>) -> (r: bool)
    ensures
        r == (a == b),
{
    match (a, b) {
        (Option::None, Option::None) => true,
        (Option::Some(x), Option::Some(y)) => x == y,
        _ => false,
    }
}

/// Decides whether the change from `old_f` to `new_f` is reportable under
/// `mask`, evaluated clause by clause with short circuit.
pub fn qualifies(old_f: &File, new_f: &File, mask: NotifyFilters) -> (r: bool)
    ensures
        r == qualifies_spec(*old_f, *new_f, mask),
{
    let last_write = (mask.last_write || mask.file_name) && !opt_eq(
        old_f.last_modified,
        new_f.last_modified,
    );
    if last_write {
        return last_write;
    }
    let last_access = mask.last_access && !opt_eq(old_f.last_accessed, new_f.last_accessed);
    if last_access {
        return last_access;
    }
    mask.creation_time && !opt_eq(old_f.created, new_f.created)
}

/// Gating of unwatched dimensions: when neither the last-access nor the
/// creation-time dimension is watched, a file whose modified timestamp is
/// unchanged is never reported as changed, whatever happened to its other
/// timestamps. In particular, under a mask watching last-write alone, an
/// accessed-time change is not a change.
pub proof fn lemma_notify_gating(old_f: File, new_f: File, mask: NotifyFilters)
    requires
        !mask.last_access,
        !mask.creation_time,
        old_f.last_modified == new_f.last_modified,
    ensures
        !qualifies_spec(old_f, new_f, mask),
{
}

} // verus!
