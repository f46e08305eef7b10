//! Event payloads: the immutable batches handed to the registered callbacks,
//! one argument type per event kind.
use vstd::prelude::*;

use crate::search_dir::{File, RenamedFileEntry};

verus! {

/// The common shape of every event payload: an immutable batch.
#[derive(Debug, Clone)]
pub struct BaseEventArgs<T: Clone + core::fmt::Debug> {
    pub files: Vec<T>,
}

impl<T: Clone + core::fmt::Debug> BaseEventArgs<T> {
    pub fn new(files: Vec<T>) -> (r: Self)
        ensures
            r.files == files,
    {
        BaseEventArgs { files }
    }

    pub fn files(&self) -> (r: &Vec<T>)
        ensures
            r == self.files,
    {
        &self.files
    }
}

/// The batch delivered to the created-files callback.
#[derive(Debug, Clone)]
pub struct OnCreatedEventArgs {
    pub args: BaseEventArgs<File>,
}

impl OnCreatedEventArgs {
    pub fn new(files: Vec<File>) -> (r: Self)
        ensures
            r.args.files == files,
    {
        OnCreatedEventArgs { args: BaseEventArgs { files } }
    }

    pub fn files(&self) -> (r: &Vec<File>)
        ensures
            r == self.args.files,
    {
        &self.args.files
    }
}

/// The batch delivered to the changed-files callback.
#[derive(Debug, Clone)]
pub struct OnChangedEventArgs {
    pub args: BaseEventArgs<File>,
}

impl OnChangedEventArgs {
    pub fn new(files: Vec<File>) -> (r: Self)
        ensures
            r.args.files == files,
    {
        OnChangedEventArgs { args: BaseEventArgs::new(files) }
    }

    pub fn files(&self) -> (r: &Vec<File>)
        ensures
            r == self.args.files,
    {
        self.args.files()
    }
}

/// The batch delivered to the deleted-files callback.
#[derive(Debug, Clone)]
pub struct OnDeletedEventArgs {
    pub args: BaseEventArgs<File>,
}

impl OnDeletedEventArgs {
    pub fn new(files: Vec<File>) -> (r: Self)
        ensures
            r.args.files == files,
    {
        OnDeletedEventArgs { args: BaseEventArgs::new(files) }
    }

    pub fn files(&self) -> (r: &Vec<File>)
        ensures
            r == self.args.files,
    {
        self.args.files()
    }
}

/// The batch delivered to the renamed-files callback.
#[derive(Debug, Clone)]
pub struct OnRenamedEventArgs {
    pub args: BaseEventArgs<RenamedFileEntry>,
}

impl OnRenamedEventArgs {
    pub fn new(files: Vec<RenamedFileEntry>) -> (r: Self)
        ensures
            r.args.files == files,
    {
        OnRenamedEventArgs { args: BaseEventArgs::new(files) }
    }

    pub fn files(&self) -> (r: &Vec<RenamedFileEntry>)
        ensures
            r == self.args.files,
    {
        self.args.files()
    }
}

} // verus!
