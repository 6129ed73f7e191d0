//! The buffer pool: how it is configured, and its frames when it starts.
use crate::page::Page;
use vstd::prelude::*;

verus! {

/// The number of frames of a buffer pool.
pub const BUFFER_SIZE: usize = 512;

/// The write-ahead log.
#[derive(Debug, Clone, Copy, PartialEq, Eq, Structural)]
pub struct Wal;

impl Default for Wal {
    fn default() -> (wal: Self)
        ensures
            wal == Wal,
    {
        Wal
    }
}

/// How the pool picks the page that leaves it.
#[derive(Debug, Clone, Copy, PartialEq, Eq, Structural)]
pub enum EvictionPolicy {
    /// A hand sweeps over the frames and gives each a second chance.
    Clock,
}

/// A page that is held in memory.
#[derive(Debug, PartialEq)]
pub struct PageFrame {
    pub page: Page,
}

/// Collects what a buffer pool needs. `P` is how the path of its file is given.
#[derive(Debug)]
pub struct BufferPoolManagerBuilder<P> {
    wal: Option<Wal>,
    file_path: Option<P>,
}

/// A buffer pool over the pages that `Dm` stores.
#[derive(Debug)]
pub struct BufferPoolManager<Dm> {
    pub persistant_layer: Dm,
    pub eviction_policy: EvictionPolicy,
    pub wal: Option<Wal>,
    pub frames: Vec<Option<Box<PageFrame>>>,
}

impl<P> BufferPoolManagerBuilder<P> {
    /// The log that was given, if any.
    pub closed spec fn wal(&self) -> Option<Wal> {
        self.wal
    }

    /// The path of the file that was given, if any.
    pub closed spec fn path(&self) -> Option<P> {
        self.file_path
    }

    /// A builder with nothing given yet.
    pub fn new() -> (r: Self)
        ensures
            r.wal() is None,
            r.path() is None,
    {
        BufferPoolManagerBuilder { wal: None, file_path: None }
    }

    pub fn with_wal(self, wal: Wal) -> (r: Self)
        ensures
            r.wal() == Some(wal),
            r.path() == self.path(),
    {
        BufferPoolManagerBuilder { wal: Some(wal), file_path: self.file_path }
    }

    pub fn with_file_backing(self, filepath: P) -> (r: Self)
        ensures
            r.wal() == self.wal(),
            r.path() == Some(filepath),
    {
        BufferPoolManagerBuilder { wal: self.wal, file_path: Some(filepath) }
    }

    /// The path of the file that is to be opened.
    pub fn file_path(&self) -> (r: Option<&P>)
        ensures
            match self.path() {
                Some(p) => r is Some && *r->0 == p,
                None => r is None,
            },
    {
        match &self.file_path {
            Some(p) => Some(p),
            None => None,
        }
    }

    /// A pool over `persistant_layer`, the opened file, whose frames are all empty.
    /// Without a log of its own it gets the default one.
    pub fn build<Dm>(self, persistant_layer: Dm) -> (pool: BufferPoolManager<Dm>)
        requires
            self.path() is Some,
        ensures
            pool.persistant_layer == persistant_layer,
            pool.eviction_policy == EvictionPolicy::Clock,
            pool.wal == Some(
                match self.wal() {
                    Some(wal) => wal,
                    None => Wal,
                },
            ),
            pool.frames@ == Seq::new(BUFFER_SIZE as nat, |i: int| None::<Box<PageFrame>>),
    {
        let wal = match self.wal {
            Some(wal) => wal,
            None => Wal::default(),
        };
        let mut frames: Vec<Option<Box<PageFrame>>> = Vec::new();
        while frames.len() < BUFFER_SIZE
            invariant
                frames@.len() <= BUFFER_SIZE,
                forall|i: int| 0 <= i < frames@.len() ==> (#[trigger] frames@[i]) is None,
            decreases BUFFER_SIZE - frames@.len(),
        {
            frames.push(None);
        }
        assert(frames@ =~= Seq::new(BUFFER_SIZE as nat, |i: int| None::<Box<PageFrame>>));
        BufferPoolManager {
            persistant_layer,
            eviction_policy: EvictionPolicy::Clock,
            wal: Some(wal),
            frames,
        }
    }
}

} // verus!
