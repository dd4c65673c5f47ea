//! The index backup a `pre-commit` window keeps: the index file's bytes as
//! they stood, put back when the window closes without the verb landing.

use vstd::prelude::*;

verus! {

/// The index as it stood before a window opened: where it lives, its bytes
/// (none when there was no index file at all), and whether it is still to
/// be put back.
#[derive(Debug)]
pub struct IndexBackup {
    pub path: String,
    pub bytes: Option<Vec<u8>>,
    pub armed: bool,
}

/// What closing a backup does to the index file.
#[derive(Debug)]
pub enum OnDrop {
    /// The verb landed: the index stays as it now stands.
    Keep,
    /// Write the saved bytes back.
    Write { path: String, bytes: Vec<u8> },
    /// There was no index before: remove the one the window wrote.
    Remove { path: String },
}

impl IndexBackup {
    /// A backup of the index at `path`, armed.
    pub fn new(path: String, bytes: Option<Vec<u8>>) -> (r: IndexBackup)
        ensures
            r.path == path,
            r.bytes == bytes,
            r.armed,
    {
        IndexBackup { path, bytes, armed: true }
    }

    /// Keep the index as it now stands: the close landed.
    pub fn disarm(&mut self)
        ensures
            !final(self).armed,
            final(self).path == old(self).path,
            final(self).bytes == old(self).bytes,
    {
        self.armed = false;
    }

    /// What closing the backup does: nothing once disarmed, else the saved
    /// bytes written back, or the index removed when there was none.
    pub fn on_drop(self) -> (r: OnDrop)
        ensures
            !self.armed ==> r is Keep,
            self.armed ==> match self.bytes {
                Some(b) => r == OnDrop::Write { path: self.path, bytes: b },
                None => r == OnDrop::Remove { path: self.path },
            },
    {
        if !self.armed {
            return OnDrop::Keep;
        }
        match self.bytes {
            Some(b) => OnDrop::Write { path: self.path, bytes: b },
            None => OnDrop::Remove { path: self.path },
        }
    }
}

} // verus!
