use vstd::prelude::*;

use crate::error::ParseError;

verus! {

/// The decisions of a watcher that polls a table file: it remembers the hash
/// of the content that its snapshot was last parsed from.
pub struct Watcher {
    /// The hash of the content behind the current snapshot, if any.
    pub last_hash: Option<u64>,
}

impl Watcher {
    /// A watcher whose snapshot was parsed from content with hash `hash`.
    pub fn new(hash: Option<u64>) -> (r: Watcher)
        ensures
            r.last_hash == hash,
    {
        Watcher { last_hash: hash }
    }

    /// Whether a tick that computed `hash` (`None` where the file could not
    /// be read) calls for a new parse: only a readable content whose hash
    /// differs from the remembered one does.
    pub fn needs_refresh(&self, hash: Option<u64>) -> (r: bool)
        ensures
            r == (hash is Some && self.last_hash != hash),
    {
        match hash {
            None => false,
            Some(h) => match self.last_hash {
                Some(l) => l != h,
                None => true,
            },
        }
    }

    /// Takes the outcome of parsing content with hash `hash`: a fresh
    /// snapshot replaces the current one and its hash is remembered; a failed
    /// parse leaves both as they were, so that the next tick tries again.
    pub fn refresh<T>(&mut self, hash: u64, current: &mut T, fresh: Result<T, ParseError>)
        ensures
            match fresh {
                Ok(v) => *final(current) == v && final(self).last_hash == Some(hash),
                Err(_) => *final(current) == *old(current) && final(self).last_hash == old(
                    self,
                ).last_hash,
            },
    {
        match fresh {
            Ok(v) => {
                *current = v;
                self.last_hash = Some(hash);
            },
            Err(_) => {},
        }
    }
}

} // verus!
