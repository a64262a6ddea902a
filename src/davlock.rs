use vstd::prelude::*;

use crate::webpath::{copy_bytes, WebPath};

verus! {

/// What a lock holds, as plain values.
pub struct LockView {
    pub token: Seq<char>,
    pub path: Seq<u8>,
    pub owner: Option<Seq<u8>>,
    pub timeout: Option<u64>,
    pub timeout_at: Option<u64>,
    pub shared: bool,
    pub deep: bool,
}

/// One granted lock. The owner is an opaque blob chosen by the caller;
/// timeouts are in seconds, and `timeout_at` in seconds since the epoch.
#[derive(Debug, Clone)]
pub struct DavLock {
    pub token: String,
    pub path: WebPath,
    pub owner: Option<Vec<u8>>,
    pub timeout_at: Option<u64>,
    pub timeout: Option<u64>,
    pub shared: bool,
    pub deep: bool,
}

impl View for DavLock {
    type V = LockView;

    open spec fn view(&self) -> LockView {
        LockView {
            token: self.token@,
            path: self.path@,
            owner: owner_view(self.owner),
            timeout: self.timeout,
            timeout_at: self.timeout_at,
            shared: self.shared,
            deep: self.deep,
        }
    }
}

pub open spec fn owner_view(o: Option<Vec<u8>>) -> Option<Seq<u8>> {
    match o {
        Some(b) => Some(b@),
        None => None,
    }
}

/// The views of a sequence of locks.
pub open spec fn locks_view(v: Seq<DavLock>) -> Seq<LockView> {
    v.map_values(|l: DavLock| l@)
}

/// The text of each token.
pub open spec fn tokens_view(v: Seq<String>) -> Seq<Seq<char>> {
    v.map_values(|t: String| t@)
}

/// Whether `t` is one of `toks`.
pub fn token_in(toks: &Vec<String>, t: &String) -> (r: bool)
    ensures
        r == tokens_view(toks@).contains(t@),
{
    let mut i: usize = 0;
    while i < toks.len()
        invariant
            i <= toks@.len(),
            forall|j: int| 0 <= j < i ==> toks@[j]@ != t@,
        decreases toks@.len() - i,
    {
        if toks[i] == *t {
            assert(tokens_view(toks@)[i as int] == t@);
            return true;
        }
        i = i + 1;
    }
    proof {
        if tokens_view(toks@).contains(t@) {
            let j = choose|j: int| 0 <= j < tokens_view(toks@).len() && tokens_view(toks@)[j] == t@;
            assert(toks@[j]@ == t@);
        }
    }
    false
}

impl DavLock {
    /// A copy of this lock.
    pub fn copy(&self) -> (r: DavLock)
        ensures
            r@ == self@,
    {
        let owner = match &self.owner {
            Some(o) => Some(copy_bytes(o)),
            None => None,
        };
        DavLock {
            token: self.token.clone(),
            path: self.path.copy(),
            owner,
            timeout_at: self.timeout_at,
            timeout: self.timeout,
            shared: self.shared,
            deep: self.deep,
        }
    }
}

} // verus!
