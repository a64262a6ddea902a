use vstd::prelude::*;

use crate::davlock::LockView;
use crate::webpath::segments;

verus! {

/// The locks attached exactly at path `p` (none where no node exists).
pub open spec fn locks_at(m: Map<Seq<Seq<u8>>, Seq<LockView>>, p: Seq<Seq<u8>>) -> Seq<LockView> {
    if m.contains_key(p) {
        m[p]
    } else {
        Seq::empty()
    }
}

/// The deep locks of `s`, in order.
pub open spec fn deep_only(s: Seq<LockView>) -> Seq<LockView>
    decreases s.len(),
{
    if s.len() == 0 {
        s
    } else {
        let rest = deep_only(s.drop_last());
        if s.last().deep {
            rest.push(s.last())
        } else {
            rest
        }
    }
}

/// The locks met at depth `i` of a walk along `segs`. With `scoped`, a lock
/// above the target counts only if it is deep.
pub open spec fn level_locks(
    m: Map<Seq<Seq<u8>>, Seq<LockView>>,
    segs: Seq<Seq<u8>>,
    i: nat,
    scoped: bool,
) -> Seq<LockView> {
    if scoped && i < segs.len() {
        deep_only(locks_at(m, segs.take(i as int)))
    } else {
        locks_at(m, segs.take(i as int))
    }
}

/// The locks met at depths `0..k` of a walk from the root along `segs`.
pub open spec fn walk(
    m: Map<Seq<Seq<u8>>, Seq<LockView>>,
    segs: Seq<Seq<u8>>,
    k: nat,
    scoped: bool,
) -> Seq<LockView>
    decreases k,
{
    if k == 0 {
        Seq::empty()
    } else {
        walk(m, segs, (k - 1) as nat, scoped) + level_locks(m, segs, (k - 1) as nat, scoped)
    }
}

/// The locks met from the root down to the target, inclusive.
pub open spec fn path_walk(
    m: Map<Seq<Seq<u8>>, Seq<LockView>>,
    segs: Seq<Seq<u8>>,
    scoped: bool,
) -> Seq<LockView> {
    walk(m, segs, segs.len() + 1, scoped)
}

pub open spec fn held(l: LockView, toks: Seq<Seq<char>>) -> bool {
    toks.contains(l.token)
}

/// An exclusive lock whose token was not presented.
pub open spec fn blocks_hard(l: LockView, toks: Seq<Seq<char>>) -> bool {
    !held(l, toks) && !l.shared
}

pub open spec fn first_hard_at(w: Seq<LockView>, toks: Seq<Seq<char>>, i: int) -> bool {
    &&& 0 <= i < w.len()
    &&& blocks_hard(w[i], toks)
    &&& forall|j: int| 0 <= j < i ==> !blocks_hard(w[j], toks)
}

pub open spec fn first_unheld_at(w: Seq<LockView>, toks: Seq<Seq<char>>, i: int) -> bool {
    &&& 0 <= i < w.len()
    &&& !held(w[i], toks)
    &&& forall|j: int| 0 <= j < i ==> held(w[j], toks)
}

pub open spec fn any_held(w: Seq<LockView>, toks: Seq<Seq<char>>) -> bool {
    exists|i: int| 0 <= i < w.len() && held(w[i], toks)
}

/// The lock that blocks access along the walk `w`: the first exclusive lock
/// not held; else, where shared locks are not tolerated and no token matched
/// anything on the walk, the first lock not held.
pub open spec fn walk_conflict(w: Seq<LockView>, toks: Seq<Seq<char>>, shared_ok: bool) -> Option<
    LockView,
> {
    if exists|i: int| first_hard_at(w, toks, i) {
        Some(w[choose|i: int| first_hard_at(w, toks, i)])
    } else if !shared_ok && !any_held(w, toks) && exists|i: int| first_unheld_at(w, toks, i) {
        Some(w[choose|i: int| first_unheld_at(w, toks, i)])
    } else {
        None
    }
}

/// The lock that blocks access to `segs` for a holder of `toks`.
pub open spec fn path_conflict(
    m: Map<Seq<Seq<u8>>, Seq<LockView>>,
    segs: Seq<Seq<u8>>,
    toks: Seq<Seq<char>>,
    shared_ok: bool,
) -> Option<LockView> {
    walk_conflict(path_walk(m, segs, true), toks, shared_ok)
}

/// A lock at `segs` or below that keeps a deep lock from being granted.
pub open spec fn blocks_below(
    m: Map<Seq<Seq<u8>>, Seq<LockView>>,
    segs: Seq<Seq<u8>>,
    shared_ok: bool,
    l: LockView,
) -> bool {
    exists|q: Seq<Seq<u8>>, j: int|
        segs.is_prefix_of(q) && 0 <= j < locks_at(m, q).len() && locks_at(m, q)[j] == l && (!l.shared
            || !shared_ok)
}

pub open spec fn subtree_blocked(
    m: Map<Seq<Seq<u8>>, Seq<LockView>>,
    segs: Seq<Seq<u8>>,
    shared_ok: bool,
) -> bool {
    exists|l: LockView| blocks_below(m, segs, shared_ok, l)
}

/// Whether a fresh lock may be granted at `segs`.
pub open spec fn acquire_ok(
    m: Map<Seq<Seq<u8>>, Seq<LockView>>,
    segs: Seq<Seq<u8>>,
    shared: bool,
    deep: bool,
) -> bool {
    path_conflict(m, segs, Seq::empty(), shared) is None && !(deep && subtree_blocked(m, segs, shared))
}

/// Absolute expiry: `now + timeout` seconds, saturating.
pub open spec fn expiry(now: u64, timeout: Option<u64>) -> Option<u64> {
    match timeout {
        None => None,
        Some(t) => if now + t > u64::MAX {
            Some(u64::MAX)
        } else {
            Some((now + t) as u64)
        },
    }
}

/// The state after a lock `l` is attached at `segs`: nodes exist on the
/// whole path, and `l` follows the locks already there.
pub open spec fn after_acquire(
    m: Map<Seq<Seq<u8>>, Seq<LockView>>,
    segs: Seq<Seq<u8>>,
    l: LockView,
) -> Map<Seq<Seq<u8>>, Seq<LockView>> {
    Map::new(
        |k: Seq<Seq<u8>>| m.contains_key(k) || k.is_prefix_of(segs),
        |k: Seq<Seq<u8>>| if k == segs { locks_at(m, segs).push(l) } else { locks_at(m, k) },
    )
}

pub open spec fn has_token(s: Seq<LockView>, tok: Seq<char>) -> bool {
    exists|j: int| 0 <= j < s.len() && s[j].token == tok
}

/// Whether some lock anywhere in `m` carries token `tok`.
pub open spec fn token_live(m: Map<Seq<Seq<u8>>, Seq<LockView>>, tok: Seq<char>) -> bool {
    exists|k: Seq<Seq<u8>>| m.contains_key(k) && #[trigger] has_token(m[k], tok)
}

/// Whether `l` is one of the locks held in `m`.
pub open spec fn is_live(m: Map<Seq<Seq<u8>>, Seq<LockView>>, l: LockView) -> bool {
    exists|k: Seq<Seq<u8>>| m.contains_key(k) && #[trigger] m[k].contains(l)
}

pub open spec fn first_token_at(s: Seq<LockView>, tok: Seq<char>, j: int) -> bool {
    &&& 0 <= j < s.len()
    &&& s[j].token == tok
    &&& forall|i: int| 0 <= i < j ==> s[i].token != tok
}

/// The position of the first lock in `s` with token `tok`.
pub open spec fn token_pos(s: Seq<LockView>, tok: Seq<char>) -> int {
    choose|j: int| first_token_at(s, tok, j)
}

pub open spec fn first_token_level(
    m: Map<Seq<Seq<u8>>, Seq<LockView>>,
    segs: Seq<Seq<u8>>,
    tok: Seq<char>,
    i: int,
) -> bool {
    &&& 0 <= i <= segs.len()
    &&& has_token(locks_at(m, segs.take(i)), tok)
    &&& forall|j: int| 0 <= j < i ==> !has_token(#[trigger] locks_at(m, segs.take(j)), tok)
}

/// The depth of the shallowest node on the path `segs`, the root included,
/// that holds a lock with token `tok`.
pub open spec fn token_level(
    m: Map<Seq<Seq<u8>>, Seq<LockView>>,
    segs: Seq<Seq<u8>>,
    tok: Seq<char>,
) -> Option<int> {
    if exists|i: int| first_token_level(m, segs, tok, i) {
        Some(choose|i: int| first_token_level(m, segs, tok, i))
    } else {
        None
    }
}

pub open spec fn has_descendant(m: Map<Seq<Seq<u8>>, Seq<LockView>>, p: Seq<Seq<u8>>) -> bool {
    exists|q: Seq<Seq<u8>>| m.contains_key(q) && p.is_prefix_of(q) && p.len() < q.len()
}

/// The state after the lock with token `tok` found on the walk along `segs`
/// is released. A node left with no locks and no descendants is removed.
pub open spec fn after_release(
    m: Map<Seq<Seq<u8>>, Seq<LockView>>,
    segs: Seq<Seq<u8>>,
    tok: Seq<char>,
) -> Map<Seq<Seq<u8>>, Seq<LockView>> {
    match token_level(m, segs, tok) {
        None => m,
        Some(i) => {
            let p = segs.take(i);
            let rest = locks_at(m, p).remove(token_pos(locks_at(m, p), tok));
            if rest.len() == 0 && !has_descendant(m, p) {
                m.remove(p)
            } else {
                m.insert(p, rest)
            }
        },
    }
}

/// The lock that release and refresh act on: the first with token `tok`
/// at the shallowest node that holds one.
pub open spec fn found_lock(
    m: Map<Seq<Seq<u8>>, Seq<LockView>>,
    segs: Seq<Seq<u8>>,
    tok: Seq<char>,
) -> LockView {
    let s = locks_at(m, segs.take(token_level(m, segs, tok)->Some_0));
    s[token_pos(s, tok)]
}

/// A lock with its timeout replaced.
pub open spec fn refreshed(l: LockView, timeout: Option<u64>, at: Option<u64>) -> LockView {
    LockView { timeout: timeout, timeout_at: at, ..l }
}

/// The state after the lock with token `tok` found on the walk along `segs`
/// gets a new timeout.
pub open spec fn after_refresh(
    m: Map<Seq<Seq<u8>>, Seq<LockView>>,
    segs: Seq<Seq<u8>>,
    tok: Seq<char>,
    timeout: Option<u64>,
    at: Option<u64>,
) -> Map<Seq<Seq<u8>>, Seq<LockView>> {
    match token_level(m, segs, tok) {
        None => m,
        Some(i) => {
            let p = segs.take(i);
            let s = locks_at(m, p);
            let j = token_pos(s, tok);
            m.insert(p, s.update(j, refreshed(s[j], timeout, at)))
        },
    }
}

/// The state after the node at `segs` and everything beneath it are removed.
pub open spec fn after_delete(
    m: Map<Seq<Seq<u8>>, Seq<LockView>>,
    segs: Seq<Seq<u8>>,
) -> Map<Seq<Seq<u8>>, Seq<LockView>> {
    Map::new(|k: Seq<Seq<u8>>| m.contains_key(k) && !segs.is_prefix_of(k), |k: Seq<Seq<u8>>| m[k])
}

} // verus!

verus! {

/// Every ancestor of a node is a node.
pub open spec fn prefix_closed(m: Map<Seq<Seq<u8>>, Seq<LockView>>) -> bool {
    forall|k: Seq<Seq<u8>>, q: Seq<Seq<u8>>|
        #[trigger] m.contains_key(k) && #[trigger] q.is_prefix_of(k) ==> m.contains_key(q)
}

/// Each lock is attached at the node of its own path.
pub open spec fn locks_in_place(m: Map<Seq<Seq<u8>>, Seq<LockView>>) -> bool {
    forall|k: Seq<Seq<u8>>, j: int|
        m.contains_key(k) && 0 <= j < m[k].len() ==> segments(#[trigger] m[k][j].path) == k
}

/// No two live locks share a token.
pub open spec fn tokens_distinct(m: Map<Seq<Seq<u8>>, Seq<LockView>>) -> bool {
    forall|k1: Seq<Seq<u8>>, j1: int, k2: Seq<Seq<u8>>, j2: int|
        m.contains_key(k1) && m.contains_key(k2) && 0 <= j1 < m[k1].len() && 0 <= j2 < m[k2].len()
            && (#[trigger] m[k1][j1]).token == (#[trigger] m[k2][j2]).token ==> k1 == k2 && j1 == j2
}

/// What holds of every lock table the operations reach from an empty one.
pub open spec fn consistent(m: Map<Seq<Seq<u8>>, Seq<LockView>>) -> bool {
    prefix_closed(m) && locks_in_place(m) && tokens_distinct(m)
}

} // verus!
