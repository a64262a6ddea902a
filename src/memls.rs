use vstd::prelude::*;

use crate::davlock::{locks_view, owner_view, token_in, tokens_view, DavLock, LockView};
use crate::model::{
    acquire_ok, after_acquire, after_delete, after_refresh, after_release, blocks_below, blocks_hard, consistent,
    deep_only, expiry, first_hard_at, found_lock, is_live, token_live, first_token_at, first_token_level, first_unheld_at, has_descendant,
    has_token, held, locks_at, path_conflict, path_walk, refreshed, subtree_blocked, token_level,
    token_pos, walk, walk_conflict, any_held,
};
use crate::consistency::{
    lemma_acquire_consistent, lemma_delete_consistent, lemma_empty_consistent, lemma_refresh_consistent,
    lemma_release_consistent,
};
use crate::laws::{lemma_token_level_unique, lemma_token_pos_unique};
use crate::outside::{new_token, now_secs};
use crate::webpath::{copy_bytes, copy_path, is_prefix_path, path_equal, seg_view, segments, split_segments, WebPath};

verus! {

/// One node of the path trie: the segments that lead to it from the root,
/// and the locks attached exactly there, in order of creation.
#[derive(Debug)]
struct TrieNode {
    key: Vec<Vec<u8>>,
    locks: Vec<DavLock>,
}

spec fn key_of(n: TrieNode) -> Seq<Seq<u8>> {
    seg_view(n.key@)
}

spec fn node_locks(n: TrieNode) -> Seq<LockView> {
    locks_view(n.locks@)
}

spec fn keys_unique(s: Seq<TrieNode>) -> bool {
    forall|a: int, b: int|
        0 <= a < s.len() && 0 <= b < s.len() && #[trigger] key_of(s[a]) == #[trigger] key_of(s[b])
            ==> a == b
}

spec fn has_key_at(s: Seq<TrieNode>, k: Seq<Seq<u8>>, i: int) -> bool {
    0 <= i < s.len() && key_of(s[i]) == k
}

/// The arena read as a map from path to the locks held there.
spec fn nodes_view(s: Seq<TrieNode>) -> Map<Seq<Seq<u8>>, Seq<LockView>> {
    Map::new(
        |k: Seq<Seq<u8>>| exists|i: int| has_key_at(s, k, i),
        |k: Seq<Seq<u8>>| node_locks(s[choose|i: int| has_key_at(s, k, i)]),
    )
}

proof fn lemma_view_at(s: Seq<TrieNode>, i: int)
    requires
        keys_unique(s),
        0 <= i < s.len(),
    ensures
        nodes_view(s).contains_key(key_of(s[i])),
        nodes_view(s)[key_of(s[i])] == node_locks(s[i]),
{
    let k = key_of(s[i]);
    assert(has_key_at(s, k, i));
    let c = choose|c: int| has_key_at(s, k, c);
    assert(key_of(s[c]) == key_of(s[i]));
}

proof fn lemma_view_has(s: Seq<TrieNode>, k: Seq<Seq<u8>>) -> (i: int)
    requires
        keys_unique(s),
        nodes_view(s).contains_key(k),
    ensures
        has_key_at(s, k, i),
        nodes_view(s)[k] == node_locks(s[i]),
{
    let i = choose|i: int| has_key_at(s, k, i);
    lemma_view_at(s, i);
    i
}

proof fn lemma_view_update(s: Seq<TrieNode>, i: int, n: TrieNode)
    requires
        keys_unique(s),
        0 <= i < s.len(),
        key_of(n) == key_of(s[i]),
    ensures
        keys_unique(s.update(i, n)),
        nodes_view(s.update(i, n)) == nodes_view(s).insert(key_of(n), node_locks(n)),
{
    let t = s.update(i, n);
    assert forall|x: int| 0 <= x < t.len() implies key_of(t[x]) == key_of(s[x]) by {}
    let want = nodes_view(s).insert(key_of(n), node_locks(n));
    assert forall|k: Seq<Seq<u8>>| nodes_view(t).contains_key(k) == want.contains_key(k) by {
        if nodes_view(s).contains_key(k) {
            let c = lemma_view_has(s, k);
            assert(has_key_at(t, k, c));
        }
        if nodes_view(t).contains_key(k) {
            let c = choose|c: int| has_key_at(t, k, c);
            assert(has_key_at(s, k, c));
        }
        if k == key_of(n) {
            assert(has_key_at(t, k, i));
        }
    }
    assert forall|k: Seq<Seq<u8>>| nodes_view(t).contains_key(k) implies nodes_view(t)[k]
        == want[k] by {
        let c = lemma_view_has(t, k);
        lemma_view_at(s, c);
    }
    assert(nodes_view(t) =~= want);
}

proof fn lemma_view_push(s: Seq<TrieNode>, n: TrieNode)
    requires
        keys_unique(s),
        !nodes_view(s).contains_key(key_of(n)),
    ensures
        keys_unique(s.push(n)),
        nodes_view(s.push(n)) == nodes_view(s).insert(key_of(n), node_locks(n)),
{
    let t = s.push(n);
    assert forall|x: int| 0 <= x < s.len() implies key_of(s[x]) != key_of(n) by {
        lemma_view_at(s, x);
    }
    assert forall|a: int, b: int|
        0 <= a < t.len() && 0 <= b < t.len() && #[trigger] key_of(t[a]) == #[trigger] key_of(t[b])
            implies a == b by {
        if a < s.len() && b < s.len() {
            assert(key_of(s[a]) == key_of(s[b]));
        }
    }
    let want = nodes_view(s).insert(key_of(n), node_locks(n));
    assert forall|k: Seq<Seq<u8>>| nodes_view(t).contains_key(k) == want.contains_key(k) by {
        if nodes_view(s).contains_key(k) {
            let c = lemma_view_has(s, k);
            assert(has_key_at(t, k, c));
        }
        if nodes_view(t).contains_key(k) {
            let c = choose|c: int| has_key_at(t, k, c);
            if c < s.len() {
                assert(has_key_at(s, k, c));
            }
        }
        if k == key_of(n) {
            assert(has_key_at(t, k, s.len() as int));
        }
    }
    assert forall|k: Seq<Seq<u8>>| nodes_view(t).contains_key(k) implies nodes_view(t)[k]
        == want[k] by {
        let c = lemma_view_has(t, k);
        if c < s.len() {
            lemma_view_at(s, c);
        }
    }
    assert(nodes_view(t) =~= want);
}

proof fn lemma_view_remove(s: Seq<TrieNode>, i: int)
    requires
        keys_unique(s),
        0 <= i < s.len(),
    ensures
        keys_unique(s.remove(i)),
        nodes_view(s.remove(i)) == nodes_view(s).remove(key_of(s[i])),
{
    let t = s.remove(i);
    assert forall|x: int| 0 <= x < t.len() implies key_of(t[x]) == key_of(
        s[if x < i {
            x
        } else {
            x + 1
        }],
    ) by {}
    assert forall|a: int, b: int|
        0 <= a < t.len() && 0 <= b < t.len() && #[trigger] key_of(t[a]) == #[trigger] key_of(t[b])
            implies a == b by {
        let a1 = if a < i {
            a
        } else {
            a + 1
        };
        let b1 = if b < i {
            b
        } else {
            b + 1
        };
        assert(key_of(s[a1]) == key_of(s[b1]));
    }
    let want = nodes_view(s).remove(key_of(s[i]));
    assert forall|k: Seq<Seq<u8>>| nodes_view(t).contains_key(k) == want.contains_key(k) by {
        if want.contains_key(k) {
            let c = lemma_view_has(s, k);
            assert(c != i);
            if c < i {
                assert(has_key_at(t, k, c));
            } else {
                assert(has_key_at(t, k, c - 1));
            }
        }
        if nodes_view(t).contains_key(k) {
            let c = choose|c: int| has_key_at(t, k, c);
            let c1 = if c < i {
                c
            } else {
                c + 1
            };
            assert(has_key_at(s, k, c1));
            assert(k != key_of(s[i]));
        }
    }
    assert forall|k: Seq<Seq<u8>>| nodes_view(t).contains_key(k) implies nodes_view(t)[k]
        == want[k] by {
        let c = lemma_view_has(t, k);
        let c1 = if c < i {
            c
        } else {
            c + 1
        };
        lemma_view_at(s, c1);
    }
    assert(nodes_view(t) =~= want);
}

/// `m` with nodes added for the prefixes of `segs` of length at most `n`.
spec fn grown(m: Map<Seq<Seq<u8>>, Seq<LockView>>, segs: Seq<Seq<u8>>, n: int) -> Map<
    Seq<Seq<u8>>,
    Seq<LockView>,
> {
    Map::new(
        |k: Seq<Seq<u8>>| m.contains_key(k) || (k.is_prefix_of(segs) && k.len() <= n),
        |k: Seq<Seq<u8>>| locks_at(m, k),
    )
}

/// `s` without the nodes at `segs` or below, among its first `i` nodes.
spec fn kept_view(s: Seq<TrieNode>, segs: Seq<Seq<u8>>, i: int) -> Map<Seq<Seq<u8>>, Seq<LockView>> {
    Map::new(
        |k: Seq<Seq<u8>>| (exists|j: int| 0 <= j < i && has_key_at(s, k, j)) && !segs.is_prefix_of(k),
        |k: Seq<Seq<u8>>| nodes_view(s)[k],
    )
}

/// The position of the first lock with token `tok`.
fn token_position(locks: &Vec<DavLock>, tok: &String) -> (r: Option<usize>)
    ensures
        r matches Some(j) ==> first_token_at(locks_view(locks@), tok@, j as int),
        r is None ==> !has_token(locks_view(locks@), tok@),
{
    let ghost ls = locks_view(locks@);
    let mut j: usize = 0;
    while j < locks.len()
        invariant
            j <= locks@.len(),
            ls == locks_view(locks@),
            forall|i: int| 0 <= i < j ==> ls[i].token != tok@,
        decreases locks@.len() - j,
    {
        if locks[j].token == *tok {
            return Some(j);
        }
        j = j + 1;
    }
    None
}

/// Absolute expiry, saturating at the largest time.
fn expiry_at(now: u64, timeout: Option<u64>) -> (r: Option<u64>)
    ensures
        r == expiry(now, timeout),
{
    match timeout {
        None => None,
        Some(t) => if t > u64::MAX - now {
            Some(u64::MAX)
        } else {
            Some(now + t)
        },
    }
}

/// An in-memory lock system: a trie of paths, each node holding the locks
/// attached exactly at its path.
#[derive(Debug)]
pub struct MemLs {
    nodes: Vec<TrieNode>,
}

impl View for MemLs {
    type V = Map<Seq<Seq<u8>>, Seq<LockView>>;

    closed spec fn view(&self) -> Map<Seq<Seq<u8>>, Seq<LockView>> {
        nodes_view(self.nodes@)
    }
}

impl MemLs {
    /// No two nodes of the trie stand for the same path, and the lock table
    /// is consistent.
    pub closed spec fn wf(&self) -> bool {
        keys_unique(self.nodes@) && consistent(self@)
    }

    spec fn unique(&self) -> bool {
        keys_unique(self.nodes@)
    }

    /// Creates an empty lock system.
    pub fn new() -> (r: Box<MemLs>)
        ensures
            r.wf(),
            consistent(r@),
            r@ == Map::<Seq<Seq<u8>>, Seq<LockView>>::empty(),
    {
        let r = MemLs { nodes: Vec::new() };
        assert(r@ =~= Map::<Seq<Seq<u8>>, Seq<LockView>>::empty());
        proof {
            lemma_empty_consistent();
        }
        Box::new(r)
    }

    /// The index of the node at path `key`.
    fn lookup_node(&self, key: &Vec<Vec<u8>>) -> (r: Option<usize>)
        requires
            self.unique(),
        ensures
            match r {
                Some(i) => i < self.nodes@.len() && key_of(self.nodes@[i as int]) == seg_view(key@),
                None => !self@.contains_key(seg_view(key@)),
            },
    {
        let mut i: usize = 0;
        while i < self.nodes.len()
            invariant
                i <= self.nodes@.len(),
                forall|j: int| 0 <= j < i ==> key_of(self.nodes@[j]) != seg_view(key@),
            decreases self.nodes@.len() - i,
        {
            if path_equal(&self.nodes[i].key, key) {
                return Some(i);
            }
            i = i + 1;
        }
        proof {
            if self@.contains_key(seg_view(key@)) {
                lemma_view_has(self.nodes@, seg_view(key@));
            }
        }
        None
    }

    /// Appends to `out` the locks attached at `key`; only the deep ones
    /// where `deep_only_wanted`.
    fn append_level(&self, key: &Vec<Vec<u8>>, deep_only_wanted: bool, out: &mut Vec<DavLock>)
        requires
            self.unique(),
        ensures
            locks_view(final(out)@) == locks_view(old(out)@) + (if deep_only_wanted {
                deep_only(locks_at(self@, seg_view(key@)))
            } else {
                locks_at(self@, seg_view(key@))
            }),
    {
        let ghost start = locks_view(out@);
        match self.lookup_node(key) {
            None => {
                assert(locks_view(out@) =~= start + Seq::<LockView>::empty());
            },
            Some(idx) => {
                proof {
                    lemma_view_at(self.nodes@, idx as int);
                }
                let locks = &self.nodes[idx].locks;
                let ghost ls = locks_view(locks@);
                let mut j: usize = 0;
                while j < locks.len()
                    invariant
                        j <= locks@.len(),
                        ls == locks_view(locks@),
                        locks_view(out@) == start + (if deep_only_wanted {
                            deep_only(ls.take(j as int))
                        } else {
                            ls.take(j as int)
                        }),
                    decreases locks@.len() - j,
                {
                    let ghost before = locks_view(out@);
                    proof {
                        assert(ls.take(j + 1).drop_last() =~= ls.take(j as int));
                    }
                    if !deep_only_wanted || locks[j].deep {
                        let c = locks[j].copy();
                        out.push(c);
                        assert(locks_view(out@) =~= before.push(c@));
                    } else {
                        assert(locks_view(out@) =~= before);
                    }
                    j = j + 1;
                    if deep_only_wanted {
                        assert(locks_view(out@) =~= start + deep_only(ls.take(j as int)));
                    } else {
                        assert(locks_view(out@) =~= start + ls.take(j as int));
                    }
                }
                assert(ls.take(j as int) =~= ls);
            },
        }
    }

    /// The locks met on the walk from the root to `segs`, in walk order.
    /// With `scoped`, locks above the target count only if deep.
    fn path_locks(&self, segs: &Vec<Vec<u8>>, scoped: bool) -> (r: Vec<DavLock>)
        requires
            self.unique(),
        ensures
            locks_view(r@) == path_walk(self@, seg_view(segs@), scoped),
    {
        let ghost sv = seg_view(segs@);
        let mut out: Vec<DavLock> = Vec::new();
        let mut prefix: Vec<Vec<u8>> = Vec::new();
        assert(seg_view(prefix@) =~= sv.take(0));
        assert(locks_view(out@) =~= walk(self@, sv, 0, scoped));
        self.append_level(&prefix, scoped && 0 < segs.len(), &mut out);
        let mut i: usize = 0;
        while i < segs.len()
            invariant
                i <= segs@.len(),
                sv == seg_view(segs@),
                self.unique(),
                seg_view(prefix@) == sv.take(i as int),
                locks_view(out@) == walk(self@, sv, (i + 1) as nat, scoped),
            decreases segs@.len() - i,
        {
            let ghost before = prefix@;
            let c = copy_bytes(&segs[i]);
            prefix.push(c);
            assert(c@ == sv[i as int]);
            assert(seg_view(prefix@) =~= seg_view(before).push(c@));
            assert(seg_view(prefix@) =~= sv.take(i + 1));
            i = i + 1;
            self.append_level(&prefix, scoped && i < segs.len(), &mut out);
        }
        out
    }

    /// The index of the node at `key`, which is created if missing.
    fn ensure_node(&mut self, key: &Vec<Vec<u8>>) -> (r: usize)
        requires
            old(self).unique(),
        ensures
            final(self).unique(),
            r < final(self).nodes@.len(),
            key_of(final(self).nodes@[r as int]) == seg_view(key@),
            final(self)@ == (if old(self)@.contains_key(seg_view(key@)) {
                old(self)@
            } else {
                old(self)@.insert(seg_view(key@), Seq::empty())
            }),
    {
        match self.lookup_node(key) {
            Some(i) => {
                proof {
                    lemma_view_at(self.nodes@, i as int);
                }
                i
            },
            None => {
                let n = TrieNode { key: copy_path(key), locks: Vec::new() };
                assert(node_locks(n) =~= Seq::<LockView>::empty());
                proof {
                    lemma_view_push(self.nodes@, n);
                }
                self.nodes.push(n);
                self.nodes.len() - 1
            },
        }
    }

    /// The index of the node at `segs`; nodes are created along the whole
    /// path where missing.
    fn get_or_create_path_node(&mut self, segs: &Vec<Vec<u8>>) -> (r: usize)
        requires
            old(self).unique(),
        ensures
            final(self).unique(),
            r < final(self).nodes@.len(),
            key_of(final(self).nodes@[r as int]) == seg_view(segs@),
            final(self)@ == grown(old(self)@, seg_view(segs@), segs@.len() as int),
    {
        let ghost sv = seg_view(segs@);
        let ghost m0 = self@;
        let mut prefix: Vec<Vec<u8>> = Vec::new();
        assert(seg_view(prefix@) =~= sv.take(0));
        let mut idx = self.ensure_node(&prefix);
        proof {
            assert forall|k: Seq<Seq<u8>>| (k.is_prefix_of(sv) && k.len() <= 0) implies k == sv.take(0) by {
                assert(k =~= sv.take(0));
            }
            assert(self@ =~= grown(m0, sv, 0));
        }
        let mut i: usize = 0;
        while i < segs.len()
            invariant
                i <= segs@.len(),
                sv == seg_view(segs@),
                self.unique(),
                seg_view(prefix@) == sv.take(i as int),
                idx < self.nodes@.len(),
                key_of(self.nodes@[idx as int]) == sv.take(i as int),
                self@ == grown(m0, sv, i as int),
            decreases segs@.len() - i,
        {
            let ghost before = prefix@;
            let c = copy_bytes(&segs[i]);
            prefix.push(c);
            assert(c@ == sv[i as int]);
            assert(seg_view(prefix@) =~= seg_view(before).push(c@));
            assert(seg_view(prefix@) =~= sv.take(i + 1));
            idx = self.ensure_node(&prefix);
            proof {
                let nk = sv.take(i + 1);
                assert forall|k: Seq<Seq<u8>>|
                    (k.is_prefix_of(sv) && k.len() <= i + 1) implies (k.len() <= i || k == nk) by {
                    if k.len() == i + 1 {
                        assert(k =~= nk);
                    }
                }
                assert(nk.is_prefix_of(sv));
                assert(self@ =~= grown(m0, sv, i + 1));
            }
            i = i + 1;
        }
        proof {
            assert(sv.take(i as int) =~= sv);
        }
        idx
    }

    /// Appends `l` to the locks of node `idx`.
    fn push_lock(&mut self, idx: usize, l: DavLock)
        requires
            old(self).unique(),
            idx < old(self).nodes@.len(),
        ensures
            final(self).unique(),
            final(self)@ == old(self)@.insert(
                key_of(old(self).nodes@[idx as int]),
                node_locks(old(self).nodes@[idx as int]).push(l@),
            ),
    {
        let ghost s0 = self.nodes@;
        let mut node = self.nodes.remove(idx);
        let ghost before = node_locks(node);
        node.locks.push(l);
        assert(node_locks(node) =~= before.push(l@));
        self.nodes.insert(idx, node);
        proof {
            assert(self.nodes@ =~= s0.update(idx as int, node));
            lemma_view_update(s0, idx as int, node);
        }
    }

    /// Grants a lock at `path` with the given token, if nothing blocks it;
    /// the blocking lock otherwise. A token that is already live is refused,
    /// with the lock that carries it. `now` is the time in seconds since the
    /// epoch from which the expiry is computed.
    pub fn lock_with(
        &mut self,
        path: &WebPath,
        owner: Option<Vec<u8>>,
        timeout: Option<u64>,
        shared: bool,
        deep: bool,
        token: String,
        now: u64,
    ) -> (r: Result<DavLock, DavLock>)
        requires
            old(self).wf(),
        ensures
            final(self).wf(),
            consistent(final(self)@),
            r is Ok <==> acquire_ok(old(self)@, segments(path@), shared, deep) && !token_live(
                old(self)@,
                token@,
            ),
            r matches Ok(l) ==> l@ == (LockView {
                token: token@,
                path: path@,
                owner: owner_view(owner),
                timeout: timeout,
                timeout_at: expiry(now, timeout),
                shared: shared,
                deep: deep,
            }) && final(self)@ == after_acquire(old(self)@, segments(path@), l@),
            r matches Err(c) ==> final(self)@ == old(self)@ && (path_conflict(
                old(self)@,
                segments(path@),
                Seq::empty(),
                shared,
            ) == Some(c@) || (path_conflict(old(self)@, segments(path@), Seq::empty(), shared) is None
                && deep && blocks_below(old(self)@, segments(path@), shared, c@)) || (acquire_ok(
                old(self)@,
                segments(path@),
                shared,
                deep,
            ) && c@.token == token@ && is_live(old(self)@, c@))),
    {
        let segs = split_segments(path.as_bytes());
        let ghost sv = seg_view(segs@);
        let ghost m0 = self@;
        let no_tokens: Vec<String> = Vec::new();
        assert(tokens_view(no_tokens@) =~= Seq::<Seq<char>>::empty());
        match self.check_locks_to_path(&segs, &no_tokens, shared) {
            Err(c) => {
                return Err(c);
            },
            Ok(_) => {},
        }
        if deep {
            match self.check_locks_from_path(&segs, shared) {
                Err(c) => {
                    return Err(c);
                },
                Ok(_) => {},
            }
        }
        if let Some(c) = self.find_token(&token) {
            proof {
                let k = choose|k: Seq<Seq<u8>>| self@.contains_key(k) && #[trigger] self@[k].contains(c@);
                let j = choose|j: int| 0 <= j < self@[k].len() && self@[k][j] == c@;
                assert(has_token(self@[k], token@));
            }
            return Err(c);
        }
        let idx = self.get_or_create_path_node(&segs);
        let timeout_at = expiry_at(now, timeout);
        let lock = DavLock { token, path: path.copy(), owner, timeout_at, timeout, shared, deep };
        let stored = lock.copy();
        proof {
            lemma_view_at(self.nodes@, idx as int);
        }
        self.push_lock(idx, stored);
        proof {
            assert(self@ =~= after_acquire(m0, sv, lock@));
            lemma_acquire_consistent(m0, sv, lock@);
        }
        Ok(lock)
    }

    /// Grants a lock at `path` under a fresh token, if nothing blocks it;
    /// the blocking lock otherwise. Should the drawn token already be live,
    /// the request is refused with the lock that carries it. Locks on the path count when they are
    /// deep or attached at `path` itself; exclusive ones always block, and
    /// shared ones block an exclusive request. A deep request is also
    /// blocked by locks below `path`, where shared ones are tolerated only
    /// by a shared request.
    pub fn lock(
        &mut self,
        path: &WebPath,
        owner: Option<Vec<u8>>,
        timeout: Option<u64>,
        shared: bool,
        deep: bool,
    ) -> (r: Result<DavLock, DavLock>)
        requires
            old(self).wf(),
        ensures
            final(self).wf(),
            consistent(final(self)@),
            r is Ok ==> acquire_ok(old(self)@, segments(path@), shared, deep),
            r matches Ok(l) ==> l@.path == path@ && l@.owner == owner_view(owner) && l@.timeout
                == timeout && (exists|n: u64| l@.timeout_at == expiry(n, timeout)) && l@.shared
                == shared && l@.deep == deep && l@.token.len() == 45 && !token_live(
                old(self)@,
                l@.token,
            ) && final(self)@ == after_acquire(old(self)@, segments(path@), l@),
            r matches Err(c) ==> final(self)@ == old(self)@ && (path_conflict(
                old(self)@,
                segments(path@),
                Seq::empty(),
                shared,
            ) == Some(c@) || (path_conflict(old(self)@, segments(path@), Seq::empty(), shared) is None
                && deep && blocks_below(old(self)@, segments(path@), shared, c@)) || (acquire_ok(
                old(self)@,
                segments(path@),
                shared,
                deep,
            ) && is_live(old(self)@, c@))),
    {
        let token = new_token();
        let now = now_secs();
        let r = self.lock_with(path, owner, timeout, shared, deep, token, now);
        if let Ok(l) = &r {
            assert(l@.timeout_at == expiry(now, timeout));
        }
        r
    }

    /// A copy of the live lock that carries token `tok`, if any.
    fn find_token(&self, tok: &String) -> (r: Option<DavLock>)
        requires
            self.unique(),
        ensures
            r matches Some(c) ==> c@.token == tok@ && is_live(self@, c@),
            r is None ==> !token_live(self@, tok@),
    {
        let mut i: usize = 0;
        while i < self.nodes.len()
            invariant
                i <= self.nodes@.len(),
                self.unique(),
                forall|k: int| 0 <= k < i ==> !has_token(#[trigger] node_locks(self.nodes@[k]), tok@),
            decreases self.nodes@.len() - i,
        {
            if let Some(j) = token_position(&self.nodes[i].locks, tok) {
                let c = self.nodes[i].locks[j].copy();
                proof {
                    lemma_view_at(self.nodes@, i as int);
                    let k = key_of(self.nodes@[i as int]);
                    assert(self@[k][j as int] == c@);
                    assert(self@.contains_key(k) && self@[k].contains(c@));
                }
                return Some(c);
            }
            i = i + 1;
        }
        proof {
            assert forall|k: Seq<Seq<u8>>| !(self@.contains_key(k) && #[trigger] has_token(self@[k], tok@)) by {
                if self@.contains_key(k) {
                    let x = lemma_view_has(self.nodes@, k);
                }
            }
        }
        None
    }

    /// The index of the node at `key`, where it holds a lock with token `tok`.
    fn level_token(&self, key: &Vec<Vec<u8>>, tok: &String) -> (r: Option<usize>)
        requires
            self.unique(),
        ensures
            r matches Some(idx) ==> idx < self.nodes@.len() && key_of(self.nodes@[idx as int])
                == seg_view(key@) && has_token(node_locks(self.nodes@[idx as int]), tok@)
                && locks_at(self@, seg_view(key@)) == node_locks(self.nodes@[idx as int]),
            r is None ==> !has_token(locks_at(self@, seg_view(key@)), tok@),
    {
        match self.lookup_node(key) {
            None => None,
            Some(idx) => {
                proof {
                    lemma_view_at(self.nodes@, idx as int);
                }
                match token_position(&self.nodes[idx].locks, tok) {
                    None => None,
                    Some(j) => {
                        assert(first_token_at(node_locks(self.nodes@[idx as int]), tok@, j as int));
                        Some(idx)
                    },
                }
            },
        }
    }

    /// The index of the shallowest node on the path `segs`, the root
    /// included, that holds a lock with token `tok`.
    fn lookup_lock(&self, segs: &Vec<Vec<u8>>, tok: &String) -> (r: Option<usize>)
        requires
            self.unique(),
        ensures
            r is None <==> token_level(self@, seg_view(segs@), tok@) is None,
            r matches Some(idx) ==> idx < self.nodes@.len() && token_level(
                self@,
                seg_view(segs@),
                tok@,
            ) == Some(key_of(self.nodes@[idx as int]).len() as int) && key_of(self.nodes@[idx as int])
                == seg_view(segs@).take(key_of(self.nodes@[idx as int]).len() as int) && has_token(
                node_locks(self.nodes@[idx as int]),
                tok@,
            ),
    {
        let ghost sv = seg_view(segs@);
        let ghost m = self@;
        let mut prefix: Vec<Vec<u8>> = Vec::new();
        assert(seg_view(prefix@) =~= sv.take(0));
        if let Some(idx) = self.level_token(&prefix, tok) {
            proof {
                assert(first_token_level(m, sv, tok@, 0));
                lemma_token_level_unique(m, sv, tok@, 0);
            }
            return Some(idx);
        }
        let mut i: usize = 0;
        while i < segs.len()
            invariant
                i <= segs@.len(),
                sv == seg_view(segs@),
                m == self@,
                self.unique(),
                seg_view(prefix@) == sv.take(i as int),
                forall|j: int| 0 <= j <= i ==> !has_token(#[trigger] locks_at(m, sv.take(j)), tok@),
            decreases segs@.len() - i,
        {
            let ghost before = prefix@;
            let c = copy_bytes(&segs[i]);
            prefix.push(c);
            assert(c@ == sv[i as int]);
            assert(seg_view(prefix@) =~= seg_view(before).push(c@));
            assert(seg_view(prefix@) =~= sv.take(i + 1));
            if let Some(idx) = self.level_token(&prefix, tok) {
                proof {
                    let lv = (i + 1) as int;
                    assert(first_token_level(m, sv, tok@, lv));
                    lemma_token_level_unique(m, sv, tok@, lv);
                }
                return Some(idx);
            }
            i = i + 1;
        }
        proof {
            assert forall|k: int| !first_token_level(m, sv, tok@, k) by {
                if first_token_level(m, sv, tok@, k) {
                    assert(!has_token(locks_at(m, sv.take(k)), tok@));
                }
            }
        }
        None
    }

    /// Whether some node lies strictly below node `idx`.
    fn has_descendant_node(&self, idx: usize) -> (r: bool)
        requires
            self.unique(),
            idx < self.nodes@.len(),
        ensures
            r == has_descendant(self@, key_of(self.nodes@[idx as int])),
    {
        let ghost p = key_of(self.nodes@[idx as int]);
        let mut i: usize = 0;
        while i < self.nodes.len()
            invariant
                i <= self.nodes@.len(),
                self.unique(),
                idx < self.nodes@.len(),
                p == key_of(self.nodes@[idx as int]),
                forall|j: int|
                    0 <= j < i ==> !(p.is_prefix_of(#[trigger] key_of(self.nodes@[j])) && p.len() < key_of(
                        self.nodes@[j],
                    ).len()),
            decreases self.nodes@.len() - i,
        {
            if self.nodes[i].key.len() > self.nodes[idx].key.len() && is_prefix_path(
                &self.nodes[idx].key,
                &self.nodes[i].key,
            ) {
                proof {
                    lemma_view_at(self.nodes@, i as int);
                }
                return true;
            }
            i = i + 1;
        }
        proof {
            assert forall|q: Seq<Seq<u8>>| !(self@.contains_key(q) && p.is_prefix_of(q) && p.len() < q.len()) by {
                if self@.contains_key(q) {
                    let k = lemma_view_has(self.nodes@, q);
                }
            }
        }
        false
    }

    /// Releases the lock with `token`, located by the walk from the root
    /// along `path`: the shallowest node that holds it, the root included. A
    /// node left with no locks and no nodes beneath is removed.
    pub fn unlock(&mut self, path: &WebPath, token: &String) -> (r: Result<(), ()>)
        requires
            old(self).wf(),
        ensures
            final(self).wf(),
            consistent(final(self)@),
            r is Ok <==> token_level(old(self)@, segments(path@), token@) is Some,
            final(self)@ == after_release(old(self)@, segments(path@), token@),
    {
        let segs = split_segments(path.as_bytes());
        proof {
            lemma_release_consistent(self@, segments(path@), token@);
        }
        let ghost s0 = self.nodes@;
        let idx = match self.lookup_lock(&segs, token) {
            None => {
                return Err(());
            },
            Some(n) => n,
        };
        let pos = match token_position(&self.nodes[idx].locks, token) {
            None => {
                return Err(());
            },
            Some(p) => p,
        };
        let desc = self.has_descendant_node(idx);
        let ghost ls = node_locks(s0[idx as int]);
        proof {
            lemma_view_at(s0, idx as int);
            lemma_token_pos_unique(ls, token@, pos as int);
        }
        let node = self.nodes.remove(idx);
        let TrieNode { key, mut locks } = node;
        locks.remove(pos);
        assert(locks_view(locks@) =~= ls.remove(pos as int));
        if locks.len() == 0 && !desc {
            proof {
                lemma_view_remove(s0, idx as int);
            }
        } else {
            let n = TrieNode { key, locks };
            self.nodes.insert(idx, n);
            proof {
                assert(self.nodes@ =~= s0.update(idx as int, n));
                lemma_view_update(s0, idx as int, n);
            }
        }
        Ok(())
    }

    /// Gives the lock with `token`, located as `unlock` locates it, a new
    /// timeout, with expiry computed from `now`; its other fields stay.
    pub fn refresh_with(&mut self, path: &WebPath, token: &String, timeout: Option<u64>, now: u64) -> (r:
        Result<DavLock, ()>)
        requires
            old(self).wf(),
        ensures
            final(self).wf(),
            consistent(final(self)@),
            r is Ok <==> token_level(old(self)@, segments(path@), token@) is Some,
            r matches Ok(l) ==> l@ == refreshed(
                found_lock(old(self)@, segments(path@), token@),
                timeout,
                expiry(now, timeout),
            ),
            final(self)@ == after_refresh(
                old(self)@,
                segments(path@),
                token@,
                timeout,
                expiry(now, timeout),
            ),
    {
        let segs = split_segments(path.as_bytes());
        proof {
            lemma_refresh_consistent(self@, segments(path@), token@, timeout, expiry(now, timeout));
        }
        let ghost s0 = self.nodes@;
        let idx = match self.lookup_lock(&segs, token) {
            None => {
                return Err(());
            },
            Some(n) => n,
        };
        let pos = match token_position(&self.nodes[idx].locks, token) {
            None => {
                return Err(());
            },
            Some(p) => p,
        };
        let ghost ls = node_locks(s0[idx as int]);
        proof {
            lemma_view_at(s0, idx as int);
            lemma_token_pos_unique(ls, token@, pos as int);
        }
        let timeout_at = expiry_at(now, timeout);
        let node = self.nodes.remove(idx);
        let TrieNode { key, mut locks } = node;
        let mut l = locks.remove(pos);
        l.timeout = timeout;
        l.timeout_at = timeout_at;
        let out = l.copy();
        locks.insert(pos, l);
        assert(locks_view(locks@) =~= ls.update(pos as int, refreshed(ls[pos as int], timeout, timeout_at)));
        let n = TrieNode { key, locks };
        self.nodes.insert(idx, n);
        proof {
            assert(self.nodes@ =~= s0.update(idx as int, n));
            lemma_view_update(s0, idx as int, n);
        }
        Ok(out)
    }

    /// Gives the lock with `token`, located as `unlock` locates it, a new
    /// timeout counted from now; its other fields stay.
    pub fn refresh(&mut self, path: &WebPath, token: &String, timeout: Option<u64>) -> (r: Result<
        DavLock,
        (),
    >)
        requires
            old(self).wf(),
        ensures
            final(self).wf(),
            consistent(final(self)@),
            r is Ok <==> token_level(old(self)@, segments(path@), token@) is Some,
            r matches Ok(l) ==> (exists|n: u64| l@.timeout_at == expiry(n, timeout)) && l@ == refreshed(
                found_lock(old(self)@, segments(path@), token@),
                timeout,
                l@.timeout_at,
            ) && final(self)@ == after_refresh(
                old(self)@,
                segments(path@),
                token@,
                timeout,
                l@.timeout_at,
            ),
            r is Err ==> final(self)@ == old(self)@,
    {
        let now = now_secs();
        let r = self.refresh_with(path, token, timeout, now);
        if let Ok(l) = &r {
            assert(l@.timeout_at == expiry(now, timeout));
        }
        r
    }

    /// Removes the node at `path` and every node beneath it, with their
    /// locks; never fails, and a path with no node is no error.
    pub fn delete(&mut self, path: &WebPath) -> (r: Result<(), ()>)
        requires
            old(self).wf(),
        ensures
            final(self).wf(),
            consistent(final(self)@),
            r is Ok,
            final(self)@ == after_delete(old(self)@, segments(path@)),
    {
        let segs = split_segments(path.as_bytes());
        proof {
            lemma_delete_consistent(self@, segments(path@));
        }
        let ghost sv = seg_view(segs@);
        let mut rest: Vec<TrieNode> = Vec::new();
        std::mem::swap(&mut self.nodes, &mut rest);
        let ghost s0 = rest@;
        let ghost n0 = rest@.len();
        let ghost mut i: int = 0;
        assert(self.nodes@ =~= Seq::<TrieNode>::empty());
        assert(nodes_view(self.nodes@) =~= kept_view(s0, sv, 0));
        while rest.len() > 0
            invariant
                sv == seg_view(segs@),
                keys_unique(s0),
                0 <= i <= n0,
                n0 == s0.len(),
                rest@ == s0.subrange(i, n0 as int),
                keys_unique(self.nodes@),
                nodes_view(self.nodes@) == kept_view(s0, sv, i),
            decreases rest@.len(),
        {
            let n = rest.remove(0);
            assert(n == s0[i]);
            let ghost g = self.nodes@;
            proof {
                lemma_view_at(s0, i);
            }
            if !is_prefix_path(&segs, &n.key) {
                proof {
                    if nodes_view(g).contains_key(key_of(n)) {
                        let j = choose|j: int| 0 <= j < i && has_key_at(s0, key_of(n), j);
                        assert(key_of(s0[j]) == key_of(s0[i]));
                    }
                    lemma_view_push(g, n);
                }
                self.nodes.push(n);
                proof {
                    assert forall|k: Seq<Seq<u8>>| #[trigger] kept_view(s0, sv, i + 1).contains_key(k) == nodes_view(g).insert(key_of(n), node_locks(n)).contains_key(k) by {
                        if kept_view(s0, sv, i + 1).contains_key(k) && k != key_of(n) {
                            let j = choose|j: int| 0 <= j < i + 1 && has_key_at(s0, k, j);
                            assert(j != i);
                        }
                    }
                    assert(nodes_view(self.nodes@) =~= kept_view(s0, sv, i + 1));
                }
            } else {
                proof {
                    assert forall|k: Seq<Seq<u8>>| #[trigger] kept_view(s0, sv, i + 1).contains_key(k) == kept_view(s0, sv, i).contains_key(k) by {
                        if kept_view(s0, sv, i + 1).contains_key(k) {
                            let j = choose|j: int| 0 <= j < i + 1 && has_key_at(s0, k, j);
                            assert(j != i);
                        }
                    }
                    assert(kept_view(s0, sv, i + 1) =~= kept_view(s0, sv, i));
                }
            }
            proof {
                i = i + 1;
            }
            assert(rest@ =~= s0.subrange(i, n0 as int));
        }
        proof {
            assert(nodes_view(self.nodes@) =~= after_delete(nodes_view(s0), sv));
        }
        Ok(())
    }

    /// Checks the walk from the root to `segs` against the locks met there,
    /// for a holder of `toks`. Exclusive locks not held block at once; with
    /// `shared_ok` false, a shared lock blocks too unless some presented
    /// token matched any lock on the walk.
    fn check_locks_to_path(&self, segs: &Vec<Vec<u8>>, toks: &Vec<String>, shared_ok: bool) -> (r:
        Result<(), DavLock>)
        requires
            self.unique(),
        ensures
            r is Ok <==> path_conflict(self@, seg_view(segs@), tokens_view(toks@), shared_ok) is None,
            r matches Err(l) ==> path_conflict(self@, seg_view(segs@), tokens_view(toks@), shared_ok)
                == Some(l@),
    {
        let w = self.path_locks(segs, true);
        let ghost wv = locks_view(w@);
        let ghost tv = tokens_view(toks@);
        let mut holds_lock = false;
        let mut first_seen: Option<usize> = None;
        let mut i: usize = 0;
        while i < w.len()
            invariant
                i <= w@.len(),
                wv == locks_view(w@),
                wv == path_walk(self@, seg_view(segs@), true),
                tv == tokens_view(toks@),
                forall|j: int| 0 <= j < i ==> !blocks_hard(wv[j], tv),
                holds_lock == exists|j: int| 0 <= j < i && held(wv[j], tv),
                match first_seen {
                    None => forall|j: int| 0 <= j < i ==> shared_ok || held(wv[j], tv),
                    Some(f) => !shared_ok && f < i && first_unheld_at(wv, tv, f as int),
                },
            decreases w@.len() - i,
        {
            let m = token_in(toks, &w[i].token);
            assert(wv[i as int].token == w@[i as int].token@);
            if m {
                holds_lock = true;
            } else {
                if !w[i].shared {
                    proof {
                        assert(first_hard_at(wv, tv, i as int));
                        assert forall|k: int| first_hard_at(wv, tv, k) implies k == i by {
                            if k < i {
                                assert(!blocks_hard(wv[k], tv));
                            }
                            if k > i {
                                assert(!blocks_hard(wv[i as int], tv));
                            }
                        }
                        assert(walk_conflict(wv, tv, shared_ok) == Some(wv[i as int]));
                    }
                    let c = w[i].copy();
                    assert(c@ == wv[i as int]);
                    return Err(c);
                }
                if !shared_ok && first_seen.is_none() {
                    first_seen = Some(i);
                }
            }
            i = i + 1;
        }
        assert(!exists|k: int| first_hard_at(wv, tv, k));
        if !holds_lock {
            if let Some(f) = first_seen {
                proof {
                    assert forall|k: int| first_unheld_at(wv, tv, k) implies k == f by {
                        if k < f {
                            assert(held(wv[k], tv));
                        }
                        if k > f {
                            assert(held(wv[f as int], tv));
                        }
                    }
                    assert(walk_conflict(wv, tv, shared_ok) == Some(wv[f as int]));
                }
                let c = w[f].copy();
                assert(c@ == wv[f as int]);
                return Err(c);
            }
        }
        proof {
            if !shared_ok && !any_held(wv, tv) {
                assert(!exists|k: int| first_unheld_at(wv, tv, k));
            }
        }
        Ok(())
    }

    /// Checks the locks of one node against a deep request.
    fn check_locks_from_node(&self, idx: usize, shared_ok: bool) -> (r: Result<(), DavLock>)
        requires
            self.unique(),
            idx < self.nodes@.len(),
        ensures
            r is Ok ==> forall|j: int|
                0 <= j < node_locks(self.nodes@[idx as int]).len() ==> (#[trigger] node_locks(
                    self.nodes@[idx as int],
                )[j]).shared && shared_ok,
            r matches Err(l) ==> exists|j: int|
                0 <= j < node_locks(self.nodes@[idx as int]).len() && node_locks(
                    self.nodes@[idx as int],
                )[j] == l@ && (!l@.shared || !shared_ok),
    {
        let locks = &self.nodes[idx].locks;
        let ghost ls = node_locks(self.nodes@[idx as int]);
        let mut j: usize = 0;
        while j < locks.len()
            invariant
                j <= locks@.len(),
                ls == locks_view(locks@),
                ls == node_locks(self.nodes@[idx as int]),
                forall|k: int| 0 <= k < j ==> (#[trigger] ls[k]).shared && shared_ok,
            decreases locks@.len() - j,
        {
            if !locks[j].shared || !shared_ok {
                let c = locks[j].copy();
                assert(ls[j as int] == c@);
                assert(0 <= j < ls.len() && ls[j as int] == c@ && (!c@.shared || !shared_ok));
                return Err(c);
            }
            j = j + 1;
        }
        Ok(())
    }

    /// Checks every node at `segs` or below against a deep request.
    fn check_locks_from_path(&self, segs: &Vec<Vec<u8>>, shared_ok: bool) -> (r: Result<(), DavLock>)
        requires
            self.unique(),
        ensures
            r is Ok ==> !subtree_blocked(self@, seg_view(segs@), shared_ok),
            r matches Err(l) ==> blocks_below(self@, seg_view(segs@), shared_ok, l@),
    {
        let ghost sv = seg_view(segs@);
        let mut i: usize = 0;
        while i < self.nodes.len()
            invariant
                i <= self.nodes@.len(),
                self.unique(),
                sv == seg_view(segs@),
                forall|k: int, j: int|
                    0 <= k < i && sv.is_prefix_of(key_of(self.nodes@[k])) && 0 <= j < node_locks(
                        self.nodes@[k],
                    ).len() ==> (#[trigger] node_locks(self.nodes@[k])[j]).shared && shared_ok,
            decreases self.nodes@.len() - i,
        {
            if is_prefix_path(segs, &self.nodes[i].key) {
                match self.check_locks_from_node(i, shared_ok) {
                    Ok(_) => {},
                    Err(l) => {
                        proof {
                            lemma_view_at(self.nodes@, i as int);
                            let q = key_of(self.nodes@[i as int]);
                            let j = choose|j: int|
                                0 <= j < node_locks(self.nodes@[i as int]).len() && node_locks(
                                    self.nodes@[i as int],
                                )[j] == l@ && (!l@.shared || !shared_ok);
                            assert(sv.is_prefix_of(q) && 0 <= j < locks_at(self@, q).len()
                                && locks_at(self@, q)[j] == l@);
                        }
                        return Err(l);
                    },
                }
            }
            i = i + 1;
        }
        proof {
            assert forall|l: LockView| !blocks_below(self@, sv, shared_ok, l) by {
                if blocks_below(self@, sv, shared_ok, l) {
                    let (q, j) = choose|q: Seq<Seq<u8>>, j: int|
                        sv.is_prefix_of(q) && 0 <= j < locks_at(self@, q).len() && locks_at(self@, q)[j]
                            == l && (!l.shared || !shared_ok);
                    assert(self@.contains_key(q));
                    let k = lemma_view_has(self.nodes@, q);
                    assert(node_locks(self.nodes@[k])[j].shared && shared_ok);
                }
            }
        }
        Ok(())
    }

    /// Whether an operation on `path` may go ahead for a holder of
    /// `submitted_tokens`; the blocking lock otherwise. Shared locks are not
    /// tolerated unless one of the tokens matched a lock on the walk.
    pub fn check(&self, path: &WebPath, submitted_tokens: &Vec<String>) -> (r: Result<(), DavLock>)
        requires
            self.wf(),
        ensures
            r is Ok <==> path_conflict(self@, segments(path@), tokens_view(submitted_tokens@), false)
                is None,
            r matches Err(l) ==> path_conflict(self@, segments(path@), tokens_view(submitted_tokens@), false)
                == Some(l@),
    {
        let segs = split_segments(path.as_bytes());
        self.check_locks_to_path(&segs, submitted_tokens, false)
    }

    /// All locks at `path` and at its ancestors, from the root down.
    pub fn discover(&self, path: &WebPath) -> (r: Vec<DavLock>)
        requires
            self.wf(),
        ensures
            locks_view(r@) == path_walk(self@, segments(path@), false),
    {
        let segs = split_segments(path.as_bytes());
        self.path_locks(&segs, false)
    }
}

} // verus!
