use vstd::prelude::*;

use crate::davlock::LockView;
use crate::model::{
    acquire_ok, after_acquire, after_delete, after_refresh, after_release, any_held, blocks_below,
    blocks_hard, deep_only, first_hard_at, first_token_at, first_token_level, first_unheld_at,
    found_lock, has_descendant, has_token, held, level_locks, locks_at, path_conflict, path_walk,
    refreshed, subtree_blocked, token_level, token_live, token_pos, walk, walk_conflict,
};

verus! {

proof fn lemma_walk_ext(
    m1: Map<Seq<Seq<u8>>, Seq<LockView>>,
    m2: Map<Seq<Seq<u8>>, Seq<LockView>>,
    segs: Seq<Seq<u8>>,
    k: nat,
    scoped: bool,
)
    requires
        forall|i: nat| i < k ==> level_locks(m1, segs, i, scoped) == level_locks(m2, segs, i, scoped),
    ensures
        walk(m1, segs, k, scoped) == walk(m2, segs, k, scoped),
    decreases k,
{
    if k > 0 {
        lemma_walk_ext(m1, m2, segs, (k - 1) as nat, scoped);
        assert(level_locks(m1, segs, (k - 1) as nat, scoped) == level_locks(m2, segs, (k - 1) as nat, scoped));
    }
}

proof fn lemma_walk_prefix(
    m: Map<Seq<Seq<u8>>, Seq<LockView>>,
    segs: Seq<Seq<u8>>,
    k1: nat,
    k2: nat,
    scoped: bool,
)
    requires
        k1 <= k2,
    ensures
        walk(m, segs, k1, scoped).len() <= walk(m, segs, k2, scoped).len(),
        forall|j: int|
            0 <= j < walk(m, segs, k1, scoped).len() ==> walk(m, segs, k2, scoped)[j] == walk(
                m,
                segs,
                k1,
                scoped,
            )[j],
    decreases k2,
{
    if k1 < k2 {
        lemma_walk_prefix(m, segs, k1, (k2 - 1) as nat, scoped);
    }
}

proof fn lemma_walk_levels_empty(
    m: Map<Seq<Seq<u8>>, Seq<LockView>>,
    segs: Seq<Seq<u8>>,
    k: nat,
    scoped: bool,
)
    ensures
        (forall|i: nat| i < k ==> #[trigger] level_locks(m, segs, i, scoped).len() == 0) <==> walk(
            m,
            segs,
            k,
            scoped,
        ).len() == 0,
    decreases k,
{
    if k > 0 {
        lemma_walk_levels_empty(m, segs, (k - 1) as nat, scoped);
        if walk(m, segs, k, scoped).len() == 0 {
            assert forall|i: nat| i < k implies #[trigger] level_locks(m, segs, i, scoped).len() == 0 by {
                if i < k - 1 {
                    assert(level_locks(m, segs, i, scoped).len() == 0);
                }
            }
        }
    }
}

/// Where lock `x` is met at depth `i` of the walk, the whole walk holds it.
proof fn lemma_walk_meets(
    m: Map<Seq<Seq<u8>>, Seq<LockView>>,
    segs: Seq<Seq<u8>>,
    i: nat,
    scoped: bool,
    x: LockView,
)
    requires
        i <= segs.len(),
        level_locks(m, segs, i, scoped).contains(x),
    ensures
        path_walk(m, segs, scoped).contains(x),
{
    let lv = level_locks(m, segs, i, scoped);
    let j = choose|j: int| 0 <= j < lv.len() && lv[j] == x;
    let w1 = walk(m, segs, i + 1, scoped);
    let off = walk(m, segs, i, scoped).len();
    assert(w1[off + j] == x);
    lemma_walk_prefix(m, segs, i + 1, segs.len() + 1, scoped);
    assert(path_walk(m, segs, scoped)[off + j] == x);
}

proof fn lemma_first_hard_exists(w: Seq<LockView>, toks: Seq<Seq<char>>, i: int)
    requires
        0 <= i < w.len(),
        blocks_hard(w[i], toks),
    ensures
        exists|k: int| first_hard_at(w, toks, k),
    decreases i,
{
    if exists|j: int| 0 <= j < i && blocks_hard(w[j], toks) {
        let j = choose|j: int| 0 <= j < i && blocks_hard(w[j], toks);
        lemma_first_hard_exists(w, toks, j);
    } else {
        assert(first_hard_at(w, toks, i));
    }
}

/// A walk that meets a lock not held blocks where that lock is exclusive,
/// or where shared locks are not tolerated and no token is presented.
proof fn lemma_member_blocks(w: Seq<LockView>, x: LockView, shared_ok: bool)
    requires
        w.contains(x),
        !x.shared || !shared_ok,
    ensures
        walk_conflict(w, Seq::empty(), shared_ok) is Some,
{
    let toks = Seq::<Seq<char>>::empty();
    let i = choose|i: int| 0 <= i < w.len() && w[i] == x;
    assert(!held(x, toks));
    if !x.shared {
        lemma_first_hard_exists(w, toks, i);
    } else {
        assert(!any_held(w, toks));
        assert(first_unheld_at(w, toks, 0));
    }
}

/// With no token presented and no conflict, a walk meets no exclusive lock.
proof fn lemma_clear_walk(w: Seq<LockView>, shared_ok: bool)
    requires
        walk_conflict(w, Seq::empty(), shared_ok) is None,
    ensures
        forall|j: int| 0 <= j < w.len() ==> (#[trigger] w[j]).shared,
        !shared_ok ==> w.len() == 0,
{
    let toks = Seq::<Seq<char>>::empty();
    assert forall|j: int| 0 <= j < w.len() implies (#[trigger] w[j]).shared by {
        if !w[j].shared {
            assert(w.contains(w[j]));
            lemma_member_blocks(w, w[j], shared_ok);
        }
    }
    if !shared_ok && w.len() > 0 {
        assert(w.contains(w[0]));
        lemma_member_blocks(w, w[0], shared_ok);
    }
}

proof fn lemma_deep_only_push(s: Seq<LockView>, l: LockView)
    ensures
        deep_only(s.push(l)) == (if l.deep {
            deep_only(s).push(l)
        } else {
            deep_only(s)
        }),
{
    assert(s.push(l).drop_last() =~= s);
}

proof fn lemma_take_prefix(p: Seq<Seq<u8>>, q: Seq<Seq<u8>>, i: int)
    requires
        p.is_prefix_of(q),
        0 <= i <= q.len(),
    ensures
        i <= p.len() ==> q.take(i) == p.take(i),
        i >= p.len() ==> p.is_prefix_of(q.take(i)),
        i < p.len() ==> !p.is_prefix_of(q.take(i)) && q.take(i) != p,
{
    if i <= p.len() {
        assert(q.take(i) =~= p.take(i));
    }
    if i >= p.len() {
        assert(q.take(i).subrange(0, p.len() as int) =~= p);
    }
}

proof fn lemma_after_acquire_locks(
    m: Map<Seq<Seq<u8>>, Seq<LockView>>,
    p: Seq<Seq<u8>>,
    l: LockView,
    k: Seq<Seq<u8>>,
)
    ensures
        locks_at(after_acquire(m, p, l), k) == (if k == p {
            locks_at(m, p).push(l)
        } else {
            locks_at(m, k)
        }),
{
    assert(p.is_prefix_of(p));
}

/// Two states with the same locks at every path answer every request alike.
proof fn lemma_same_locks(
    m1: Map<Seq<Seq<u8>>, Seq<LockView>>,
    m2: Map<Seq<Seq<u8>>, Seq<LockView>>,
    segs: Seq<Seq<u8>>,
    shared: bool,
    deep: bool,
)
    requires
        forall|k: Seq<Seq<u8>>| #[trigger] locks_at(m1, k) == locks_at(m2, k),
    ensures
        path_walk(m1, segs, true) == path_walk(m2, segs, true),
        path_walk(m1, segs, false) == path_walk(m2, segs, false),
        acquire_ok(m1, segs, shared, deep) == acquire_ok(m2, segs, shared, deep),
{
    assert forall|i: nat| i < segs.len() + 1 implies level_locks(m1, segs, i, true) == level_locks(
        m2,
        segs,
        i,
        true,
    ) by {
        assert(locks_at(m1, segs.take(i as int)) == locks_at(m2, segs.take(i as int)));
    }
    assert forall|i: nat| i < segs.len() + 1 implies level_locks(m1, segs, i, false) == level_locks(
        m2,
        segs,
        i,
        false,
    ) by {
        assert(locks_at(m1, segs.take(i as int)) == locks_at(m2, segs.take(i as int)));
    }
    lemma_walk_ext(m1, m2, segs, segs.len() + 1, true);
    lemma_walk_ext(m1, m2, segs, segs.len() + 1, false);
    assert forall|x: LockView| blocks_below(m1, segs, shared, x) == blocks_below(m2, segs, shared, x) by {
        if blocks_below(m1, segs, shared, x) {
            let (q, j) = choose|q: Seq<Seq<u8>>, j: int|
                segs.is_prefix_of(q) && 0 <= j < locks_at(m1, q).len() && locks_at(m1, q)[j] == x && (
                !x.shared || !shared);
            assert(locks_at(m1, q) == locks_at(m2, q));
        }
        if blocks_below(m2, segs, shared, x) {
            let (q, j) = choose|q: Seq<Seq<u8>>, j: int|
                segs.is_prefix_of(q) && 0 <= j < locks_at(m2, q).len() && locks_at(m2, q)[j] == x && (
                !x.shared || !shared);
            assert(locks_at(m1, q) == locks_at(m2, q));
        }
    }
    assert(subtree_blocked(m1, segs, shared) == subtree_blocked(m2, segs, shared));
}

pub(crate) proof fn lemma_token_level_unique(
    m: Map<Seq<Seq<u8>>, Seq<LockView>>,
    segs: Seq<Seq<u8>>,
    tok: Seq<char>,
    i: int,
)
    requires
        first_token_level(m, segs, tok, i),
    ensures
        token_level(m, segs, tok) == Some(i),
{
    let c = choose|c: int| first_token_level(m, segs, tok, c);
    if c < i {
        assert(!has_token(locks_at(m, segs.take(c)), tok));
    }
    if c > i {
        assert(!has_token(locks_at(m, segs.take(i)), tok));
    }
}

pub(crate) proof fn lemma_token_pos_unique(s: Seq<LockView>, tok: Seq<char>, j: int)
    requires
        first_token_at(s, tok, j),
    ensures
        token_pos(s, tok) == j,
{
    let c = token_pos(s, tok);
    assert(first_token_at(s, tok, c));
    if c < j {
        assert(s[c].token != tok);
    }
    if c > j {
        assert(s[j].token != tok);
    }
}

/// Once an exclusive lock `l` is granted at `p`, any access at `p`, or
/// below `p` where `l` is deep, by a holder of tokens that do not include
/// `l`'s is refused, and the lock cited is `l`: so are fresh requests, which
/// present no token.
pub proof fn law_exclusive_blocks_scope(
    m: Map<Seq<Seq<u8>>, Seq<LockView>>,
    p: Seq<Seq<u8>>,
    q: Seq<Seq<u8>>,
    l: LockView,
    toks: Seq<Seq<char>>,
    shared2: bool,
)
    requires
        !toks.contains(l.token),
        acquire_ok(m, p, false, l.deep),
        !l.shared,
        q == p || (l.deep && p.is_prefix_of(q) && p.len() < q.len()),
    ensures
        path_conflict(after_acquire(m, p, l), q, toks, shared2) == Some(l),
{
    let m1 = after_acquire(m, p, l);
    let n = p.len();
    lemma_clear_walk(path_walk(m, p, true), false);
    lemma_walk_levels_empty(m, p, n + 1, true);
    assert(p.is_prefix_of(q)) by {
        assert(q.subrange(0, p.len() as int) =~= p);
    }
    // the levels above p are as before, and empty
    assert forall|i: nat| i < n implies level_locks(m1, q, i, true) == level_locks(m, p, i, true) by {
        lemma_take_prefix(p, q, i as int);
        lemma_after_acquire_locks(m, p, l, p.take(i as int));
        assert(p.take(i as int).len() != p.len());
    }
    lemma_walk_ext(m1, m, q, n, true);
    assert forall|i: nat| i < n implies level_locks(m, q, i, true) == level_locks(m, p, i, true) by {
        lemma_take_prefix(p, q, i as int);
    }
    lemma_walk_ext(m, m, q, n, true);
    assert forall|i: nat| i < n implies #[trigger] level_locks(m, p, i, true).len() == 0 by {
        assert(level_locks(m, p, i, true).len() == 0);
    }
    lemma_walk_levels_empty(m, p, n, true);
    lemma_walk_levels_empty(m1, q, n, true);
    assert(level_locks(m, p, n, true).len() == 0);
    assert(p.take(n as int) =~= p);
    assert(locks_at(m, p).len() == 0);
    lemma_take_prefix(p, q, n as int);
    lemma_after_acquire_locks(m, p, l, p);
    lemma_deep_only_push(locks_at(m, p), l);
    assert(locks_at(m, p) =~= Seq::<LockView>::empty());
    assert(deep_only(Seq::<LockView>::empty()) == Seq::<LockView>::empty());
    assert(level_locks(m1, q, n, true)[0] == l);
    let w1 = walk(m1, q, n + 1, true);
    assert(w1[0] == l);
    lemma_walk_prefix(m1, q, n + 1, q.len() + 1, true);
    let w = path_walk(m1, q, true);
    assert(w[0] == l);
    assert(first_hard_at(w, toks, 0));
    assert forall|k: int| first_hard_at(w, toks, k) implies k == 0 by {
        if k > 0 {
            assert(!blocks_hard(w[0], toks));
        }
    }
}

/// Two shared locks at one path are both granted; an exclusive request
/// there is then refused.
pub proof fn law_shared_locks_coexist(
    m: Map<Seq<Seq<u8>>, Seq<LockView>>,
    p: Seq<Seq<u8>>,
    l1: LockView,
    l2: LockView,
)
    requires
        acquire_ok(m, p, true, l1.deep),
        l1.shared,
        l2.shared,
    ensures
        acquire_ok(after_acquire(m, p, l1), p, true, l1.deep),
        path_conflict(after_acquire(after_acquire(m, p, l1), p, l2), p, Seq::empty(), false) is Some,
        path_conflict(after_acquire(after_acquire(m, p, l1), p, l2), p, Seq::empty(), false) matches Some(
            c,
        ) ==> c.shared && path_walk(after_acquire(after_acquire(m, p, l1), p, l2), p, false).contains(c),
{
    let m1 = after_acquire(m, p, l1);
    let m2 = after_acquire(m1, p, l2);
    let n = p.len();
    let toks = Seq::<Seq<char>>::empty();
    assert(p.take(n as int) =~= p);
    // the first request leaves only shared locks on the walk
    lemma_clear_walk(path_walk(m, p, true), true);
    assert forall|i: nat| i < n implies level_locks(m1, p, i, true) == level_locks(m, p, i, true) by {
        lemma_after_acquire_locks(m, p, l1, p.take(i as int));
        assert(p.take(i as int).len() != p.len());
    }
    lemma_walk_ext(m1, m, p, n, true);
    lemma_after_acquire_locks(m, p, l1, p);
    let w = path_walk(m, p, true);
    let w1 = path_walk(m1, p, true);
    assert(w1 =~= w.push(l1));
    assert forall|k: int| !first_hard_at(w1, toks, k) by {
        if first_hard_at(w1, toks, k) && k < w.len() {
            assert(w1[k] == w[k]);
        }
    }
    assert forall|x: LockView| l1.deep implies !blocks_below(m1, p, true, x) by {
        if blocks_below(m1, p, true, x) {
            assert(!blocks_below(m, p, true, x));
            let (q, j) = choose|q: Seq<Seq<u8>>, j: int|
                p.is_prefix_of(q) && 0 <= j < locks_at(m1, q).len() && locks_at(m1, q)[j] == x && (
                !x.shared || !true);
            lemma_after_acquire_locks(m, p, l1, q);
            if q == p {
                if j < locks_at(m, p).len() {
                    assert(blocks_below(m, p, true, x));
                }
            } else {
                assert(blocks_below(m, p, true, x));
            }
        }
    }
    // the second meets the first lock at p
    lemma_after_acquire_locks(m1, p, l2, p);
    assert(level_locks(m2, p, n, true) == locks_at(m1, p).push(l2));
    assert(locks_at(m1, p)[locks_at(m, p).len() as int] == l1);
    assert(level_locks(m2, p, n, true)[locks_at(m, p).len() as int] == l1);
    lemma_walk_meets(m2, p, n, true, l1);
    lemma_member_blocks(path_walk(m2, p, true), l1, false);
    // every lock on the second walk is shared, so the one cited is the first
    let w2 = path_walk(m2, p, true);
    assert(w2 =~= w1.push(l2)) by {
        assert forall|i: nat| i < n implies level_locks(m2, p, i, true) == level_locks(m1, p, i, true) by {
            lemma_after_acquire_locks(m1, p, l2, p.take(i as int));
            assert(p.take(i as int).len() != p.len());
        }
        lemma_walk_ext(m2, m1, p, n, true);
    }
    assert forall|j: int| 0 <= j < w2.len() implies (#[trigger] w2[j]).shared by {
        if j < w.len() {
            assert(w2[j] == w[j]);
        }
    }
    assert(!exists|k: int| first_hard_at(w2, toks, k));
    let c = w2[0];
    assert(first_unheld_at(w2, toks, 0));
    assert forall|k: int| first_unheld_at(w2, toks, k) implies k == 0 by {
        if k > 0 {
            assert(held(w2[0], toks));
        }
    }
    lemma_scoped_in_full(m2, p, p.len() + 1, 0);
}

proof fn lemma_deep_only_in(s: Seq<LockView>, j: int)
    requires
        0 <= j < deep_only(s).len(),
    ensures
        s.contains(deep_only(s)[j]),
    decreases s.len(),
{
    if s.len() > 0 {
        let rest = deep_only(s.drop_last());
        if s.last().deep && j == rest.len() {
            assert(s[s.len() - 1] == s.last());
        } else {
            lemma_deep_only_in(s.drop_last(), j);
            let x = deep_only(s)[j];
            let i = choose|i: int| 0 <= i < s.drop_last().len() && s.drop_last()[i] == x;
            assert(s[i] == x);
        }
    }
}

/// A lock met on the scoped walk is met on the full walk too.
proof fn lemma_scoped_in_full(m: Map<Seq<Seq<u8>>, Seq<LockView>>, segs: Seq<Seq<u8>>, k: nat, j: int)
    requires
        k <= segs.len() + 1,
        0 <= j < walk(m, segs, k, true).len(),
    ensures
        path_walk(m, segs, false).contains(walk(m, segs, k, true)[j]),
    decreases k,
{
    let prev = walk(m, segs, (k - 1) as nat, true);
    if j < prev.len() {
        lemma_scoped_in_full(m, segs, (k - 1) as nat, j);
    } else {
        let i = (k - 1) as nat;
        let x = walk(m, segs, k, true)[j];
        let lv = level_locks(m, segs, i, true);
        assert(lv[j - prev.len()] == x);
        if i < segs.len() {
            lemma_deep_only_in(locks_at(m, segs.take(i as int)), j - prev.len());
        } else {
            assert(lv.contains(x));
        }
        assert(level_locks(m, segs, i, false).contains(x));
        lemma_walk_meets(m, segs, i, false, x);
    }
}

/// A deep lock at `p` blocks fresh requests strictly below `p`, unless it
/// and the request are both shared.
pub proof fn law_deep_lock_blocks_descendants(
    m: Map<Seq<Seq<u8>>, Seq<LockView>>,
    p: Seq<Seq<u8>>,
    q: Seq<Seq<u8>>,
    l: LockView,
    shared2: bool,
)
    requires
        acquire_ok(m, p, l.shared, true),
        l.deep,
        p.is_prefix_of(q) && p.len() < q.len(),
        !(l.shared && shared2),
    ensures
        path_conflict(after_acquire(m, p, l), q, Seq::empty(), shared2) is Some,
{
    let m1 = after_acquire(m, p, l);
    let n = p.len();
    lemma_take_prefix(p, q, n as int);
    assert(p.take(n as int) =~= p);
    lemma_after_acquire_locks(m, p, l, p);
    lemma_deep_only_push(locks_at(m, p), l);
    let lv = level_locks(m1, q, n, true);
    assert(lv == deep_only(locks_at(m, p)).push(l));
    assert(lv[lv.len() - 1] == l);
    assert(lv.contains(l));
    lemma_walk_meets(m1, q, n, true, l);
    lemma_member_blocks(path_walk(m1, q, true), l, shared2);
}

/// A lock that is not deep leaves every request strictly below its path
/// decided as before, citing the same lock on the walk where refused.
pub proof fn law_flat_lock_spares_descendants(
    m: Map<Seq<Seq<u8>>, Seq<LockView>>,
    p: Seq<Seq<u8>>,
    q: Seq<Seq<u8>>,
    l: LockView,
    shared2: bool,
    deep2: bool,
)
    requires
        !l.deep,
        p.is_prefix_of(q) && p.len() < q.len(),
    ensures
        acquire_ok(after_acquire(m, p, l), q, shared2, deep2) == acquire_ok(m, q, shared2, deep2),
        path_conflict(after_acquire(m, p, l), q, Seq::empty(), shared2) == path_conflict(
            m,
            q,
            Seq::empty(),
            shared2,
        ),
{
    let m1 = after_acquire(m, p, l);
    assert forall|i: nat| i < q.len() + 1 implies level_locks(m1, q, i, true) == level_locks(
        m,
        q,
        i,
        true,
    ) by {
        lemma_after_acquire_locks(m, p, l, q.take(i as int));
        if q.take(i as int) == p {
            lemma_deep_only_push(locks_at(m, p), l);
        }
    }
    lemma_walk_ext(m1, m, q, q.len() + 1, true);
    assert forall|x: LockView| blocks_below(m1, q, shared2, x) == blocks_below(m, q, shared2, x) by {
        if blocks_below(m1, q, shared2, x) {
            let (r, j) = choose|r: Seq<Seq<u8>>, j: int|
                q.is_prefix_of(r) && 0 <= j < locks_at(m1, r).len() && locks_at(m1, r)[j] == x && (
                !x.shared || !shared2);
            lemma_after_acquire_locks(m, p, l, r);
        }
        if blocks_below(m, q, shared2, x) {
            let (r, j) = choose|r: Seq<Seq<u8>>, j: int|
                q.is_prefix_of(r) && 0 <= j < locks_at(m, r).len() && locks_at(m, r)[j] == x && (
                !x.shared || !shared2);
            lemma_after_acquire_locks(m, p, l, r);
        }
    }
    assert(subtree_blocked(m1, q, shared2) == subtree_blocked(m, q, shared2));
}

/// Releasing a lock granted under a token not live before finds it at its
/// own path and leaves the
/// same locks everywhere as before it was granted: the same request is
/// decided as before, discovery lists the same locks, and a node left with
/// no locks and nothing beneath it is gone.
pub proof fn law_release_restores(
    m: Map<Seq<Seq<u8>>, Seq<LockView>>,
    p: Seq<Seq<u8>>,
    l: LockView,
)
    requires
        !token_live(m, l.token),
    ensures
        token_level(after_acquire(m, p, l), p, l.token) == Some(p.len() as int),
        forall|k: Seq<Seq<u8>>|
            #[trigger] locks_at(after_release(after_acquire(m, p, l), p, l.token), k) == locks_at(m, k),
        acquire_ok(after_release(after_acquire(m, p, l), p, l.token), p, l.shared, l.deep) == acquire_ok(
            m,
            p,
            l.shared,
            l.deep,
        ),
        path_walk(after_release(after_acquire(m, p, l), p, l.token), p, false) == path_walk(m, p, false),
        locks_at(m, p).len() == 0 && !has_descendant(m, p) ==> !after_release(
            after_acquire(m, p, l),
            p,
            l.token,
        ).contains_key(p),
{
    let m1 = after_acquire(m, p, l);
    let n = p.len() as int;
    let tok = l.token;
    assert(p.take(n) =~= p);
    let s = locks_at(m, p);
    lemma_after_acquire_locks(m, p, l, p);
    assert(locks_at(m1, p) == s.push(l));
    assert(has_token(locks_at(m1, p), tok)) by {
        assert(locks_at(m1, p)[s.len() as int].token == tok);
    }
    assert forall|k: Seq<Seq<u8>>| !has_token(#[trigger] locks_at(m, k), tok) by {
        if has_token(locks_at(m, k), tok) {
            assert(m.contains_key(k) && has_token(m[k], tok));
        }
    }
    assert forall|j: int| 0 <= j < n implies !has_token(#[trigger] locks_at(m1, p.take(j)), tok) by {
        assert(!has_token(locks_at(m, p.take(j)), tok));
        lemma_after_acquire_locks(m, p, l, p.take(j));
        assert(p.take(j).len() != p.len());
    }
    assert(first_token_level(m1, p, tok, n));
    lemma_token_level_unique(m1, p, tok, n);
    assert(!has_token(locks_at(m, p.take(n)), tok));
    assert(first_token_at(s.push(l), tok, s.len() as int)) by {
        assert forall|i: int| 0 <= i < s.len() implies s.push(l)[i].token != tok by {
            if s[i].token == tok {
                assert(has_token(s, tok));
            }
        }
    }
    lemma_token_pos_unique(s.push(l), tok, s.len() as int);
    assert(s.push(l).remove(s.len() as int) =~= s);
    let m2 = after_release(m1, p, tok);
    assert(has_descendant(m1, p) == has_descendant(m, p)) by {
        if has_descendant(m1, p) {
            let q = choose|q: Seq<Seq<u8>>| m1.contains_key(q) && p.is_prefix_of(q) && p.len() < q.len();
            if !m.contains_key(q) {
                assert(q.is_prefix_of(p));
            }
        }
        if has_descendant(m, p) {
            let q = choose|q: Seq<Seq<u8>>| m.contains_key(q) && p.is_prefix_of(q) && p.len() < q.len();
            assert(m1.contains_key(q));
        }
    }
    assert forall|k: Seq<Seq<u8>>| #[trigger] locks_at(m2, k) == locks_at(m, k) by {
        lemma_after_acquire_locks(m, p, l, k);
    }
    lemma_same_locks(m2, m, p, l.shared, l.deep);
}

/// Refreshing changes only the timeout of the lock found: the same lock is
/// found afterwards, so a release still succeeds, with its token, path,
/// owner, scope and depth kept.
pub proof fn law_refresh_keeps_location(
    m: Map<Seq<Seq<u8>>, Seq<LockView>>,
    p: Seq<Seq<u8>>,
    tok: Seq<char>,
    timeout: Option<u64>,
    at: Option<u64>,
)
    requires
        token_level(m, p, tok) is Some,
    ensures
        token_level(after_refresh(m, p, tok, timeout, at), p, tok) == token_level(m, p, tok),
        found_lock(after_refresh(m, p, tok, timeout, at), p, tok) == refreshed(
            found_lock(m, p, tok),
            timeout,
            at,
        ),
        ({
            let (a, b) = (found_lock(after_refresh(m, p, tok, timeout, at), p, tok), found_lock(m, p, tok));
            a.token == b.token && a.path == b.path && a.owner == b.owner && a.shared == b.shared && a.deep
                == b.deep && a.timeout == timeout && a.timeout_at == at
        }),
{
    let i0 = token_level(m, p, tok)->Some_0;
    assert(first_token_level(m, p, tok, i0));
    let key = p.take(i0);
    let s = locks_at(m, key);
    let j = token_pos(s, tok);
    assert(first_token_at(s, tok, j)) by {
        let w = choose|w: int| 0 <= w < s.len() && s[w].token == tok;
        assert(exists|c: int| first_token_at(s, tok, c)) by {
            lemma_first_token_exists(s, tok, w);
        }
    }
    let s1 = s.update(j, refreshed(s[j], timeout, at));
    let m1 = after_refresh(m, p, tok, timeout, at);
    assert(m1 == m.insert(key, s1));
    assert forall|k: Seq<Seq<u8>>| #[trigger] has_token(locks_at(m1, k), tok) == has_token(
        locks_at(m, k),
        tok,
    ) by {
        if k == key {
            if has_token(s, tok) {
                let c = choose|c: int| 0 <= c < s.len() && s[c].token == tok;
                assert(s1[c].token == tok);
            }
            if has_token(s1, tok) {
                let c = choose|c: int| 0 <= c < s1.len() && s1[c].token == tok;
                assert(s[c].token == tok);
            }
        }
    }
    assert(first_token_level(m1, p, tok, i0)) by {
        assert(has_token(locks_at(m1, key), tok));
        assert forall|jj: int| 1 <= jj < i0 implies !has_token(#[trigger] locks_at(m1, p.take(jj)), tok) by {
            assert(!has_token(locks_at(m, p.take(jj)), tok));
            assert(has_token(locks_at(m1, p.take(jj)), tok) == has_token(locks_at(m, p.take(jj)), tok));
        }
    }
    lemma_token_level_unique(m1, p, tok, i0);
    assert(locks_at(m1, key) == s1);
    assert(first_token_at(s1, tok, j));
    lemma_token_pos_unique(s1, tok, j);
}

pub(crate) proof fn lemma_first_token_exists(s: Seq<LockView>, tok: Seq<char>, w: int)
    requires
        0 <= w < s.len(),
        s[w].token == tok,
    ensures
        exists|c: int| first_token_at(s, tok, c),
    decreases w,
{
    if exists|c: int| 0 <= c < w && s[c].token == tok {
        let c = choose|c: int| 0 <= c < w && s[c].token == tok;
        lemma_first_token_exists(s, tok, c);
    } else {
        assert(first_token_at(s, tok, w));
    }
}

/// After a cascading delete at `p`, no lock remains at `p` or below; where
/// no ancestor of `p` holds a deep lock, any fresh request at or below `p`
/// is granted, and where no ancestor holds any lock, discovery at `p` finds
/// nothing.
pub proof fn law_cascade_delete_clears_subtree(
    m: Map<Seq<Seq<u8>>, Seq<LockView>>,
    p: Seq<Seq<u8>>,
    q: Seq<Seq<u8>>,
    shared: bool,
    deep: bool,
)
    requires
        forall|i: int| 0 <= i < p.len() ==> deep_only(#[trigger] locks_at(m, p.take(i))).len() == 0,
        p.is_prefix_of(q),
    ensures
        forall|k: Seq<Seq<u8>>| p.is_prefix_of(k) ==> #[trigger] locks_at(after_delete(m, p), k).len() == 0,
        acquire_ok(after_delete(m, p), q, shared, deep),
        (forall|i: int| 0 <= i < p.len() ==> (#[trigger] locks_at(m, p.take(i))).len() == 0) ==> path_walk(
            after_delete(m, p),
            p,
            false,
        ).len() == 0,
{
    let m1 = after_delete(m, p);
    assert forall|k: Seq<Seq<u8>>| #[trigger] locks_at(m1, k) == (if p.is_prefix_of(k) {
        Seq::<LockView>::empty()
    } else {
        locks_at(m, k)
    }) by {}
    assert forall|i: nat| i < q.len() + 1 implies #[trigger] level_locks(m1, q, i, true).len() == 0 by {
        lemma_take_prefix(p, q, i as int);
        if i < p.len() {
            assert(deep_only(locks_at(m, p.take(i as int))).len() == 0);
            assert(locks_at(m1, q.take(i as int)) == locks_at(m, p.take(i as int)));
        } else {
            assert(locks_at(m1, q.take(i as int)).len() == 0);
            assert(locks_at(m1, q.take(i as int)) =~= Seq::<LockView>::empty());
        }
    }
    lemma_walk_levels_empty(m1, q, q.len() + 1, true);
    let w = path_walk(m1, q, true);
    assert(!exists|k: int| first_hard_at(w, Seq::empty(), k));
    assert(!exists|k: int| first_unheld_at(w, Seq::empty(), k));
    if forall|i: int| 0 <= i < p.len() ==> (#[trigger] locks_at(m, p.take(i))).len() == 0 {
        assert forall|i: nat| i < p.len() + 1 implies #[trigger] level_locks(m1, p, i, false).len() == 0 by {
            if i < p.len() {
                assert(locks_at(m, p.take(i as int)).len() == 0);
            } else {
                assert(p.take(i as int) =~= p);
                assert(p.is_prefix_of(p));
            }
            assert(locks_at(m1, p.take(i as int)).len() == 0);
        }
        lemma_walk_levels_empty(m1, p, p.len() + 1, false);
    }
    assert forall|x: LockView| !blocks_below(m1, q, shared, x) by {
        if blocks_below(m1, q, shared, x) {
            let (r, j) = choose|r: Seq<Seq<u8>>, j: int|
                q.is_prefix_of(r) && 0 <= j < locks_at(m1, r).len() && locks_at(m1, r)[j] == x && (
                !x.shared || !shared);
            assert(r.subrange(0, p.len() as int) =~= p);
            assert(p.is_prefix_of(r));
        }
    }
}

} // verus!
