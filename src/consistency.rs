use vstd::prelude::*;

use crate::davlock::LockView;
use crate::model::{
    after_acquire, after_delete, after_refresh, after_release, consistent, first_token_at,
    first_token_level, has_descendant, has_token, locks_at, locks_in_place, prefix_closed, refreshed,
    token_live, token_level, token_pos, tokens_distinct,
};
use crate::webpath::segments;

verus! {

proof fn lemma_prefix_trans(a: Seq<Seq<u8>>, b: Seq<Seq<u8>>, c: Seq<Seq<u8>>)
    requires
        a.is_prefix_of(b),
        b.is_prefix_of(c),
    ensures
        a.is_prefix_of(c),
{
    assert(c.subrange(0, a.len() as int) =~= b.subrange(0, a.len() as int));
}

pub proof fn lemma_empty_consistent()
    ensures
        consistent(Map::<Seq<Seq<u8>>, Seq<LockView>>::empty()),
{
}

/// Granting a lock at its own path, under a token not live, keeps the
/// table consistent.
pub proof fn lemma_acquire_consistent(
    m: Map<Seq<Seq<u8>>, Seq<LockView>>,
    segs: Seq<Seq<u8>>,
    l: LockView,
)
    requires
        consistent(m),
        segments(l.path) == segs,
        !token_live(m, l.token),
    ensures
        consistent(after_acquire(m, segs, l)),
{
    let m1 = after_acquire(m, segs, l);
    assert(segs.is_prefix_of(segs));
    assert forall|k: Seq<Seq<u8>>, q: Seq<Seq<u8>>|
        #[trigger] m1.contains_key(k) && #[trigger] q.is_prefix_of(k) implies m1.contains_key(q) by {
        if !m.contains_key(k) {
            lemma_prefix_trans(q, k, segs);
        }
    }
    assert forall|k: Seq<Seq<u8>>, j: int|
        m1.contains_key(k) && 0 <= j < m1[k].len() implies segments(#[trigger] m1[k][j].path) == k by {
        if m.contains_key(k) {
            if !(k == segs && j == m[k].len()) {
                assert(m1[k][j] == m[k][j]);
            }
        }
    }
    assert forall|k1: Seq<Seq<u8>>, j1: int, k2: Seq<Seq<u8>>, j2: int|
        m1.contains_key(k1) && m1.contains_key(k2) && 0 <= j1 < m1[k1].len() && 0 <= j2 < m1[k2].len()
            && (#[trigger] m1[k1][j1]).token == (#[trigger] m1[k2][j2]).token implies k1 == k2 && j1
        == j2 by {
        let new1 = k1 == segs && j1 == locks_at(m, segs).len();
        let new2 = k2 == segs && j2 == locks_at(m, segs).len();
        if !new1 {
            assert(m.contains_key(k1) && m1[k1][j1] == m[k1][j1]);
        }
        if !new2 {
            assert(m.contains_key(k2) && m1[k2][j2] == m[k2][j2]);
        }
        if new1 && !new2 {
            assert(has_token(m[k2], l.token));
        }
        if new2 && !new1 {
            assert(has_token(m[k1], l.token));
        }
    }
}

/// Deleting a subtree keeps the table consistent.
pub proof fn lemma_delete_consistent(m: Map<Seq<Seq<u8>>, Seq<LockView>>, segs: Seq<Seq<u8>>)
    requires
        consistent(m),
    ensures
        consistent(after_delete(m, segs)),
{
    let m1 = after_delete(m, segs);
    assert forall|k: Seq<Seq<u8>>, q: Seq<Seq<u8>>|
        #[trigger] m1.contains_key(k) && #[trigger] q.is_prefix_of(k) implies m1.contains_key(q) by {
        assert(m.contains_key(q));
        if segs.is_prefix_of(q) {
            lemma_prefix_trans(segs, q, k);
        }
    }
    assert forall|k: Seq<Seq<u8>>, j: int|
        m1.contains_key(k) && 0 <= j < m1[k].len() implies segments(#[trigger] m1[k][j].path) == k by {
        assert(m1[k][j] == m[k][j]);
    }
    assert forall|k1: Seq<Seq<u8>>, j1: int, k2: Seq<Seq<u8>>, j2: int|
        m1.contains_key(k1) && m1.contains_key(k2) && 0 <= j1 < m1[k1].len() && 0 <= j2 < m1[k2].len()
            && (#[trigger] m1[k1][j1]).token == (#[trigger] m1[k2][j2]).token implies k1 == k2 && j1
        == j2 by {
        assert(m1[k1][j1] == m[k1][j1]);
        assert(m1[k2][j2] == m[k2][j2]);
    }
}

/// A new timeout keeps the table consistent.
pub proof fn lemma_refresh_consistent(
    m: Map<Seq<Seq<u8>>, Seq<LockView>>,
    segs: Seq<Seq<u8>>,
    tok: Seq<char>,
    timeout: Option<u64>,
    at: Option<u64>,
)
    requires
        consistent(m),
    ensures
        consistent(after_refresh(m, segs, tok, timeout, at)),
{
    let m1 = after_refresh(m, segs, tok, timeout, at);
    if let Some(i) = token_level(m, segs, tok) {
        assert(first_token_level(m, segs, tok, i));
        let p = segs.take(i);
        assert(m.contains_key(p));
        assert(m1.dom() =~= m.dom());
        let s = locks_at(m, p);
        let jj = token_pos(s, tok);
        let w = choose|w: int| 0 <= w < s.len() && s[w].token == tok;
        assert(exists|c: int| first_token_at(s, tok, c)) by {
            crate::laws::lemma_first_token_exists(s, tok, w);
        }
        assert(first_token_at(s, tok, jj));
        let s1 = s.update(jj, refreshed(s[jj], timeout, at));
        assert(m1 == m.insert(p, s1));
        assert forall|k: Seq<Seq<u8>>, j: int| m1.contains_key(k) && 0 <= j < m1[k].len() implies (
        #[trigger] m1[k][j]).path == m[k][j].path && m1[k][j].token == m[k][j].token && m1[k].len()
            == m[k].len() by {
            if k == p {
                assert(m1[k] == s1);
                assert(m[k] == s);
            }
        }
        assert forall|k: Seq<Seq<u8>>, q: Seq<Seq<u8>>|
            #[trigger] m1.contains_key(k) && #[trigger] q.is_prefix_of(k) implies m1.contains_key(q) by {
            assert(m.contains_key(k));
        }
        assert forall|k: Seq<Seq<u8>>, j: int|
            m1.contains_key(k) && 0 <= j < m1[k].len() implies segments(#[trigger] m1[k][j].path) == k by {
            assert(m1[k][j].path == m[k][j].path);
        }
        assert forall|k1: Seq<Seq<u8>>, j1: int, k2: Seq<Seq<u8>>, j2: int|
            m1.contains_key(k1) && m1.contains_key(k2) && 0 <= j1 < m1[k1].len() && 0 <= j2 < m1[k2].len()
                && (#[trigger] m1[k1][j1]).token == (#[trigger] m1[k2][j2]).token implies k1 == k2 && j1
            == j2 by {
            assert(m1[k1][j1].token == m[k1][j1].token);
            assert(m1[k2][j2].token == m[k2][j2].token);
        }
    }
}

/// Releasing a lock keeps the table consistent.
pub proof fn lemma_release_consistent(
    m: Map<Seq<Seq<u8>>, Seq<LockView>>,
    segs: Seq<Seq<u8>>,
    tok: Seq<char>,
)
    requires
        consistent(m),
    ensures
        consistent(after_release(m, segs, tok)),
{
    let m1 = after_release(m, segs, tok);
    if let Some(i) = token_level(m, segs, tok) {
        assert(first_token_level(m, segs, tok, i));
        let p = segs.take(i);
        assert(m.contains_key(p));
        let s = locks_at(m, p);
        let pos = token_pos(s, tok);
        let w = choose|w: int| 0 <= w < s.len() && s[w].token == tok;
        assert(exists|c: int| first_token_at(s, tok, c)) by {
            crate::laws::lemma_first_token_exists(s, tok, w);
        }
        assert(first_token_at(s, tok, pos));
        let rest = s.remove(pos);
        // each remaining position maps to a position of the old table
        assert forall|k: Seq<Seq<u8>>, j: int| m1.contains_key(k) && 0 <= j < m1[k].len() implies m.contains_key(
            k,
        ) && (#[trigger] m1[k][j]) == m[k][if k == p && j >= pos {
            j + 1
        } else {
            j
        }] && (if k == p && j >= pos {
            j + 1
        } else {
            j
        }) < m[k].len() by {}
        assert forall|k: Seq<Seq<u8>>, q: Seq<Seq<u8>>|
            #[trigger] m1.contains_key(k) && #[trigger] q.is_prefix_of(k) implies m1.contains_key(q) by {
            assert(m.contains_key(q));
            if q == p && !m1.contains_key(q) {
                assert(k != p);
                assert(p.len() < k.len()) by {
                    if p.len() == k.len() {
                        assert(k =~= p);
                    }
                }
                assert(has_descendant(m, p));
            }
        }
        assert forall|k: Seq<Seq<u8>>, j: int|
            m1.contains_key(k) && 0 <= j < m1[k].len() implies segments(#[trigger] m1[k][j].path) == k by {
            let j0 = if k == p && j >= pos {
                j + 1
            } else {
                j
            };
            assert(m1[k][j] == m[k][j0]);
        }
        assert forall|k1: Seq<Seq<u8>>, j1: int, k2: Seq<Seq<u8>>, j2: int|
            m1.contains_key(k1) && m1.contains_key(k2) && 0 <= j1 < m1[k1].len() && 0 <= j2 < m1[k2].len()
                && (#[trigger] m1[k1][j1]).token == (#[trigger] m1[k2][j2]).token implies k1 == k2 && j1
            == j2 by {
            let a = if k1 == p && j1 >= pos {
                j1 + 1
            } else {
                j1
            };
            let b = if k2 == p && j2 >= pos {
                j2 + 1
            } else {
                j2
            };
            assert(m1[k1][j1] == m[k1][a]);
            assert(m1[k2][j2] == m[k2][b]);
        }
    }
}

} // verus!
