//! Move sequences: where they lead, when they are legal, and when a search
//! may take them.

use vstd::prelude::*;
use crate::board::{Move, arrangement_ok, fingerprint, legal, step, solved, lemma_step_ok, lemma_fingerprint_injective};

verus! {

/// The arrangement reached from `s` by applying the moves of `p` in order.
pub open spec fn apply_path(s: Seq<Option<u8>>, p: Seq<Move>) -> Seq<Option<u8>>
    decreases p.len(),
{
    if p.len() == 0 {
        s
    } else {
        step(apply_path(s, p.drop_last()), p.last())
    }
}

/// Every move of `p` is legal when its turn comes.
pub open spec fn valid_path(s: Seq<Option<u8>>, p: Seq<Move>) -> bool
    decreases p.len(),
{
    p.len() == 0 || (valid_path(s, p.drop_last()) && legal(apply_path(s, p.drop_last()), p.last()))
}

/// The arrangement after the first `i` moves of `p`.
pub open spec fn state_after(s: Seq<Option<u8>>, p: Seq<Move>, i: int) -> Seq<Option<u8>> {
    apply_path(s, p.take(i))
}

/// A path a search may follow: its moves are legal, it never comes back to
/// an arrangement it passed through, and no arrangement it reaches has its
/// fingerprint in `visited`.
pub open spec fn admissible(s: Seq<Option<u8>>, p: Seq<Move>, visited: Seq<u32>) -> bool {
    &&& valid_path(s, p)
    &&& forall|i: int| 1 <= i <= p.len() ==> !visited.contains(fingerprint(#[trigger] state_after(s, p, i)))
    &&& forall|i: int, j: int|
        1 <= i < j <= p.len() ==> #[trigger] state_after(s, p, i) != #[trigger] state_after(s, p, j)
}

/// The fingerprints of the arrangements that `p` passes through, its start
/// included.
pub open spec fn trail(s: Seq<Option<u8>>, p: Seq<Move>) -> Seq<u32> {
    Seq::new((p.len() + 1) as nat, |i: int| fingerprint(state_after(s, p, i)))
}

/// Following `a` then `b` is following `a + b`.
pub proof fn lemma_split(s: Seq<Option<u8>>, a: Seq<Move>, b: Seq<Move>)
    ensures
        apply_path(s, a + b) == apply_path(apply_path(s, a), b),
        valid_path(s, a + b) == (valid_path(s, a) && valid_path(apply_path(s, a), b)),
    decreases b.len(),
{
    if b.len() == 0 {
        assert(a + b =~= a);
    } else {
        lemma_split(s, a, b.drop_last());
        assert((a + b).drop_last() =~= a + b.drop_last());
        assert((a + b).last() == b.last());
    }
}

/// A prefix of a legal path is legal, and stops where the path passed.
pub proof fn lemma_take(s: Seq<Option<u8>>, p: Seq<Move>, k: int)
    requires
        0 <= k <= p.len(),
    ensures
        valid_path(s, p) ==> valid_path(s, p.take(k)),
        forall|i: int| 0 <= i <= k ==> #[trigger] state_after(s, p.take(k), i) == state_after(s, p, i),
{
    assert(p =~= p.take(k) + p.skip(k));
    lemma_split(s, p.take(k), p.skip(k));
    assert forall|i: int| 0 <= i <= k implies #[trigger] state_after(s, p.take(k), i) == state_after(s, p, i) by {
        assert(p.take(k).take(i) =~= p.take(i));
    }
}

/// Every arrangement on a legal path from a well-formed one is well formed.
pub proof fn lemma_path_ok(s: Seq<Option<u8>>, p: Seq<Move>)
    requires
        arrangement_ok(s),
        valid_path(s, p),
    ensures
        arrangement_ok(apply_path(s, p)),
        forall|i: int| 0 <= i <= p.len() ==> arrangement_ok(#[trigger] state_after(s, p, i)),
    decreases p.len(),
{
    if p.len() > 0 {
        lemma_path_ok(s, p.drop_last());
        lemma_step_ok(apply_path(s, p.drop_last()), p.last());
    }
    assert forall|i: int| 0 <= i <= p.len() implies arrangement_ok(#[trigger] state_after(s, p, i)) by {
        lemma_take(s, p, i);
        if i < p.len() {
            lemma_path_ok(s, p.take(i));
        } else {
            assert(p.take(i) =~= p);
        }
    }
}

/// Extending a path by one move.
pub proof fn lemma_push(s: Seq<Option<u8>>, p: Seq<Move>, m: Move)
    ensures
        apply_path(s, p.push(m)) == step(apply_path(s, p), m),
        valid_path(s, p.push(m)) == (valid_path(s, p) && legal(apply_path(s, p), m)),
        forall|i: int| 0 <= i <= p.len() ==> #[trigger] state_after(s, p.push(m), i) == state_after(s, p, i),
        state_after(s, p.push(m), p.len() + 1 as int) == step(apply_path(s, p), m),
{
    assert(p.push(m).drop_last() =~= p);
    assert forall|i: int| 0 <= i <= p.len() implies #[trigger] state_after(s, p.push(m), i) == state_after(s, p, i) by {
        assert(p.push(m).take(i) =~= p.take(i));
    }
    assert(p.push(m).take(p.len() + 1 as int) =~= p.push(m));
}

/// The trail of a path extended by one move.
pub proof fn lemma_trail_push(s: Seq<Option<u8>>, p: Seq<Move>, m: Move)
    ensures
        trail(s, p.push(m)) == trail(s, p).push(fingerprint(step(apply_path(s, p), m))),
{
    lemma_push(s, p, m);
    assert(trail(s, p.push(m)) =~= trail(s, p).push(fingerprint(step(apply_path(s, p), m))));
}

/// Extending a path that does not revisit its start nor any arrangement:
/// the extension may be taken exactly when the move is legal and the new
/// arrangement is not on the trail.
pub proof fn lemma_admissible_push(s: Seq<Option<u8>>, p: Seq<Move>, m: Move)
    requires
        arrangement_ok(s),
        admissible(s, p, seq![fingerprint(s)]),
    ensures
        admissible(s, p.push(m), seq![fingerprint(s)]) == (legal(apply_path(s, p), m)
            && !trail(s, p).contains(fingerprint(step(apply_path(s, p), m)))),
{
    let v = seq![fingerprint(s)];
    let q = p.push(m);
    let e = apply_path(s, p);
    let n = step(e, m);
    lemma_push(s, p, m);
    lemma_path_ok(s, p);
    assert(state_after(s, p, 0) == s) by {
        assert(p.take(0) =~= Seq::<Move>::empty());
    }
    assert(state_after(s, p, p.len() as int) == e) by {
        assert(p.take(p.len() as int) =~= p);
    }
    if legal(e, m) {
        lemma_step_ok(e, m);
        if trail(s, p).contains(fingerprint(n)) {
            let k = choose|k: int| 0 <= k < trail(s, p).len() && trail(s, p)[k] == fingerprint(n);
            assert(state_after(s, q, q.len() as int) == n);
            lemma_fingerprint_injective(state_after(s, p, k), n);
            if k == 0 {
                lemma_fingerprint_injective(s, n);
                assert(v[0] == fingerprint(state_after(s, q, q.len() as int)));
            } else {
                assert(state_after(s, q, k) == state_after(s, q, q.len() as int));
            }
        } else {
            assert forall|i: int| 1 <= i <= q.len() implies !v.contains(fingerprint(#[trigger] state_after(s, q, i))) by {
                if i == q.len() {
                    assert(trail(s, p)[0] == fingerprint(s));
                    assert(v[0] == fingerprint(s));
                } else {
                    assert(!v.contains(fingerprint(state_after(s, p, i))));
                }
            }
            assert forall|i: int, j: int| 1 <= i < j <= q.len() implies #[trigger] state_after(s, q, i) != #[trigger] state_after(s, q, j) by {
                if j == q.len() {
                    assert(trail(s, p)[i] == fingerprint(state_after(s, p, i)));
                } else {
                    assert(state_after(s, p, i) != state_after(s, p, j));
                }
            }
        }
    }
}


/// A prefix of a path a search may follow may be followed too.
pub proof fn lemma_admissible_take(s: Seq<Option<u8>>, p: Seq<Move>, visited: Seq<u32>, k: int)
    requires
        admissible(s, p, visited),
        0 <= k <= p.len(),
    ensures
        admissible(s, p.take(k), visited),
{
    lemma_take(s, p, k);
    let t = p.take(k);
    assert forall|i: int, j: int| 1 <= i < j <= t.len() implies #[trigger] state_after(s, t, i) != #[trigger] state_after(s, t, j) by {
        assert(state_after(s, p, i) != state_after(s, p, j));
    }
}

/// A path that starts with `m` is one move followed by a path from the
/// arrangement that `m` leads to.
pub proof fn lemma_prepend(s: Seq<Option<u8>>, m: Move, q: Seq<Move>)
    ensures
        apply_path(s, seq![m] + q) == apply_path(step(s, m), q),
        valid_path(s, seq![m] + q) == (legal(s, m) && valid_path(step(s, m), q)),
        forall|i: int| 0 <= i <= q.len() ==> #[trigger] state_after(s, seq![m] + q, i + 1) == state_after(step(s, m), q, i),
        state_after(s, seq![m] + q, 1) == step(s, m),
{
    let h = seq![m];
    assert(h.drop_last() =~= Seq::<Move>::empty());
    assert(h.last() == m);
    assert(apply_path(s, h.drop_last()) == s);
    assert(valid_path(s, h.drop_last()));
    assert(apply_path(s, h) == step(s, m));
    assert(valid_path(s, h) == legal(s, m));
    lemma_split(s, h, q);
    assert forall|i: int| 0 <= i <= q.len() implies #[trigger] state_after(s, h + q, i + 1) == state_after(step(s, m), q, i) by {
        assert((h + q).take(i + 1) =~= h + q.take(i));
        lemma_split(s, h, q.take(i));
    }
    assert((h + q).take(1) =~= h);
}

/// A search at `s` may follow `m` and then `q` exactly when `m` is legal,
/// the arrangement it leads to is unvisited, and `q` may be followed from
/// there once that arrangement is marked visited.
pub proof fn lemma_admissible_prepend(s: Seq<Option<u8>>, m: Move, q: Seq<Move>, visited: Seq<u32>)
    requires
        arrangement_ok(s),
    ensures
        admissible(s, seq![m] + q, visited) == (legal(s, m) && !visited.contains(fingerprint(step(s, m)))
            && admissible(step(s, m), q, visited.push(fingerprint(step(s, m))))),
{
    let p = seq![m] + q;
    let c = step(s, m);
    let w = visited.push(fingerprint(c));
    lemma_prepend(s, m, q);
    if legal(s, m) && valid_path(c, q) {
        lemma_step_ok(s, m);
        lemma_path_ok(c, q);
        assert(state_after(c, q, 0) == c) by {
            assert(q.take(0) =~= Seq::<Move>::empty());
        }
        if admissible(s, p, visited) {
            assert forall|i: int| 1 <= i <= q.len() implies !w.contains(fingerprint(#[trigger] state_after(c, q, i))) by {
                assert(state_after(s, p, i + 1) == state_after(c, q, i));
                assert(!visited.contains(fingerprint(state_after(s, p, i + 1))));
                assert(state_after(s, p, 1) != state_after(s, p, i + 1));
                lemma_fingerprint_injective(c, state_after(c, q, i));
                if w.contains(fingerprint(state_after(c, q, i))) {
                    let k = choose|k: int| 0 <= k < w.len() && w[k] == fingerprint(state_after(c, q, i));
                    if k < visited.len() {
                        assert(visited.contains(fingerprint(state_after(c, q, i))));
                    }
                }
            }
            assert forall|i: int, j: int| 1 <= i < j <= q.len() implies #[trigger] state_after(c, q, i) != #[trigger] state_after(c, q, j) by {
                assert(state_after(s, p, i + 1) != state_after(s, p, j + 1));
            }
            assert(!visited.contains(fingerprint(state_after(s, p, 1))));
        }
        if !visited.contains(fingerprint(c)) && admissible(c, q, w) {
            assert forall|i: int| 1 <= i <= p.len() implies !visited.contains(fingerprint(#[trigger] state_after(s, p, i))) by {
                if i > 1 {
                    assert(state_after(s, p, (i - 1) + 1) == state_after(c, q, i - 1));
                    assert(!w.contains(fingerprint(state_after(c, q, i - 1))));
                    if visited.contains(fingerprint(state_after(c, q, i - 1))) {
                        let k = choose|k: int| 0 <= k < visited.len() && visited[k] == fingerprint(state_after(c, q, i - 1));
                        assert(w[k] == visited[k]);
                    }
                }
            }
            assert forall|i: int, j: int| 1 <= i < j <= p.len() implies #[trigger] state_after(s, p, i) != #[trigger] state_after(s, p, j) by {
                assert(state_after(s, p, (j - 1) + 1) == state_after(c, q, j - 1));
                if i == 1 {
                    assert(!w.contains(fingerprint(state_after(c, q, j - 1))));
                    assert(w[visited.len() as int] == fingerprint(c));
                } else {
                    assert(state_after(s, p, (i - 1) + 1) == state_after(c, q, i - 1));
                    assert(state_after(c, q, i - 1) != state_after(c, q, j - 1));
                }
            }
        }
    }
}

/// Any legal path can be shortened, by cutting out what lies between two
/// visits of one arrangement, into a path that a search from its start
/// may follow and that ends in the same place.
pub proof fn lemma_shortcut(s: Seq<Option<u8>>, p: Seq<Move>) -> (q: Seq<Move>)
    requires
        arrangement_ok(s),
        valid_path(s, p),
    ensures
        admissible(s, q, seq![fingerprint(s)]),
        q.len() <= p.len(),
        apply_path(s, q) == apply_path(s, p),
    decreases p.len(),
{
    let v = seq![fingerprint(s)];
    if admissible(s, p, v) {
        p
    } else {
        lemma_path_ok(s, p);
        assert(state_after(s, p, 0) == s) by {
            assert(p.take(0) =~= Seq::<Move>::empty());
        }
        let (i, j) = if exists|i: int| 1 <= i <= p.len() && v.contains(fingerprint(#[trigger] state_after(s, p, i))) {
            let j = choose|j: int| 1 <= j <= p.len() && v.contains(fingerprint(#[trigger] state_after(s, p, j)));
            assert(v[0] == fingerprint(state_after(s, p, j)));
            lemma_fingerprint_injective(s, state_after(s, p, j));
            (0int, j)
        } else {
            choose|i: int, j: int| 1 <= i < j <= p.len() && #[trigger] state_after(s, p, i) == #[trigger] state_after(s, p, j)
        };
        assert(0 <= i < j <= p.len() && state_after(s, p, i) == state_after(s, p, j));
        let r = p.take(i) + p.skip(j);
        lemma_take(s, p, i);
        assert(p =~= p.take(j) + p.skip(j));
        lemma_split(s, p.take(j), p.skip(j));
        lemma_split(s, p.take(i), p.skip(j));
        lemma_shortcut(s, r)
    }
}

} // verus!
