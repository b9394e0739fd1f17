//! What a search yields on a bus whose devices answer as the protocol says:
//! each call finds the next address in search order, so that the calls
//! enumerate every device exactly once, in ascending order.
use vstd::prelude::*;

use crate::bus::{is_reset_wave, is_search_outcome, search_wave, BusEvent};
use crate::search::{
    lemma_highest_set_none,
    lemma_highest_set_some,
    search_bit,
    search_call,
    search_call_read,
    search_pass_read,
    search_walk,
    SearchState,
    SearchView,
};

verus! {

/// `y` comes after `q` in search order: the two agree up to some position
/// `k` of `q`, where `q` has 0 and `y` has 1.
pub open spec fn lex_below(q: Seq<bool>, y: Seq<bool>) -> bool {
    exists|k: int| 0 <= k < q.len() && k < y.len() && #[trigger] y.take(k) == q.take(k) && !q[k] && y[k]
}

/// A set of 64-bit ROM addresses, as bit sequences in search order.
pub open spec fn is_rom_set(d: Set<Seq<bool>>) -> bool {
    forall|y: Seq<bool>| #[trigger] d.contains(y) ==> y.len() == 64
}

/// At position `p` the path `a` takes 0 while some device on the same path
/// up to `p` has 1 there: a branch still to explore.
pub open spec fn fork_at(d: Set<Seq<bool>>, a: Seq<bool>, p: int) -> bool {
    !a[p] && exists|y: Seq<bool>| #[trigger] d.contains(y) && y.take(p) == a.take(p) && y[p]
}

/// A fork at `p` that the search may explore: not among the first `f`
/// bits, which were fixed in advance.
pub open spec fn pending(d: Set<Seq<bool>>, a: Seq<bool>, f: int, p: int) -> bool {
    p >= f && fork_at(d, a, p)
}

/// `y` starts with the bits that cursor `v` fixed in advance (its family).
pub open spec fn in_family(v: SearchView, y: Seq<bool>) -> bool {
    y.take(v.fixed) == v.address.take(v.fixed)
}

/// The devices of `d` that cursor `v` has not found yet, among those of its
/// family.
pub open spec fn remaining(v: SearchView, d: Set<Seq<bool>>) -> Set<Seq<bool>> {
    if v.state == SearchState::Initialized {
        d.filter(|y: Seq<bool>| in_family(v, y))
    } else {
        d.filter(|y: Seq<bool>| lex_below(v.address, y) && in_family(v, y))
    }
}

/// The cursor is where a search of `d` leaves it: fresh, or at a device of
/// `d` with exactly the forks of its path pending, and ended exactly when
/// none is.
pub open spec fn search_inv(v: SearchView, d: Set<Seq<bool>>) -> bool {
    &&& v.wf()
    &&& 0 <= v.fixed <= 64
    &&& v.state == SearchState::Initialized ==> v.exhausted()
    &&& v.state != SearchState::Initialized ==> d.contains(v.address)
    &&& v.state != SearchState::Initialized ==> forall|p: int|
        0 <= p < 64 ==> (v.discrepancies[p] <==> #[trigger] pending(d, v.address, v.fixed, p))
    &&& v.state == SearchState::DeviceFound ==> !v.exhausted()
    &&& v.state == SearchState::End ==> v.exhausted()
}

/// What the devices of `d` whose address starts with `q` answer for the next
/// bit and its complement on a wired-AND line.
pub open spec fn bus_answer(d: Set<Seq<bool>>, q: Seq<bool>) -> (bool, bool) {
    (
        forall|y: Seq<bool>| #[trigger] d.contains(y) && y.take(q.len() as int) == q ==> y[q.len() as int],
        forall|y: Seq<bool>| #[trigger] d.contains(y) && y.take(q.len() as int) == q ==> !y[q.len() as int],
    )
}

/// Each pair read by a pass from cursor `v` is what the devices of `d`
/// answer on the path sent so far.
pub open spec fn answered_by(v: SearchView, d: Set<Seq<bool>>, pairs: Seq<(bool, bool)>) -> bool {
    forall|i: int|
        0 <= i < pairs.len() ==> #[trigger] pairs[i] == bus_answer(
            d,
            search_walk(v, v.last_discrepancy(), pairs.take(i)).0.address.take(i),
        )
}

/// How far a pass has come at position `i`, with cursor `s`.
spec fn walk_ok(d: Set<Seq<bool>>, v: SearchView, s: SearchView, i: int) -> bool {
    let q = s.address.take(i);
    let r = remaining(v, d);
    &&& s.wf()
    &&& s.state == v.state
    &&& s.fixed == v.fixed
    &&& exists|y: Seq<bool>| #[trigger] r.contains(y) && y.take(i) == q
    &&& forall|y: Seq<bool>| #[trigger] r.contains(y) ==> y.take(i) == q || lex_below(q, y)
    &&& forall|p: int|
        0 <= p < i ==> (s.discrepancies[p] <==> #[trigger] pending(d, s.address, v.fixed, p))
    &&& forall|p: int|
        i <= p < 64 ==> #[trigger] s.discrepancies[p] == v.discrepancies[p] && s.address[p]
            == v.address[p]
    &&& (i <= v.fixed || (v.last_discrepancy() is Some && i <= v.last_discrepancy()->0)) ==> s == v
    &&& s.address.take(v.fixed) == v.address.take(v.fixed)
    &&& (v.last_discrepancy() is Some && v.last_discrepancy()->0 < i) ==> s.address.take(
        v.last_discrepancy()->0,
    ) == v.address.take(v.last_discrepancy()->0) && s.address[v.last_discrepancy()->0]
}

proof fn lemma_take_take(y: Seq<bool>, a: int, b: int)
    requires
        0 <= a <= b <= y.len(),
    ensures
        y.take(b).take(a) == y.take(a),
{
    assert(y.take(b).take(a) =~= y.take(a));
}

/// Where two paths that share their first `f` bits differ, it is at or
/// after `f`.
proof fn lemma_differs_beyond(a: Seq<bool>, y: Seq<bool>, f: int, k: int)
    requires
        0 <= f <= a.len(),
        f <= y.len(),
        0 <= k < a.len(),
        k < y.len(),
        y.take(f) == a.take(f),
        a[k] != y[k],
    ensures
        k >= f,
{
    if k < f {
        assert(a[k] == a.take(f)[k]);
        assert(y[k] == y.take(f)[k]);
    }
}

/// Whether a fork is pending at `p` depends on the path up to `p` only.
proof fn lemma_fork_at_prefix(d: Set<Seq<bool>>, a: Seq<bool>, b: Seq<bool>, p: int)
    requires
        0 <= p < a.len(),
        p < b.len(),
        a.take(p + 1) == b.take(p + 1),
    ensures
        fork_at(d, a, p) == fork_at(d, b, p),
{
    lemma_take_take(a, p, p + 1);
    lemma_take_take(b, p, p + 1);
    assert(a[p] == a.take(p + 1)[p]);
    assert(b[p] == b.take(p + 1)[p]);
}

/// The path `q` extended by one bit keeps what the shorter path had.
proof fn lemma_extend_lex(q: Seq<bool>, q2: Seq<bool>, y: Seq<bool>)
    requires
        q2.len() == q.len() + 1,
        q2.take(q.len() as int) == q,
        lex_below(q, y),
    ensures
        lex_below(q2, y),
{
    let k = choose|k: int|
        0 <= k < q.len() && k < y.len() && #[trigger] y.take(k) == q.take(k) && !q[k] && y[k];
    lemma_take_take(q2, k, q.len() as int);
    assert(q2[k] == q2.take(q.len() as int)[k]);
    assert(y.take(k) == q2.take(k));
}

/// On a bus of devices a pass from a cursor that a search of them left never
/// stops, keeps its path on remaining devices, and marks exactly the forks.
proof fn lemma_walk(d: Set<Seq<bool>>, v: SearchView, pairs: Seq<(bool, bool)>, n: int)
    requires
        is_rom_set(d),
        search_inv(v, d),
        v.state != SearchState::End,
        !(v.last_discrepancy() is None && v.state == SearchState::DeviceFound),
        exists|y: Seq<bool>| #[trigger] remaining(v, d).contains(y),
        answered_by(v, d, pairs),
        0 <= n <= pairs.len(),
        pairs.len() <= 64,
    ensures
        !search_walk(v, v.last_discrepancy(), pairs.take(n)).1,
        walk_ok(d, v, search_walk(v, v.last_discrepancy(), pairs.take(n)).0, n),
    decreases n,
{
    let last = v.last_discrepancy();
    let r = remaining(v, d);
    if last is Some {
        lemma_highest_set_some(v.discrepancies, 64);
    } else {
        lemma_highest_set_none(v.discrepancies, 64);
    }
    if n == 0 {
        assert(pairs.take(0) =~= Seq::<(bool, bool)>::empty());
        let y = choose|y: Seq<bool>| #[trigger] r.contains(y);
        assert(y.take(0) =~= v.address.take(0));
        assert forall|y: Seq<bool>| #[trigger] r.contains(y) implies y.take(0) == v.address.take(0)
            || lex_below(v.address.take(0), y) by {
            assert(y.take(0) =~= v.address.take(0));
        }
    } else {
        let i = n - 1;
        lemma_walk(d, v, pairs, i);
        let s = search_walk(v, last, pairs.take(i)).0;
        assert(pairs.take(n).drop_last() =~= pairs.take(i));
        assert(pairs.take(n).last() == pairs[i]);
        let (b0, b1) = pairs[i];
        let q = s.address.take(i);
        assert(pairs[i] == bus_answer(d, q));
        assert(q.len() == i);
        lemma_step(d, v, s, i, b0, b1);
    }
}

/// One position of the pass, from `walk_ok` at `i` to `walk_ok` at `i + 1`.
proof fn lemma_step(d: Set<Seq<bool>>, v: SearchView, s: SearchView, i: int, b0: bool, b1: bool)
    requires
        is_rom_set(d),
        search_inv(v, d),
        v.state != SearchState::End,
        !(v.last_discrepancy() is None && v.state == SearchState::DeviceFound),
        0 <= i < 64,
        walk_ok(d, v, s, i),
        (b0, b1) == bus_answer(d, s.address.take(i)),
    ensures
        search_bit(s, v.last_discrepancy(), i, b0, b1) is Some,
        walk_ok(d, v, search_bit(s, v.last_discrepancy(), i, b0, b1)->0, i + 1),
{
    let last = v.last_discrepancy();
    let r = remaining(v, d);
    let q = s.address.take(i);
    if last is Some {
        lemma_highest_set_some(v.discrepancies, 64);
    } else {
        lemma_highest_set_none(v.discrepancies, 64);
    }
    // some device on the path is still there
    let y0 = choose|y: Seq<bool>| #[trigger] r.contains(y) && y.take(i) == q;
    assert(d.contains(y0));
    assert(!(b0 && b1)) by {
        if b0 && b1 {
            assert(d.contains(y0) && y0.take(q.len() as int) == q);
        }
    }
    let n = search_bit(s, last, i, b0, b1)->0;
    let q2 = n.address.take(i + 1);
    assert(q2.take(i) =~= q);
    assert(n.wf());
    // every device on the new path extends the old one
    assert forall|y: Seq<bool>| y.len() == 64 && y.take(i + 1) == q2 implies y.take(i) == q by {
        lemma_take_take(y, i, i + 1);
    }
    if i < v.fixed {
        // the seeded bits are sent as they are
        assert(s == v);
        assert(n == v);
        lemma_take_take(v.address, i + 1, v.fixed);
        assert forall|y: Seq<bool>| #[trigger] r.contains(y) implies y.take(i + 1) == q2 by {
            lemma_take_take(y, i + 1, v.fixed);
        }
        assert(y0.take(i + 1) == q2);
        if v.state != SearchState::Initialized {
            assert(v.discrepancies[i] <==> pending(d, v.address, v.fixed, i));
        }
        assert(!v.discrepancies[i]);
        assert forall|p: int| 0 <= p < i + 1 implies (n.discrepancies[p] <==> #[trigger] pending(
            d,
            n.address,
            v.fixed,
            p,
        )) by {
            if p < i {
                assert(s.discrepancies[p] <==> pending(d, s.address, v.fixed, p));
            }
        }
    } else if last is Some && i < last->0 {
        // replay: the path stays that of the last device
        let l = last->0;
        assert(s == v);
        assert(n == v);
        assert(pending(d, v.address, v.fixed, l));
        let ys = choose|y: Seq<bool>| #[trigger] d.contains(y) && y.take(l) == v.address.take(l) && y[l];
        assert(lex_below(v.address, ys)) by {
            assert(ys.take(l) == v.address.take(l));
        }
        lemma_take_take(ys, v.fixed, l);
        lemma_take_take(v.address, v.fixed, l);
        assert(r.contains(ys));
        lemma_take_take(ys, i + 1, l);
        lemma_take_take(v.address, i + 1, l);
        assert(ys.take(i + 1) == q2);
        assert forall|y: Seq<bool>| #[trigger] r.contains(y) implies y.take(i + 1) == q2 || lex_below(
            q2,
            y,
        ) by {
            let k = choose|k: int|
                0 <= k < v.address.len() && k < y.len() && #[trigger] y.take(k) == v.address.take(k)
                    && !v.address[k] && y[k];
            lemma_differs_beyond(v.address, y, v.fixed, k);
            assert(pending(d, v.address, v.fixed, k));
            if k <= i {
                lemma_take_take(v.address, k, i + 1);
                assert(q2[k] == v.address[k]);
                assert(y.take(k) == q2.take(k));
            } else {
                lemma_take_take(y, i + 1, k);
                lemma_take_take(v.address, i + 1, k);
            }
        }
        assert forall|p: int| 0 <= p < i + 1 implies (n.discrepancies[p] <==> #[trigger] pending(d, n.address, v.fixed, p)) by {}
    } else if last == Some(i) {
        // the branch resumed: its second path is where the next device lies
        assert(s == v);
        assert(pending(d, v.address, v.fixed, i));
        let ys = choose|y: Seq<bool>| #[trigger] d.contains(y) && y.take(i) == v.address.take(i) && y[i];
        assert(lex_below(v.address, ys)) by {
            assert(ys.take(i) == v.address.take(i));
        }
        lemma_take_take(ys, v.fixed, i);
        lemma_take_take(v.address, v.fixed, i);
        assert(r.contains(ys));
        assert(ys.take(i + 1) =~= q2) by {
            assert(ys.take(i + 1) =~= ys.take(i).push(ys[i]));
            assert(q2 =~= q.push(true));
        }
        assert forall|y: Seq<bool>| #[trigger] r.contains(y) implies y.take(i + 1) == q2 || lex_below(
            q2,
            y,
        ) by {
            let k = choose|k: int|
                0 <= k < v.address.len() && k < y.len() && #[trigger] y.take(k) == v.address.take(k)
                    && !v.address[k] && y[k];
            lemma_differs_beyond(v.address, y, v.fixed, k);
            assert(pending(d, v.address, v.fixed, k));
            if k < i {
                lemma_take_take(v.address, k, i);
                assert(q2[k] == v.address[k]);
                lemma_take_take(q2, k, i);
                assert(y.take(k) == q2.take(k));
            } else {
                assert(k == i);
                assert(y.take(i + 1) =~= y.take(i).push(y[i]));
                assert(q2 =~= q.push(true));
            }
        }
        assert forall|p: int| 0 <= p < i + 1 implies (n.discrepancies[p] <==> #[trigger] pending(d, n.address, v.fixed, p)) by {
            if p < i {
                assert(n.address.take(p + 1) =~= v.address.take(p + 1));
                lemma_fork_at_prefix(d, n.address, v.address, p);
                assert(s.discrepancies[p] <==> pending(d, s.address, v.fixed, p));
            } else {
                assert(i >= v.fixed);
            }
        }
        assert(n.address.take(i) =~= v.address.take(i));
        assert(n.address.take(v.fixed) =~= v.address.take(v.fixed));
    } else {
        // discovery: every device on the path is still to be found
        assert forall|y: Seq<bool>| #[trigger] d.contains(y) && y.take(i) == q implies r.contains(y) by {
            lemma_take_take(y, v.fixed, i);
            lemma_take_take(s.address, v.fixed, i);
            assert(in_family(v, y));
            if v.state != SearchState::Initialized {
                let l = last->0;
                assert(l < i);
                lemma_take_take(y, l, i);
                lemma_take_take(s.address, l, i);
                assert(y.take(l) == v.address.take(l));
                assert(y[l] == q[l]);
                assert(v.discrepancies[l]);
                assert(pending(d, v.address, v.fixed, l));
                assert(lex_below(v.address, y));
            }
        }
        assert(s.discrepancies[i] == v.discrepancies[i]);
        assert(!v.discrepancies[i]);
        if last is Some {
            let l = last->0;
            assert(n.address.take(l) =~= s.address.take(l));
        }
        assert(n.address.take(v.fixed) =~= s.address.take(v.fixed));
        if !b0 && !b1 {
            assert(q2 =~= q.push(false));
            let yz = choose|y: Seq<bool>| #[trigger] d.contains(y) && y.take(i) == q && !y[i];
            let yo = choose|y: Seq<bool>| #[trigger] d.contains(y) && y.take(i) == q && y[i];
            assert(r.contains(yz));
            assert(yz.take(i + 1) =~= yz.take(i).push(yz[i]));
            assert forall|y: Seq<bool>| #[trigger] r.contains(y) implies y.take(i + 1) == q2 || lex_below(
                q2,
                y,
            ) by {
                if y.take(i) == q {
                    assert(y.take(i + 1) =~= y.take(i).push(y[i]));
                    if y[i] {
                        assert(y.take(i) == q2.take(i));
                    }
                } else {
                    lemma_extend_lex(q, q2, y);
                }
            }
            assert forall|p: int| 0 <= p < i + 1 implies (n.discrepancies[p] <==> #[trigger] pending(d, n.address, v.fixed, p)) by {
                if p < i {
                    assert(n.address.take(p + 1) =~= s.address.take(p + 1));
                    lemma_fork_at_prefix(d, n.address, s.address, p);
                    assert(s.discrepancies[p] <==> pending(d, s.address, v.fixed, p));
                } else {
                    assert(i >= v.fixed);
                    assert(n.address.take(i) =~= q);
                    assert(d.contains(yo) && yo.take(i) == n.address.take(i) && yo[i]);
                }
            }
        } else {
            // all remaining devices on the path agree on this bit
            assert(q2 =~= q.push(b0));
            assert(y0.take(i + 1) =~= y0.take(i).push(y0[i]));
            assert(y0[i] == b0) by {
                assert(d.contains(y0) && y0.take(q.len() as int) == q);
            }
            assert forall|y: Seq<bool>| #[trigger] r.contains(y) implies y.take(i + 1) == q2 || lex_below(
                q2,
                y,
            ) by {
                if y.take(i) == q {
                    assert(y.take(i + 1) =~= y.take(i).push(y[i]));
                    assert(d.contains(y) && y.take(q.len() as int) == q);
                } else {
                    lemma_extend_lex(q, q2, y);
                }
            }
            assert forall|p: int| 0 <= p < i + 1 implies (n.discrepancies[p] <==> #[trigger] pending(d, n.address, v.fixed, p)) by {
                if p < i {
                    assert(n.address.take(p + 1) =~= s.address.take(p + 1));
                    lemma_fork_at_prefix(d, n.address, s.address, p);
                    assert(s.discrepancies[p] <==> pending(d, s.address, v.fixed, p));
                } else {
                    assert(i >= v.fixed);
                    assert(n.address.take(i) =~= q);
                    if pending(d, n.address, v.fixed, i) {
                        let y = choose|y: Seq<bool>| #[trigger] d.contains(y) && y.take(i)
                            == n.address.take(i) && y[i];
                        assert(d.contains(y) && y.take(q.len() as int) == q);
                    }
                }
            }
        }
    }

    assert forall|p: int| i + 1 <= p < 64 implies #[trigger] n.discrepancies[p] == v.discrepancies[p]
        && n.address[p] == v.address[p] by {
        assert(n.discrepancies[p] == s.discrepancies[p] && n.address[p] == s.address[p]);
        assert(s.discrepancies[p] == v.discrepancies[p] && s.address[p] == v.address[p]);
    }
    assert(n.wf() && n.state == v.state && n.fixed == v.fixed);
    assert(exists|y: Seq<bool>| #[trigger] r.contains(y) && y.take(i + 1) == q2);
    assert(forall|y: Seq<bool>| #[trigger] r.contains(y) ==> y.take(i + 1) == q2 || lex_below(q2, y));
    assert(forall|p: int|
        0 <= p < i + 1 ==> (n.discrepancies[p] <==> #[trigger] pending(d, n.address, v.fixed, p)));
    assert((i + 1 <= v.fixed || (v.last_discrepancy() is Some && i + 1 <= v.last_discrepancy()->0)) ==> n == v);
    assert(n.address.take(v.fixed) == v.address.take(v.fixed));
}


/// Search order is transitive.
proof fn lemma_lex_transitive(a: Seq<bool>, t: Seq<bool>, y: Seq<bool>)
    requires
        a.len() == 64,
        t.len() == 64,
        y.len() == 64,
        lex_below(a, t),
        lex_below(t, y),
    ensures
        lex_below(a, y),
{
    let k1 = choose|k: int| 0 <= k < a.len() && k < t.len() && #[trigger] t.take(k) == a.take(k) && !a[k] && t[k];
    let k2 = choose|k: int| 0 <= k < t.len() && k < y.len() && #[trigger] y.take(k) == t.take(k) && !t[k] && y[k];
    if k1 < k2 {
        lemma_take_take(y, k1, k2);
        lemma_take_take(t, k1, k2);
        assert(y[k1] == y.take(k2)[k1]);
        assert(t[k1] == t.take(k2)[k1]);
        assert(y.take(k1) == a.take(k1));
    } else {
        assert(k2 < k1);
        lemma_take_take(t, k2, k1);
        lemma_take_take(a, k2, k1);
        assert(a[k2] == a.take(k1)[k2]);
        assert(t[k2] == t.take(k1)[k2]);
        assert(y.take(k2) == a.take(k2));
    }
}

/// A fresh search of any set of devices starts with all of its family to
/// find: all of them when no bit is fixed in advance.
pub proof fn lemma_fresh_search(v: SearchView, d: Set<Seq<bool>>)
    requires
        v.wf(),
        v.state == SearchState::Initialized,
        v.exhausted(),
        0 <= v.fixed <= 64,
    ensures
        search_inv(v, d),
        v.fixed == 0 ==> remaining(v, d) == d,
{
    if v.fixed == 0 {
        assert forall|y: Seq<bool>| #[trigger] d.contains(y) implies in_family(v, y) by {
            assert(y.take(0) =~= v.address.take(0));
        }
        assert(remaining(v, d) =~= d);
    }
}

/// An ended search has no device left to find.
pub proof fn lemma_ended_search(v: SearchView, d: Set<Seq<bool>>)
    requires
        is_rom_set(d),
        search_inv(v, d),
        v.state == SearchState::End,
    ensures
        remaining(v, d) == Set::<Seq<bool>>::empty(),
{
    assert forall|y: Seq<bool>| !remaining(v, d).contains(y) by {
        if remaining(v, d).contains(y) {
            let k = choose|k: int|
                0 <= k < v.address.len() && k < y.len() && #[trigger] y.take(k) == v.address.take(k)
                    && !v.address[k] && y[k];
            assert(d.contains(y));
            lemma_differs_beyond(v.address, y, v.fixed, k);
            assert(pending(d, v.address, v.fixed, k));
        }
    }
    assert(remaining(v, d) =~= Set::<Seq<bool>>::empty());
}

/// Each search call on a bus whose devices `d` answer as the protocol says
/// finds a device not found before, the first of them in search order, and
/// leaves exactly the others to find; the search ends exactly when none is
/// left. So successive calls from a fresh search yield every device of `d`
/// once, in ascending order, and then nothing.
#[verifier::rlimit(30)]
pub proof fn lemma_search_finds_next(d: Set<Seq<bool>>, v: SearchView, pairs: Seq<(bool, bool)>)
    requires
        is_rom_set(d),
        search_inv(v, d),
        v.state != SearchState::End,
        v.state == SearchState::Initialized ==> exists|y: Seq<bool>| #[trigger] remaining(
            v,
            d,
        ).contains(y),
        search_call_read(v, true, pairs),
        answered_by(v, d, pairs),
    ensures
        search_call(v, true, pairs).1,
        remaining(v, d).contains(search_call(v, true, pairs).0.address),
        remaining(search_call(v, true, pairs).0, d) == remaining(v, d).remove(
            search_call(v, true, pairs).0.address,
        ),
        forall|y: Seq<bool>| #[trigger]
            remaining(search_call(v, true, pairs).0, d).contains(y) ==> lex_below(
                search_call(v, true, pairs).0.address,
                y,
            ),
        search_inv(search_call(v, true, pairs).0, d),
        (search_call(v, true, pairs).0.state == SearchState::End) <==> (remaining(
            search_call(v, true, pairs).0,
            d,
        ) == Set::<Seq<bool>>::empty()),
{
    let last = v.last_discrepancy();
    let r = remaining(v, d);
    lemma_highest_set_none(v.discrepancies, 64);
    assert(search_pass_read(v, pairs));
    if v.state == SearchState::DeviceFound {
        let l = last->0;
        lemma_highest_set_some(v.discrepancies, 64);
        assert(pending(d, v.address, v.fixed, l));
        let ys = choose|y: Seq<bool>| #[trigger] d.contains(y) && y.take(l) == v.address.take(l) && y[l];
        assert(lex_below(v.address, ys)) by {
            assert(ys.take(l) == v.address.take(l));
        }
        lemma_take_take(ys, v.fixed, l);
        lemma_take_take(v.address, v.fixed, l);
        assert(r.contains(ys));
    }
    let n = pairs.len() as int;
    lemma_walk(d, v, pairs, n);
    assert(pairs.take(n) =~= pairs);
    assert(n == 64);
    let s = search_walk(v, last, pairs).0;
    let t = s.address;
    let w = search_call(v, true, pairs).0;
    assert(w.address == t && w.discrepancies == s.discrepancies && w.fixed == v.fixed);
    assert(w.address.take(v.fixed) == v.address.take(v.fixed));
    assert(t.take(64) =~= t);
    let y0 = choose|y: Seq<bool>| #[trigger] r.contains(y) && y.take(64) == t.take(64);
    assert(y0.take(64) =~= y0);
    assert(r.contains(t));
    assert(!lex_below(t, t));
    let rw = remaining(w, d);
    assert forall|y: Seq<bool>| #[trigger] rw.contains(y) <==> r.remove(t).contains(y) by {
        if rw.contains(y) {
            assert(lex_below(t, y));
            assert(y != t);
            if v.state != SearchState::Initialized {
                lemma_lex_transitive(v.address, t, y);
            }
        }
        if r.remove(t).contains(y) {
            assert(y.take(64) =~= y);
            assert(lex_below(t, y));
        }
    }
    assert(rw =~= r.remove(t));
    assert(search_inv(w, d));
    if w.state == SearchState::End {
        lemma_ended_search(w, d);
    } else {
        let p = choose|p: int| 0 <= p < 64 && w.discrepancies[p];
        assert(pending(d, t, v.fixed, p));
        let y = choose|y: Seq<bool>| #[trigger] d.contains(y) && y.take(p) == t.take(p) && y[p];
        assert(lex_below(t, y)) by {
            assert(y.take(p) == t.take(p));
        }
        lemma_take_take(y, v.fixed, p);
        lemma_take_take(t, v.fixed, p);
        assert(rw.contains(y));
    }
}

/// The law above for what `OneWire::search_next` and
/// `search_next_alarmed` report: when every reading of the call's traffic
/// has the devices of `d` present and answering each bit pair, the call
/// found the first device of `d` not found before, in search order, and
/// left exactly the others; it ended the search exactly when none is left.
pub proof fn lemma_search_call_on_bus(
    d: Set<Seq<bool>>,
    v: SearchView,
    after: SearchView,
    found: bool,
    before_trace: Seq<BusEvent>,
    after_trace: Seq<BusEvent>,
    code: u8,
)
    requires
        is_rom_set(d),
        search_inv(v, d),
        v.state != SearchState::End,
        v.state == SearchState::Initialized ==> exists|y: Seq<bool>| #[trigger] remaining(
            v,
            d,
        ).contains(y),
        is_search_outcome(v, after, found, before_trace, after_trace, code),
        forall|presence: bool, w: Seq<BusEvent>, pairs: Seq<(bool, bool)>|
            is_reset_wave(w, presence) && search_call_read(v, presence, pairs) && after_trace
                == before_trace + #[trigger] search_wave(v, code, w, presence, pairs) ==> presence
                && answered_by(v, d, pairs),
    ensures
        found,
        remaining(v, d).contains(after.address),
        remaining(after, d) == remaining(v, d).remove(after.address),
        forall|y: Seq<bool>| #[trigger]
            remaining(after, d).contains(y) ==> lex_below(after.address, y),
        search_inv(after, d),
        (after.state == SearchState::End) <==> (remaining(after, d) == Set::<Seq<bool>>::empty()),
{
    let (presence, w, pairs) = choose|presence: bool, w: Seq<BusEvent>, pairs: Seq<(bool, bool)>|
        #[trigger] is_reset_wave(w, presence) && search_call_read(v, presence, pairs)
            && #[trigger] search_call(v, presence, pairs) == (after, found) && after_trace
            == before_trace + search_wave(v, code, w, presence, pairs);
    assert(presence && answered_by(v, d, pairs));
    lemma_search_finds_next(d, v, pairs);
}

/// The addresses that the calls `0 .. n` of an enumeration found.
pub open spec fn found_by(cursors: Seq<SearchView>, n: int) -> Set<Seq<bool>> {
    Set::new(|y: Seq<bool>| exists|j: int| 0 <= j < n && y == #[trigger] cursors[j + 1].address)
}

/// Call `j` of an enumeration on a bus whose devices `d` answer as the
/// protocol says: made before the search ended, it takes `cursors[j]` to
/// `cursors[j + 1]` reading `pairs[j]`.
pub open spec fn call_on_bus(
    d: Set<Seq<bool>>,
    cursors: Seq<SearchView>,
    pairs: Seq<Seq<(bool, bool)>>,
    j: int,
) -> bool {
    &&& cursors[j].state != SearchState::End
    &&& search_call_read(cursors[j], true, pairs[j])
    &&& answered_by(cursors[j], d, pairs[j])
    &&& search_call(cursors[j], true, pairs[j]).0 == cursors[j + 1]
}

/// Successive search calls from a fresh search enumerate the devices:
/// each call finds one (see `lemma_search_finds_next`), in strictly
/// ascending search order, so each device
/// at most once; after `n` calls exactly those found are missing from the
/// devices still to find; and the search has ended exactly when every
/// device of its family has been found.
#[verifier::spinoff_prover]
#[verifier::rlimit(40)]
pub proof fn lemma_enumeration(
    d: Set<Seq<bool>>,
    cursors: Seq<SearchView>,
    pairs: Seq<Seq<(bool, bool)>>,
    n: int,
)
    requires
        is_rom_set(d),
        0 <= n < cursors.len(),
        n <= pairs.len(),
        forall|j: int| 0 <= j < n ==> #[trigger] call_on_bus(d, cursors, pairs, j),
        cursors[0].wf(),
        cursors[0].state == SearchState::Initialized,
        cursors[0].exhausted(),
        0 <= cursors[0].fixed <= 64,
        n > 0 ==> exists|y: Seq<bool>| #[trigger] remaining(cursors[0], d).contains(y),
    ensures
        forall|j: int|
            0 <= j < n ==> remaining(cursors[0], d).contains(#[trigger] cursors[j + 1].address),
        forall|j: int, k: int|
            0 <= j < k < n ==> lex_below(#[trigger] cursors[j + 1].address, #[trigger] cursors[k + 1].address),
        remaining(cursors[n], d) == remaining(cursors[0], d).difference(found_by(cursors, n)),
        search_inv(cursors[n], d),
        n > 0 ==> cursors[n].state != SearchState::Initialized,
        n > 0 ==> ((cursors[n].state == SearchState::End) <==> (remaining(cursors[n], d)
            == Set::<Seq<bool>>::empty())),
        forall|j: int, y: Seq<bool>|
            0 <= j < n && remaining(cursors[n], d).contains(y) ==> #[trigger] lex_below(
                cursors[j + 1].address,
                y,
            ),
    decreases n,
{
    let r0 = remaining(cursors[0], d);
    if n == 0 {
        lemma_fresh_search(cursors[0], d);
        assert(found_by(cursors, 0) =~= Set::<Seq<bool>>::empty());
        assert(r0.difference(found_by(cursors, 0)) =~= r0);
    } else {
        let m = n - 1;
        lemma_enumeration(d, cursors, pairs, m);
        let v = cursors[m];
        let w = cursors[n];
        assert(call_on_bus(d, cursors, pairs, m));
        lemma_search_finds_next(d, v, pairs[m]);
        // a search that has found a device is no longer fresh
        assert(search_call(v, true, pairs[m]).1);
        assert(w.state != SearchState::Initialized);
        let t = w.address;
        let fm = found_by(cursors, m);
        let fnn = found_by(cursors, n);
        assert forall|y: Seq<bool>| fnn.contains(y) <==> fm.insert(t).contains(y) by {
            if fnn.contains(y) {
                let j = choose|j: int| 0 <= j < n && y == #[trigger] cursors[j + 1].address;
            }
        }
        assert(fnn =~= fm.insert(t));
        assert(remaining(w, d) =~= r0.difference(fnn));
        assert forall|j: int, k: int|
            0 <= j < k < n implies lex_below(
            #[trigger] cursors[j + 1].address,
            #[trigger] cursors[k + 1].address,
        ) by {
            if k == m {
                assert(lex_below(cursors[j + 1].address, t));
            }
        }
    }
}

} // verus!
