//! Strictly increasing vectors of variable indices, used as ordered sets.

use vstd::prelude::*;

verus! {

/// Every element is smaller than every later one.
pub open spec fn strictly_sorted(s: Seq<u16>) -> bool {
    forall|i: int, j: int| 0 <= i < j < s.len() ==> s[i] < s[j]
}

/// The elements of a finite set in increasing order.
pub open spec fn sorted_elems(s: Set<u16>) -> Seq<u16> {
    choose|q: Seq<u16>| strictly_sorted(q) && q.to_set() == s
}

proof fn lemma_sorted_min(q: Seq<u16>, x: u16)
    requires
        strictly_sorted(q),
        q.len() > 0,
        q.contains(x),
    ensures
        q[0] <= x,
{
    let i = choose|i: int| 0 <= i < q.len() && q[i] == x;
    if i > 0 {
        assert(q[0] < q[i]);
    }
}

/// Two increasing sequences with the same elements are equal.
pub proof fn lemma_sorted_unique(a: Seq<u16>, b: Seq<u16>)
    requires
        strictly_sorted(a),
        strictly_sorted(b),
        a.to_set() == b.to_set(),
    ensures
        a == b,
    decreases a.len(),
{
    if a.len() == 0 {
        if b.len() > 0 {
            assert(b.to_set().contains(b[0]));
            assert(!a.to_set().contains(b[0]));
        }
        assert(a =~= b);
    } else {
        assert(a.to_set().contains(a[0]));
        if b.len() == 0 {
            assert(!b.to_set().contains(a[0]));
        }
        assert(b.to_set().contains(b[0]));
        assert(b.contains(a[0]));
        assert(a.contains(b[0]));
        lemma_sorted_min(a, b[0]);
        lemma_sorted_min(b, a[0]);
        let a1 = a.drop_first();
        let b1 = b.drop_first();
        assert(a1.to_set() =~= b1.to_set()) by {
            assert forall|x: u16| a1.to_set().contains(x) implies b1.to_set().contains(x) by {
                let i = choose|i: int| 0 <= i < a1.len() && a1[i] == x;
                assert(a[i + 1] == x);
                assert(a[0] < a[i + 1]);
                assert(b.contains(x)) by {
                    assert(a.to_set().contains(x));
                }
                let k = choose|k: int| 0 <= k < b.len() && b[k] == x;
                assert(k != 0);
                assert(b1[k - 1] == x);
            }
            assert forall|x: u16| b1.to_set().contains(x) implies a1.to_set().contains(x) by {
                let i = choose|i: int| 0 <= i < b1.len() && b1[i] == x;
                assert(b[i + 1] == x);
                assert(b[0] < b[i + 1]);
                assert(a.contains(x)) by {
                    assert(b.to_set().contains(x));
                }
                let k = choose|k: int| 0 <= k < a.len() && a[k] == x;
                assert(k != 0);
                assert(a1[k - 1] == x);
            }
        }
        lemma_sorted_unique(a1, b1);
        assert(a =~= b) by {
            assert forall|i: int| 0 <= i < a.len() implies a[i] == b[i] by {
                if i > 0 {
                    assert(a[i] == a1[i - 1]);
                }
            }
        }
    }
}

/// The increasing sequence of a set is what `sorted_elems` names.
pub proof fn lemma_sorted_elems(q: Seq<u16>)
    requires
        strictly_sorted(q),
    ensures
        sorted_elems(q.to_set()) == q,
{
    let r = sorted_elems(q.to_set());
    assert(strictly_sorted(r) && r.to_set() == q.to_set());
    lemma_sorted_unique(r, q);
}

/// The elements of `s` below `b`, in increasing order.
proof fn lemma_sorted_below(s: Set<u16>, b: int) -> (q: Seq<u16>)
    requires
        0 <= b,
    ensures
        strictly_sorted(q),
        forall|k: int| 0 <= k < q.len() ==> (#[trigger] q[k] as int) < b,
        q.to_set() == s.filter(|x: u16| (x as int) < b),
    decreases b,
{
    if b == 0 {
        let q = Seq::<u16>::empty();
        assert(q.to_set() =~= s.filter(|x: u16| (x as int) < b));
        q
    } else {
        let p = lemma_sorted_below(s, b - 1);
        if b - 1 <= u16::MAX && s.contains((b - 1) as u16) {
            let q = p.push((b - 1) as u16);
            assert(q.to_set() =~= s.filter(|x: u16| (x as int) < b)) by {
                assert forall|x: u16| q.to_set().contains(x) implies s.filter(|x: u16| (x as int) < b).contains(x) by {
                    let k = choose|k: int| 0 <= k < q.len() && q[k] == x;
                    if k < p.len() {
                        assert(p[k] == x);
                        assert(p.to_set().contains(x));
                    }
                }
                assert forall|x: u16| s.filter(|x: u16| (x as int) < b).contains(x) implies q.to_set().contains(x) by {
                    if (x as int) < b - 1 {
                        assert(s.filter(|x: u16| (x as int) < b - 1).contains(x));
                        let k = choose|k: int| 0 <= k < p.len() && p[k] == x;
                        assert(q[k] == x);
                    } else {
                        assert(q[p.len() as int] == x);
                    }
                }
            }
            assert forall|i: int, j: int| 0 <= i < j < q.len() implies q[i] < q[j] by {
                if j < p.len() {
                    assert(p[i] < p[j]);
                } else {
                    assert(q[i] == p[i]);
                }
            }
            q
        } else {
            assert(p.to_set() =~= s.filter(|x: u16| (x as int) < b)) by {
                assert forall|x: u16| s.filter(|x: u16| (x as int) < b).contains(x) implies p.to_set().contains(x) by {
                    assert(s.filter(|x: u16| (x as int) < b - 1).contains(x));
                }
                assert forall|x: u16| p.to_set().contains(x) implies s.filter(|x: u16| (x as int) < b).contains(x) by {
                    assert(s.filter(|x: u16| (x as int) < b - 1).contains(x));
                }
            }
            p
        }
    }
}

/// Every set of indices has its increasing sequence: `sorted_elems(s)` is
/// strictly increasing and holds exactly the elements of `s` (so it has no
/// duplicates).
pub proof fn lemma_sorted_elems_exist(s: Set<u16>)
    ensures
        strictly_sorted(sorted_elems(s)),
        sorted_elems(s).to_set() == s,
{
    let q = lemma_sorted_below(s, 0x10000);
    assert(q.to_set() =~= s) by {
        assert forall|x: u16| s.contains(x) implies q.to_set().contains(x) by {
            assert(s.filter(|x: u16| (x as int) < 0x10000).contains(x));
        }
    }
    assert(strictly_sorted(q) && q.to_set() == s);
}

/// Inserts `x` into an increasing vector unless it is already there.
pub fn insert_sorted(v: &mut Vec<u16>, x: u16)
    requires
        strictly_sorted(old(v)@),
    ensures
        strictly_sorted(final(v)@),
        final(v)@.to_set() == old(v)@.to_set().insert(x),
{
    let mut i: usize = 0;
    while i < v.len() && v[i] < x
        invariant
            i <= v.len(),
            v@ == old(v)@,
            forall|k: int| 0 <= k < i ==> v@[k] < x,
        decreases v.len() - i,
    {
        i += 1;
    }
    if i < v.len() && v[i] == x {
        assert(v@.to_set() =~= old(v)@.to_set().insert(x)) by {
            assert(v@.contains(x));
        }
        return;
    }
    let ghost before = v@;
    v.insert(i, x);
    assert(v@ =~= before.subrange(0, i as int).push(x) + before.subrange(i as int, before.len() as int));
    assert forall|a: int, b: int| 0 <= a < b < v@.len() implies v@[a] < v@[b] by {
        if b < i {
            assert(before[a] < before[b]);
        } else if a < i && b == i {
        } else if a < i && b > i {
            assert(before[a] < before[b - 1]);
        } else if a == i && b > i {
            assert(before[b - 1] >= x);
            if before[b - 1] == x {
                assert(b - 1 >= i);
                if b - 1 > i {
                    assert(before[i as int] < before[b - 1]);
                }
            }
        } else {
            assert(before[a - 1] < before[b - 1]);
        }
    }
    assert(v@.to_set() =~= old(v)@.to_set().insert(x)) by {
        assert forall|y: u16| v@.to_set().contains(y) implies old(v)@.to_set().insert(x).contains(y) by {
            let k = choose|k: int| 0 <= k < v@.len() && v@[k] == y;
            if k < i {
                assert(before[k] == y);
            } else if k > i {
                assert(before[k - 1] == y);
            }
        }
        assert forall|y: u16| old(v)@.to_set().insert(x).contains(y) implies v@.to_set().contains(y) by {
            if y == x {
                assert(v@[i as int] == x);
            } else {
                let k = choose|k: int| 0 <= k < before.len() && before[k] == y;
                if k < i {
                    assert(v@[k] == y);
                } else {
                    assert(v@[k + 1] == y);
                }
            }
        }
    }
}

} // verus!
