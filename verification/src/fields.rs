//! Circuit struct fields: names kept in increasing (code point) order,
//! each with the field its value lives in.

use vstd::prelude::*;
use crate::bundle::TargetField;

verus! {

/// Lexicographic order on character sequences by code point (a proper
/// prefix comes first); this is the order of `String`'s bytes in UTF-8.
pub open spec fn seq_lt(a: Seq<char>, b: Seq<char>) -> bool
    decreases a.len(),
{
    if a.len() == 0 {
        b.len() > 0
    } else if b.len() == 0 {
        false
    } else if a[0] != b[0] {
        a[0] < b[0]
    } else {
        seq_lt(a.drop_first(), b.drop_first())
    }
}

/// `seq_lt` is transitive.
pub proof fn lemma_seq_lt_trans(a: Seq<char>, b: Seq<char>, c: Seq<char>)
    requires
        seq_lt(a, b),
        seq_lt(b, c),
    ensures
        seq_lt(a, c),
    decreases a.len(),
{
    if a.len() > 0 && b.len() > 0 && c.len() > 0 && a[0] == b[0] && b[0] == c[0] {
        lemma_seq_lt_trans(a.drop_first(), b.drop_first(), c.drop_first());
    }
}

/// `seq_lt` is irreflexive.
pub proof fn lemma_seq_lt_irrefl(a: Seq<char>)
    ensures
        !seq_lt(a, a),
    decreases a.len(),
{
    if a.len() > 0 {
        lemma_seq_lt_irrefl(a.drop_first());
    }
}

/// Two different sequences are ordered one way or the other.
pub proof fn lemma_seq_lt_total(a: Seq<char>, b: Seq<char>)
    requires
        a != b,
    ensures
        seq_lt(a, b) || seq_lt(b, a),
    decreases a.len(),
{
    if a.len() > 0 && b.len() > 0 && a[0] == b[0] {
        if a.drop_first() == b.drop_first() {
            assert(a =~= seq![a[0]] + a.drop_first());
            assert(b =~= seq![b[0]] + b.drop_first());
        }
        lemma_seq_lt_total(a.drop_first(), b.drop_first());
    } else if a.len() == 0 && b.len() == 0 {
        assert(a =~= b);
    }
}

/// Result of comparing two character sequences.
pub enum Order {
    Less,
    Equal,
    Greater,
}

/// Compares two character vectors by `seq_lt`.
pub fn compare_chars(a: &Vec<char>, b: &Vec<char>) -> (r: Order)
    ensures
        r is Less ==> seq_lt(a@, b@),
        r is Equal ==> a@ == b@,
        r is Greater ==> seq_lt(b@, a@),
{
    let mut i: usize = 0;
    assert(a@.subrange(0, a@.len() as int) =~= a@);
    assert(b@.subrange(0, b@.len() as int) =~= b@);
    while i < a.len() && i < b.len()
        invariant
            i <= a@.len(),
            i <= b@.len(),
            a@.subrange(0, i as int) == b@.subrange(0, i as int),
            seq_lt(a@, b@) == seq_lt(a@.subrange(i as int, a@.len() as int), b@.subrange(i as int, b@.len() as int)),
            seq_lt(b@, a@) == seq_lt(b@.subrange(i as int, b@.len() as int), a@.subrange(i as int, a@.len() as int)),
        decreases a@.len() - i,
    {
        let x = a[i];
        let y = b[i];
        let ghost ra = a@.subrange(i as int, a@.len() as int);
        let ghost rb = b@.subrange(i as int, b@.len() as int);
        if x != y {
            assert(ra[0] == x && rb[0] == y);
            if x < y {
                return Order::Less;
            } else {
                return Order::Greater;
            }
        }
        assert(ra.drop_first() =~= a@.subrange(i + 1, a@.len() as int));
        assert(rb.drop_first() =~= b@.subrange(i + 1, b@.len() as int));
        assert(a@.subrange(0, i + 1) =~= a@.subrange(0, i as int).push(x));
        assert(b@.subrange(0, i + 1) =~= b@.subrange(0, i as int).push(y));
        i += 1;
    }
    if i < b.len() {
        assert(a@.subrange(i as int, a@.len() as int).len() == 0);
        Order::Less
    } else if i < a.len() {
        assert(b@.subrange(i as int, b@.len() as int).len() == 0);
        Order::Greater
    } else {
        assert(a@ =~= a@.subrange(0, i as int));
        assert(b@ =~= b@.subrange(0, i as int));
        Order::Equal
    }
}

/// Keys in strictly increasing order.
pub open spec fn keys_sorted(v: Seq<(Vec<char>, TargetField)>) -> bool {
    forall|i: int, j: int| 0 <= i < j < v.len() ==> seq_lt(#[trigger] v[i].0@, #[trigger] v[j].0@)
}

/// The name-to-field map that a sorted entry list stands for.
pub open spec fn entries_map(v: Seq<(Vec<char>, TargetField)>) -> Map<Seq<char>, TargetField> {
    Map::new(|k: Seq<char>| exists|i: int| 0 <= i < v.len() && #[trigger] v[i].0@ == k,
        |k: Seq<char>| v[entry_index(v, k)].1)
}

/// A position holding name `k`.
pub open spec fn entry_index(v: Seq<(Vec<char>, TargetField)>, k: Seq<char>) -> int {
    choose|i: int| 0 <= i < v.len() && #[trigger] v[i].0@ == k
}

/// Where a key belongs in a sorted entry list: the first position whose key
/// is not below it.
fn find_slot(v: &Vec<(Vec<char>, TargetField)>, key: &Vec<char>) -> (r: (usize, bool))
    requires
        keys_sorted(v@),
    ensures
        r.0 <= v@.len(),
        forall|i: int| 0 <= i < r.0 ==> seq_lt(#[trigger] v@[i].0@, key@),
        r.1 ==> r.0 < v@.len() && v@[r.0 as int].0@ == key@,
        !r.1 ==> forall|i: int| r.0 <= i < v@.len() ==> seq_lt(key@, #[trigger] v@[i].0@),
{
    let mut lo: usize = 0;
    let mut hi: usize = v.len();
    while lo < hi
        invariant
            lo <= hi <= v@.len(),
            keys_sorted(v@),
            forall|i: int| 0 <= i < lo ==> seq_lt(#[trigger] v@[i].0@, key@),
            forall|i: int| hi <= i < v@.len() ==> seq_lt(key@, #[trigger] v@[i].0@),
        decreases hi - lo,
    {
        let mid = lo + (hi - lo) / 2;
        match compare_chars(&v[mid].0, key) {
            Order::Less => {
                proof {
                    assert forall|i: int| 0 <= i < mid + 1 implies seq_lt(#[trigger] v@[i].0@, key@) by {
                        if i < mid {
                            lemma_seq_lt_trans(v@[i].0@, v@[mid as int].0@, key@);
                        }
                    }
                }
                lo = mid + 1;
            },
            Order::Greater => {
                proof {
                    assert forall|i: int| mid <= i < v@.len() implies seq_lt(key@, #[trigger] v@[i].0@) by {
                        if i > mid {
                            lemma_seq_lt_trans(key@, v@[mid as int].0@, v@[i].0@);
                        }
                    }
                }
                hi = mid;
            },
            Order::Equal => {
                return (mid, true);
            },
        }
    }
    (lo, false)
}

proof fn lemma_sorted_distinct(v: Seq<(Vec<char>, TargetField)>, i: int, j: int)
    requires
        keys_sorted(v),
        0 <= i < v.len(),
        0 <= j < v.len(),
        v[i].0@ == v[j].0@,
    ensures
        i == j,
{
    if i < j {
        assert(seq_lt(v[i].0@, v[j].0@));
        lemma_seq_lt_irrefl(v[i].0@);
    } else if j < i {
        assert(seq_lt(v[j].0@, v[i].0@));
        lemma_seq_lt_irrefl(v[i].0@);
    }
}

proof fn lemma_entries_at(v: Seq<(Vec<char>, TargetField)>, i: int)
    requires
        keys_sorted(v),
        0 <= i < v.len(),
    ensures
        entries_map(v).contains_key(v[i].0@),
        entries_map(v)[v[i].0@] == v[i].1,
{
    let k = v[i].0@;
    assert(exists|q: int| 0 <= q < v.len() && #[trigger] v[q].0@ == k);
    let c = entry_index(v, k);
    lemma_sorted_distinct(v, c, i);
}

/// Sets the field of a name, keeping the names in increasing order.
pub fn put_field(v: &mut Vec<(Vec<char>, TargetField)>, key: Vec<char>, f: TargetField)
    requires
        keys_sorted(old(v)@),
    ensures
        keys_sorted(final(v)@),
        entries_map(final(v)@) == entries_map(old(v)@).insert(key@, f),
{
    let (p, found) = find_slot(v, &key);
    let ghost k = key@;
    let ghost v0 = v@;
    if found {
        v.set(p, (key, f));
        proof {
            assert forall|i: int, j: int| 0 <= i < j < v@.len() implies seq_lt(#[trigger] v@[i].0@, #[trigger] v@[j].0@) by {
                assert(v@[i].0@ == v0[i].0@ && v@[j].0@ == v0[j].0@);
            }
            assert forall|kk: Seq<char>| entries_map(v@).contains_key(kk) <==> entries_map(v0).insert(k, f).contains_key(kk) by {
                if entries_map(v@).contains_key(kk) {
                    let i = choose|i: int| 0 <= i < v@.len() && #[trigger] v@[i].0@ == kk;
                    if i != p {
                        lemma_entries_at(v0, i);
                    }
                }
                if entries_map(v0).contains_key(kk) {
                    let i = choose|i: int| 0 <= i < v0.len() && #[trigger] v0[i].0@ == kk;
                    lemma_entries_at(v@, i);
                }
                if kk == k {
                    lemma_entries_at(v@, p as int);
                }
            }
            assert forall|kk: Seq<char>| #[trigger] entries_map(v@).contains_key(kk) implies entries_map(v@)[kk] == entries_map(v0).insert(k, f)[kk] by {
                let i = choose|i: int| 0 <= i < v@.len() && #[trigger] v@[i].0@ == kk;
                lemma_entries_at(v@, i);
                if i != p {
                    lemma_entries_at(v0, i);
                    if kk == k {
                        lemma_sorted_distinct(v@, i, p as int);
                    }
                }
            }
            assert(entries_map(v@) =~= entries_map(v0).insert(k, f));
        }
    } else {
        v.insert(p, (key, f));
        proof {
            assert forall|i: int, j: int| 0 <= i < j < v@.len() implies seq_lt(#[trigger] v@[i].0@, #[trigger] v@[j].0@) by {
                if j < p {
                    assert(v@[i] == v0[i] && v@[j] == v0[j]);
                } else if j == p {
                    assert(v@[i] == v0[i]);
                } else if i == p {
                    assert(v@[j] == v0[j - 1]);
                } else if i < p {
                    assert(v@[i] == v0[i] && v@[j] == v0[j - 1]);
                } else {
                    assert(v@[i] == v0[i - 1] && v@[j] == v0[j - 1]);
                }
            }
            assert forall|kk: Seq<char>| entries_map(v@).contains_key(kk) <==> entries_map(v0).insert(k, f).contains_key(kk) by {
                if entries_map(v@).contains_key(kk) {
                    let i = choose|i: int| 0 <= i < v@.len() && #[trigger] v@[i].0@ == kk;
                    if i < p {
                        lemma_entries_at(v0, i);
                    } else if i > p {
                        assert(v@[i] == v0[i - 1]);
                        lemma_entries_at(v0, i - 1);
                    }
                }
                if entries_map(v0).contains_key(kk) {
                    let i = choose|i: int| 0 <= i < v0.len() && #[trigger] v0[i].0@ == kk;
                    if i < p {
                        assert(v@[i] == v0[i]);
                        lemma_entries_at(v@, i);
                    } else {
                        assert(v@[i + 1] == v0[i]);
                        lemma_entries_at(v@, i + 1);
                    }
                }
                if kk == k {
                    lemma_entries_at(v@, p as int);
                }
            }
            assert forall|kk: Seq<char>| #[trigger] entries_map(v@).contains_key(kk) implies entries_map(v@)[kk] == entries_map(v0).insert(k, f)[kk] by {
                let i = choose|i: int| 0 <= i < v@.len() && #[trigger] v@[i].0@ == kk;
                lemma_entries_at(v@, i);
                if i < p {
                    assert(v@[i] == v0[i]);
                    lemma_entries_at(v0, i);
                    lemma_seq_lt_irrefl(k);
                } else if i > p {
                    assert(v@[i] == v0[i - 1]);
                    lemma_entries_at(v0, i - 1);
                    lemma_seq_lt_irrefl(k);
                }
            }
            assert(entries_map(v@) =~= entries_map(v0).insert(k, f));
        }
    }
}

/// Adds a name with the given field unless the name is already present.
pub fn put_field_if_absent(v: &mut Vec<(Vec<char>, TargetField)>, key: Vec<char>, f: TargetField)
    requires
        keys_sorted(old(v)@),
    ensures
        keys_sorted(final(v)@),
        entries_map(final(v)@) == if entries_map(old(v)@).contains_key(key@) {
            entries_map(old(v)@)
        } else {
            entries_map(old(v)@).insert(key@, f)
        },
{
    let (p, found) = find_slot(v, &key);
    if found {
        proof {
            lemma_entries_at(v@, p as int);
        }
    } else {
        proof {
            if entries_map(v@).contains_key(key@) {
                let i = choose|i: int| 0 <= i < v@.len() && #[trigger] v@[i].0@ == key@;
                if i < p {
                    assert(seq_lt(v@[i].0@, key@));
                } else {
                    assert(seq_lt(key@, v@[i].0@));
                }
                lemma_seq_lt_irrefl(key@);
            }
        }
        put_field(v, key, f);
    }
}


/// The names of an entry list, in order.
pub open spec fn entry_keys(v: Seq<(Vec<char>, TargetField)>) -> Seq<Seq<char>> {
    v.map_values(|e: (Vec<char>, TargetField)| e.0@)
}

proof fn lemma_keys_first_least(a: Seq<Seq<char>>, x: Seq<char>)
    requires
        forall|i: int, j: int| 0 <= i < j < a.len() ==> seq_lt(#[trigger] a[i], #[trigger] a[j]),
        a.contains(x),
    ensures
        a[0] == x || seq_lt(a[0], x),
{
    let i = choose|i: int| 0 <= i < a.len() && a[i] == x;
    if i > 0 {
        assert(seq_lt(a[0], a[i]));
    }
}

/// Two strictly increasing name sequences with the same names are equal.
proof fn lemma_keys_unique(a: Seq<Seq<char>>, b: Seq<Seq<char>>)
    requires
        forall|i: int, j: int| 0 <= i < j < a.len() ==> seq_lt(#[trigger] a[i], #[trigger] a[j]),
        forall|i: int, j: int| 0 <= i < j < b.len() ==> seq_lt(#[trigger] b[i], #[trigger] b[j]),
        a.to_set() == b.to_set(),
    ensures
        a == b,
    decreases a.len(),
{
    if a.len() == 0 {
        if b.len() > 0 {
            assert(b.to_set().contains(b[0]));
        }
        assert(a =~= b);
    } else {
        assert(a.to_set().contains(a[0]));
        assert(b.len() > 0);
        assert(b.to_set().contains(b[0]));
        lemma_keys_first_least(a, b[0]);
        lemma_keys_first_least(b, a[0]);
        if a[0] != b[0] {
            lemma_seq_lt_trans(a[0], b[0], a[0]);
            lemma_seq_lt_irrefl(a[0]);
        }
        let a1 = a.drop_first();
        let b1 = b.drop_first();
        assert(a1.to_set() =~= b1.to_set()) by {
            assert forall|x: Seq<char>| a1.to_set().contains(x) implies b1.to_set().contains(x) by {
                let i = choose|i: int| 0 <= i < a1.len() && a1[i] == x;
                assert(a[i + 1] == x);
                assert(seq_lt(a[0], a[i + 1]));
                assert(a.to_set().contains(x));
                let k = choose|k: int| 0 <= k < b.len() && b[k] == x;
                if k == 0 {
                    lemma_seq_lt_irrefl(x);
                }
                assert(b1[k - 1] == x);
            }
            assert forall|x: Seq<char>| b1.to_set().contains(x) implies a1.to_set().contains(x) by {
                let i = choose|i: int| 0 <= i < b1.len() && b1[i] == x;
                assert(b[i + 1] == x);
                assert(seq_lt(b[0], b[i + 1]));
                assert(b.to_set().contains(x));
                let k = choose|k: int| 0 <= k < a.len() && a[k] == x;
                if k == 0 {
                    lemma_seq_lt_irrefl(x);
                }
                assert(a1[k - 1] == x);
            }
        }
        lemma_keys_unique(a1, b1);
        assert(a =~= b) by {
            assert forall|i: int| 0 <= i < a.len() implies a[i] == b[i] by {
                if i > 0 {
                    assert(a[i] == a1[i - 1]);
                }
            }
        }
    }
}

/// In a sorted entry list the map gives each position's field under its name.
proof fn lemma_entries_map_at(v: Seq<(Vec<char>, TargetField)>, i: int)
    requires
        keys_sorted(v),
        0 <= i < v.len(),
    ensures
        entries_map(v).contains_key(v[i].0@),
        entries_map(v)[v[i].0@] == v[i].1,
{
    let k = v[i].0@;
    assert(exists|j: int| 0 <= j < v.len() && #[trigger] v[j].0@ == k) by {
        assert(v[i].0@ == k);
    }
    let j = entry_index(v, k);
    if j < i {
        assert(seq_lt(v[j].0@, v[i].0@));
        lemma_seq_lt_irrefl(k);
    } else if i < j {
        assert(seq_lt(v[i].0@, v[j].0@));
        lemma_seq_lt_irrefl(k);
    }
}

/// Two sorted entry lists that stand for the same map hold the same names
/// and fields, position by position.
pub proof fn lemma_entries_unique(a: Seq<(Vec<char>, TargetField)>, b: Seq<(Vec<char>, TargetField)>)
    requires
        keys_sorted(a),
        keys_sorted(b),
        entries_map(a) == entries_map(b),
    ensures
        a.len() == b.len(),
        forall|i: int| 0 <= i < a.len() ==> (#[trigger] a[i]).0@ == b[i].0@ && a[i].1 == b[i].1,
{
    let ka = entry_keys(a);
    let kb = entry_keys(b);
    assert forall|i: int, j: int| 0 <= i < j < ka.len() implies seq_lt(#[trigger] ka[i], #[trigger] ka[j]) by {
        assert(ka[i] == a[i].0@ && ka[j] == a[j].0@);
    }
    assert forall|i: int, j: int| 0 <= i < j < kb.len() implies seq_lt(#[trigger] kb[i], #[trigger] kb[j]) by {
        assert(kb[i] == b[i].0@ && kb[j] == b[j].0@);
    }
    assert(ka.to_set() =~= kb.to_set()) by {
        assert forall|x: Seq<char>| ka.to_set().contains(x) implies kb.to_set().contains(x) by {
            let i = choose|i: int| 0 <= i < ka.len() && ka[i] == x;
            assert(a[i].0@ == x);
            assert(entries_map(a).dom().contains(x));
            assert(entries_map(b).dom().contains(x));
            let j = choose|j: int| 0 <= j < b.len() && #[trigger] b[j].0@ == x;
            assert(kb[j] == x);
        }
        assert forall|x: Seq<char>| kb.to_set().contains(x) implies ka.to_set().contains(x) by {
            let i = choose|i: int| 0 <= i < kb.len() && kb[i] == x;
            assert(b[i].0@ == x);
            assert(entries_map(b).dom().contains(x));
            assert(entries_map(a).dom().contains(x));
            let j = choose|j: int| 0 <= j < a.len() && #[trigger] a[j].0@ == x;
            assert(ka[j] == x);
        }
    }
    lemma_keys_unique(ka, kb);
    assert(a.len() == ka.len() && b.len() == kb.len());
    assert forall|i: int| 0 <= i < a.len() implies (#[trigger] a[i]).0@ == b[i].0@ && a[i].1 == b[i].1 by {
        assert(ka[i] == a[i].0@ && kb[i] == b[i].0@);
        lemma_entries_map_at(a, i);
        lemma_entries_map_at(b, i);
    }
}

} // verus!
