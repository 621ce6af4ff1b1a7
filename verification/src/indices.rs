//! Index lists as they travel on the wire: ascending, each index once.

use vstd::prelude::*;

verus! {

/// `s` is strictly increasing, so it holds no index twice.
pub open spec fn ascending(s: Seq<u32>) -> bool {
    forall|i: int, j: int| 0 <= i < j < s.len() ==> s[i] < s[j]
}

/// `a` and `b` hold the same indices, whatever their order and multiplicity.
pub open spec fn same_members(a: Seq<u32>, b: Seq<u32>) -> bool {
    forall|x: u32|
        #![trigger a.contains(x)]
        #![trigger b.contains(x)]
        a.contains(x) <==> b.contains(x)
}

/// An ascending list with `x` put in its place; unchanged if `x` is already there.
pub open spec fn insert_ascending(s: Seq<u32>, x: u32) -> Seq<u32>
    decreases s.len(),
{
    if s.len() == 0 {
        seq![x]
    } else if s.last() < x {
        s.push(x)
    } else if s.last() == x {
        s
    } else {
        insert_ascending(s.drop_last(), x).push(s.last())
    }
}

/// The indices of `s` in ascending order, each once.
pub open spec fn sort_unique(s: Seq<u32>) -> Seq<u32>
    decreases s.len(),
{
    if s.len() == 0 {
        Seq::empty()
    } else {
        insert_ascending(sort_unique(s.drop_last()), s.last())
    }
}

/// Inserting keeps the order and adds exactly `x` to the members.
pub proof fn lemma_insert_ascending(s: Seq<u32>, x: u32)
    requires
        ascending(s),
    ensures
        ascending(insert_ascending(s, x)),
        forall|y: u32|
            #![trigger insert_ascending(s, x).contains(y)]
            #![trigger s.contains(y)]
            insert_ascending(s, x).contains(y) <==> (s.contains(y) || y == x),
    decreases s.len(),
{
    let r = insert_ascending(s, x);
    if s.len() == 0 {
        assert(r[0] == x);
    } else if s.last() < x {
        assert(r[s.len() as int] == x);
        assert forall|y: u32| r.contains(y) <==> (s.contains(y) || y == x) by {
            if s.contains(y) {
                let k = choose|k: int| 0 <= k < s.len() && s[k] == y;
                assert(r[k] == y);
            }
        }
    } else if s.last() == x {
        assert(s[s.len() - 1] == x);
    } else {
        let head = s.drop_last();
        let t = insert_ascending(head, x);
        lemma_insert_ascending(head, x);
        assert forall|i: int| 0 <= i < t.len() implies t[i] < s.last() by {
            assert(t.contains(t[i]));
            if head.contains(t[i]) {
                let k = choose|k: int| 0 <= k < head.len() && head[k] == t[i];
                assert(s[k] < s[s.len() - 1]);
            }
        }
        assert(r[t.len() as int] == s.last());
        assert forall|y: u32| r.contains(y) <==> (s.contains(y) || y == x) by {
            if r.contains(y) {
                let k = choose|k: int| 0 <= k < r.len() && r[k] == y;
                if k < t.len() {
                    assert(t.contains(t[k]));
                    if head.contains(y) {
                        let m = choose|m: int| 0 <= m < head.len() && head[m] == y;
                        assert(s[m] == y);
                    }
                } else {
                    assert(s[s.len() - 1] == y);
                }
            }
            if s.contains(y) {
                let k = choose|k: int| 0 <= k < s.len() && s[k] == y;
                if k < head.len() {
                    assert(head[k] == y);
                    assert(head.contains(y));
                    let m = choose|m: int| 0 <= m < t.len() && t[m] == y;
                    assert(r[m] == y);
                }
            }
            if y == x {
                assert(t.contains(x));
                let m = choose|m: int| 0 <= m < t.len() && t[m] == x;
                assert(r[m] == x);
            }
        }
    }
}

/// `sort_unique` gives an ascending list with the members of its argument.
pub proof fn lemma_sort_unique(s: Seq<u32>)
    ensures
        ascending(sort_unique(s)),
        same_members(sort_unique(s), s),
    decreases s.len(),
{
    if s.len() > 0 {
        let head = s.drop_last();
        lemma_sort_unique(head);
        lemma_insert_ascending(sort_unique(head), s.last());
        assert forall|y: u32| sort_unique(s).contains(y) <==> s.contains(y) by {
            if s.contains(y) {
                let k = choose|k: int| 0 <= k < s.len() && s[k] == y;
                if k < head.len() {
                    assert(head[k] == y);
                }
            }
            if head.contains(y) {
                let k = choose|k: int| 0 <= k < head.len() && head[k] == y;
                assert(s[k] == y);
            }
            assert(s[s.len() - 1] == s.last());
        }
    }
}

/// An ascending list is determined by its members.
pub proof fn lemma_ascending_unique(a: Seq<u32>, b: Seq<u32>)
    requires
        ascending(a),
        ascending(b),
        same_members(a, b),
    ensures
        a == b,
    decreases a.len(),
{
    if a.len() == 0 {
        if b.len() > 0 {
            assert(b.contains(b[0]));
        }
        assert(a =~= b);
    } else {
        assert(a.contains(a[a.len() - 1]));
        let kb = choose|k: int| 0 <= k < b.len() && b[k] == a.last();
        assert(b.contains(b[b.len() - 1]));
        let ka = choose|k: int| 0 <= k < a.len() && a[k] == b.last();
        assert(a.last() == b.last());
        let ha = a.drop_last();
        let hb = b.drop_last();
        assert forall|x: u32| ha.contains(x) <==> hb.contains(x) by {
            if ha.contains(x) {
                let k = choose|k: int| 0 <= k < ha.len() && ha[k] == x;
                assert(a[k] == x);
                assert(a.contains(x));
                let m = choose|m: int| 0 <= m < b.len() && b[m] == x;
                assert(hb[m] == x);
            }
            if hb.contains(x) {
                let k = choose|k: int| 0 <= k < hb.len() && hb[k] == x;
                assert(b[k] == x);
                assert(b.contains(x));
                let m = choose|m: int| 0 <= m < a.len() && a[m] == x;
                assert(ha[m] == x);
            }
        }
        lemma_ascending_unique(ha, hb);
        assert(a =~= ha.push(a.last()));
        assert(b =~= hb.push(b.last()));
    }
}

/// Sorting again changes nothing.
pub proof fn lemma_sort_unique_of_ascending(s: Seq<u32>)
    requires
        ascending(s),
    ensures
        sort_unique(s) == s,
{
    lemma_sort_unique(s);
    lemma_ascending_unique(sort_unique(s), s);
}

proof fn lemma_insert_at(s: Seq<u32>, x: u32, p: int)
    requires
        ascending(s),
        0 <= p <= s.len(),
        forall|k: int| p <= k < s.len() ==> s[k] > x,
        p > 0 ==> s[p - 1] <= x,
    ensures
        insert_ascending(s, x) == if p > 0 && s[p - 1] == x {
            s
        } else {
            s.insert(p, x)
        },
    decreases s.len() - p,
{
    if s.len() == 0 {
        assert(seq![x] =~= s.insert(0, x));
    } else if p == s.len() {
        if s.last() < x {
            assert(s.push(x) =~= s.insert(p, x));
        }
    } else {
        let head = s.drop_last();
        lemma_insert_at(head, x, p);
        if p > 0 && s[p - 1] == x {
            assert(head.push(s.last()) =~= s);
        } else {
            assert(head.insert(p, x).push(s.last()) =~= s.insert(p, x));
        }
    }
}

fn insert_unique(r: &mut Vec<u32>, x: u32)
    requires
        ascending(old(r)@),
    ensures
        final(r)@ == insert_ascending(old(r)@, x),
{
    let mut p: usize = r.len();
    while p > 0 && r[p - 1] > x
        invariant
            p <= r.len(),
            r@ == old(r)@,
            forall|k: int| p <= k < r.len() ==> r[k] > x,
        decreases p,
    {
        p -= 1;
    }
    proof {
        lemma_insert_at(r@, x, p as int);
    }
    if p > 0 && r[p - 1] == x {
    } else {
        r.insert(p, x);
    }
}

/// Sorts a list of indices and drops repeats.
pub fn sorted_unique(indices: &Vec<u32>) -> (r: Vec<u32>)
    ensures
        r@ == sort_unique(indices@),
        ascending(r@),
        same_members(r@, indices@),
{
    let mut r: Vec<u32> = Vec::new();
    let mut i: usize = 0;
    while i < indices.len()
        invariant
            i <= indices.len(),
            r@ == sort_unique(indices@.take(i as int)),
        decreases indices.len() - i,
    {
        proof {
            lemma_sort_unique(indices@.take(i as int));
            assert(indices@.take(i + 1).drop_last() =~= indices@.take(i as int));
        }
        insert_unique(&mut r, indices[i]);
        i += 1;
    }
    proof {
        assert(indices@.take(i as int) =~= indices@);
        lemma_sort_unique(indices@);
    }
    r
}

/// Whether a list is already in wire order.
pub fn is_ascending(indices: &Vec<u32>) -> (r: bool)
    ensures
        r == ascending(indices@),
{
    let mut i: usize = 1;
    while i < indices.len()
        invariant
            1 <= i,
            forall|a: int, b: int| 0 <= a < b < i && b < indices.len() ==> indices[a] < indices[b],
        decreases indices.len() - i,
    {
        if indices[i - 1] >= indices[i] {
            return false;
        }
        proof {
            assert forall|a: int, b: int| 0 <= a < b < i + 1 && b < indices.len() implies indices[a]
                < indices[b] by {
                if b == i && a < i - 1 {
                    assert(indices[a] < indices[i - 1]);
                }
            }
        }
        i += 1;
    }
    true
}

} // verus!
