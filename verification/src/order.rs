//! Putting things in an order by weight.
use vstd::prelude::*;

verus! {

/// One of some things that are to be put in an order: its place among them, and the
/// number that it is ordered by.
#[derive(PartialEq, Eq, Structural, Copy, Clone, Debug)]
pub struct Entry {
    pub index: usize,
    pub weight: u64,
}

/// Whether `a` comes before `b`: the lighter one, and of two of one weight the one whose
/// place is first.
pub open spec fn comes_before(a: Entry, b: Entry) -> bool {
    a.weight < b.weight || (a.weight == b.weight && a.index < b.index)
}

/// Whether entries are in their order.
pub open spec fn in_order(order: Seq<Entry>) -> bool {
    forall|i: int, j: int|
        0 <= i < j < order.len() ==> comes_before(#[trigger] order[i], #[trigger] order[j])
            || order[i] == order[j]
}

fn before(a: Entry, b: Entry) -> (r: bool)
    ensures
        r == comes_before(a, b),
{
    a.weight < b.weight || (a.weight == b.weight && a.index < b.index)
}

/// The entries in their order.
///
/// The order holds the same entries, each as often, and it is the one order of them that
/// [`in_order`] admits.
pub fn sort(probes: &Vec<Entry>) -> (order: Vec<Entry>)
    ensures
        in_order(order@),
        order@.to_multiset() == probes@.to_multiset(),
        order@.len() == probes@.len(),
{
    let mut order: Vec<Entry> = Vec::new();
    let mut i: usize = 0;
    proof {
        assert(probes@.subrange(0, 0) =~= Seq::<Entry>::empty());
    }
    while i < probes.len()
        invariant
            i <= probes@.len(),
            in_order(order@),
            order@.to_multiset() == probes@.subrange(0, i as int).to_multiset(),
        decreases probes@.len() - i,
    {
        let p = probes[i];
        let mut at: usize = 0;
        while at < order.len() && !before(p, order[at])
            invariant
                at <= order@.len(),
                forall|k: int| 0 <= k < at ==> !comes_before(p, #[trigger] order@[k]),
            decreases order@.len() - at,
        {
            at = at + 1;
        }
        let ghost was = order@;
        order.insert(at, p);
        proof {
            let now = order@;
            assert(now == was.insert(at as int, p));
            assert(now.remove(at as int) =~= was);
            vstd::seq_lib::to_multiset_remove(now, at as int);
            assert(now.to_multiset() =~= was.to_multiset().insert(p)) by {
                now.to_multiset_ensures();
                assert(now.contains(p)) by {
                    assert(now[at as int] == p);
                }
                assert(now.to_multiset().count(p) > 0);
                assert(now.to_multiset().remove(p).insert(p) =~= now.to_multiset());
            }
            let shown = probes@.subrange(0, i + 1);
            assert(shown =~= probes@.subrange(0, i as int).push(p));
            vstd::seq_lib::to_multiset_build(probes@.subrange(0, i as int), p);
            assert forall|a: int, b: int| 0 <= a < b < now.len() implies comes_before(
                #[trigger] now[a],
                #[trigger] now[b],
            ) || now[a] == now[b] by {
                if a < at && b < at {
                    assert(now[a] == was[a] && now[b] == was[b]);
                } else if a < at && b == at {
                    assert(now[a] == was[a]);
                    assert(!comes_before(p, was[a]));
                } else if a < at {
                    assert(now[a] == was[a] && now[b] == was[b - 1]);
                } else if a == at {
                    assert(now[b] == was[b - 1]);
                    assert(comes_before(p, was[at as int]));
                    if b - 1 > at {
                        assert(comes_before(was[at as int], was[b - 1]) || was[at as int]
                            == was[b - 1]);
                    }
                } else {
                    assert(now[a] == was[a - 1] && now[b] == was[b - 1]);
                }
            }
        }
        i = i + 1;
    }
    proof {
        assert(probes@.subrange(0, probes@.len() as int) =~= probes@);
        order@.to_multiset_ensures();
        probes@.to_multiset_ensures();
    }
    order
}

/// Two orders of the same entries that [`in_order`] admits are the same order.
pub proof fn lemma_order_is_unique(a: Seq<Entry>, b: Seq<Entry>)
    requires
        in_order(a),
        in_order(b),
        a.to_multiset() == b.to_multiset(),
    ensures
        a == b,
    decreases a.len(),
{
    a.to_multiset_ensures();
    b.to_multiset_ensures();
    if a.len() == 0 {
        assert(a =~= b);
    } else {
        let x = a[0];
        let y = b[0];
        assert(a.contains(x));
        assert(b.to_multiset().count(x) > 0);
        assert(b.contains(x));
        assert(b.contains(y));
        assert(a.to_multiset().count(y) > 0);
        assert(a.contains(y));
        let i = choose|i: int| 0 <= i < b.len() && b[i] == x;
        let j = choose|j: int| 0 <= j < a.len() && a[j] == y;
        assert(x == y);
        vstd::seq_lib::to_multiset_remove(a, 0);
        vstd::seq_lib::to_multiset_remove(b, 0);
        assert(a.remove(0) =~= a.drop_first());
        assert(b.remove(0) =~= b.drop_first());
        assert(in_order(a.drop_first())) by {
            assert forall|p: int, q: int| 0 <= p < q < a.drop_first().len() implies comes_before(
                #[trigger] a.drop_first()[p],
                #[trigger] a.drop_first()[q],
            ) || a.drop_first()[p] == a.drop_first()[q] by {
                assert(a.drop_first()[p] == a[p + 1] && a.drop_first()[q] == a[q + 1]);
            }
        }
        assert(in_order(b.drop_first())) by {
            assert forall|p: int, q: int| 0 <= p < q < b.drop_first().len() implies comes_before(
                #[trigger] b.drop_first()[p],
                #[trigger] b.drop_first()[q],
            ) || b.drop_first()[p] == b.drop_first()[q] by {
                assert(b.drop_first()[p] == b[p + 1] && b.drop_first()[q] == b[q + 1]);
            }
        }
        lemma_order_is_unique(a.drop_first(), b.drop_first());
        assert(a =~= seq![x] + a.drop_first());
        assert(b =~= seq![y] + b.drop_first());
    }
}

} // verus!
