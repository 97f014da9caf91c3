//! The frontier of a search: a heap of scored node positions that hands out
//! one of lowest score first.

use vstd::multiset::Multiset;
use vstd::prelude::*;

verus! {

/// A node position waiting to be expanded, with the score that orders it.
#[derive(Debug, Clone, Copy, PartialEq, Eq, Structural)]
pub struct Scored {
    pub score: u128,
    pub id: usize,
}

/// Whether the entries form a heap: no entry has a lower score than the
/// entry at half its place.
pub open spec fn heap_ordered(items: Seq<Scored>) -> bool {
    forall|i: int| 0 < i < items.len() ==> items[(i - 1) / 2].score <= (#[trigger] items[i]).score
}

/// Whether the entries form a heap but for the entry at place `k`, which
/// may be lower than the one above it; the entries below it are no lower
/// than the one above it.
pub open spec fn ordered_above(items: Seq<Scored>, k: int) -> bool {
    &&& forall|i: int|
        0 < i < items.len() && i != k ==> items[(i - 1) / 2].score <= (#[trigger] items[i]).score
    &&& forall|i: int|
        0 < i < items.len() && (i - 1) / 2 == k && k > 0 ==> items[(k - 1) / 2].score <= (
        #[trigger] items[i]).score
}

/// Whether the entries form a heap but for the entry at place `k`, which
/// may be higher than those below it; the entries below it are no lower
/// than the one above it.
pub open spec fn ordered_below(items: Seq<Scored>, k: int) -> bool {
    &&& forall|i: int|
        0 < i < items.len() && (i - 1) / 2 != k ==> items[(i - 1) / 2].score <= (
        #[trigger] items[i]).score
    &&& forall|i: int|
        0 < i < items.len() && (i - 1) / 2 == k && k > 0 ==> items[(k - 1) / 2].score <= (
        #[trigger] items[i]).score
}

/// The first entry of a heap has the lowest score.
pub proof fn lemma_heap_top(items: Seq<Scored>, i: int)
    requires
        heap_ordered(items),
        0 <= i < items.len(),
    ensures
        items[0].score <= items[i].score,
    decreases i,
{
    if i > 0 {
        lemma_heap_top(items, (i - 1) / 2);
    }
}

/// Exchanging two entries leaves the same entries.
pub proof fn lemma_exchange(items: Seq<Scored>, a: int, b: int)
    requires
        0 <= a < items.len(),
        0 <= b < items.len(),
    ensures
        items.update(a, items[b]).update(b, items[a]).to_multiset() == items.to_multiset(),
{
    broadcast use vstd::seq_lib::group_to_multiset_ensures;

    if a != b {
        let first = items.update(a, items[b]);
        vstd::seq_lib::to_multiset_update(items, a, items[b]);
        vstd::seq_lib::to_multiset_update(first, b, items[a]);
        assert(first[b] == items[b]);
        assert(items.to_multiset().contains(items[a])) by {
            assert(items.contains(items[a]));
        }
        assert(items.to_multiset().contains(items[b])) by {
            assert(items.contains(items[b]));
        }
        assert(items.to_multiset().insert(items[b]).remove(items[a]).insert(items[a]).remove(
            items[b],
        ) =~= items.to_multiset());
    } else {
        assert(items.update(a, items[b]).update(b, items[a]) =~= items);
    }
}

/// Exchanges the entries at two places.
fn exchange(items: &mut Vec<Scored>, a: usize, b: usize)
    requires
        a < old(items)@.len(),
        b < old(items)@.len(),
    ensures
        final(items)@ == old(items)@.update(a as int, old(items)@[b as int]).update(
            b as int,
            old(items)@[a as int],
        ),
        final(items)@.to_multiset() == old(items)@.to_multiset(),
{
    proof {
        lemma_exchange(items@, a as int, b as int);
    }
    let x = items[a];
    let y = items[b];
    items[a] = y;
    items[b] = x;
}

/// Adds an entry to a heap.
fn heap_push(items: &mut Vec<Scored>, entry: Scored)
    requires
        heap_ordered(old(items)@),
    ensures
        heap_ordered(final(items)@),
        final(items)@.to_multiset() == old(items)@.to_multiset().insert(entry),
        final(items)@.len() == old(items)@.len() + 1,
{
    proof {
        broadcast use vstd::seq_lib::group_to_multiset_ensures;

    }
    items.push(entry);
    let mut k: usize = items.len() - 1;
    while k > 0
        invariant
            k < items@.len(),
            items@.len() == old(items)@.len() + 1,
            items@.to_multiset() == old(items)@.to_multiset().insert(entry),
            ordered_above(items@, k as int),
        ensures
            heap_ordered(items@),
            items@.len() == old(items)@.len() + 1,
            items@.to_multiset() == old(items)@.to_multiset().insert(entry),
        decreases k,
    {
        let parent = (k - 1) / 2;
        if items[parent].score <= items[k].score {
            break;
        }
        let ghost before = items@;
        exchange(items, parent, k);
        proof {
            assert forall|i: int| 0 < i < items@.len() && i != parent implies items@[(i - 1)
                / 2].score <= (#[trigger] items@[i]).score by {
                if i == k {
                } else if (i - 1) / 2 == parent {
                    assert(before[parent as int].score <= before[i].score);
                } else if (i - 1) / 2 == k {
                    assert(before[(k - 1) / 2].score <= before[i].score);
                } else {
                    assert(before[(i - 1) / 2].score <= before[i].score);
                }
            }
            assert forall|i: int|
                0 < i < items@.len() && (i - 1) / 2 == parent && parent > 0 implies items@[(parent
                - 1) / 2].score <= (#[trigger] items@[i]).score by {
                assert(before[(parent - 1) / 2].score <= before[parent as int].score);
                if i != k {
                    assert(before[parent as int].score <= before[i].score);
                }
            }
        }
        k = parent;
    }
}

/// Takes the entry of lowest score out of a heap.
fn heap_pop(items: &mut Vec<Scored>) -> (r: Option<Scored>)
    requires
        heap_ordered(old(items)@),
    ensures
        heap_ordered(final(items)@),
        old(items)@.len() == 0 ==> r is None && final(items)@ == old(items)@,
        old(items)@.len() > 0 ==> r is Some && old(items)@.to_multiset().contains(r->0)
            && final(items)@.to_multiset() == old(items)@.to_multiset().remove(r->0)
            && final(items)@.len() == old(items)@.len() - 1 && forall|e: Scored|
            old(items)@.to_multiset().contains(e) ==> r->0.score <= e.score,
{
    proof {
        broadcast use vstd::seq_lib::group_to_multiset_ensures;

    }
    let n = items.len();
    if n == 0 {
        return None;
    }
    let top = items[0];
    let ghost held = items@;
    proof {
        assert(held.to_multiset().contains(top)) by {
            assert(held.contains(top));
        }
        assert forall|e: Scored| held.to_multiset().contains(e) implies top.score <= e.score by {
            assert(held.contains(e));
            let i = choose|i: int| 0 <= i < held.len() && held[i] == e;
            lemma_heap_top(held, i);
        }
    }
    let last = match items.pop() {
        Some(e) => e,
        None => top,
    };
    proof {
        assert(items@ =~= held.remove(n - 1));
        assert(items@.to_multiset() == held.to_multiset().remove(last));
    }
    if n == 1 {
        return Some(top);
    }
    let ghost short = items@;
    items[0] = last;
    proof {
        vstd::seq_lib::to_multiset_update(short, 0, last);
        assert(held.to_multiset().contains(last)) by {
            assert(held.contains(held[n - 1]));
        }
        assert(short.to_multiset().contains(top)) by {
            assert(short[0] == top);
            assert(short.contains(short[0]));
        }
        assert(items@.to_multiset() =~= held.to_multiset().remove(top));
        assert forall|i: int| 0 < i < items@.len() && (i - 1) / 2 != 0 implies items@[(i - 1)
            / 2].score <= (#[trigger] items@[i]).score by {
            assert(held[(i - 1) / 2].score <= held[i].score);
        }
    }
    let len = n - 1;
    let mut k: usize = 0;
    while k < len / 2
        invariant
            len == items@.len(),
            len == held.len() - 1,
            k < len,
            items@.to_multiset() == held.to_multiset().remove(top),
            ordered_below(items@, k as int),
        ensures
            heap_ordered(items@),
            items@.len() == held.len() - 1,
            items@.to_multiset() == held.to_multiset().remove(top),
        decreases len - k,
    {
        let left = 2 * k + 1;
        let mut least = left;
        if left + 1 < len && items[left + 1].score < items[left].score {
            least = left + 1;
        }
        if items[k].score <= items[least].score {
            proof {
                assert forall|i: int| 0 < i < items@.len() implies items@[(i - 1) / 2].score <= (
                #[trigger] items@[i]).score by {
                    if (i - 1) / 2 == k {
                        assert(i == left || i == left + 1);
                    }
                }
            }
            break;
        }
        let ghost before = items@;
        exchange(items, k, least);
        proof {
            assert forall|i: int| 0 < i < items@.len() && (i - 1) / 2 != least implies items@[(i
                - 1) / 2].score <= (#[trigger] items@[i]).score by {
                if (i - 1) / 2 == k {
                    assert(i == left || i == left + 1);
                } else if i == k {
                    assert(before[(k - 1) / 2].score <= before[least as int].score);
                } else {
                    assert(before[(i - 1) / 2].score <= before[i].score);
                }
            }
            assert forall|i: int|
                0 < i < items@.len() && (i - 1) / 2 == least && least > 0 implies items@[(least
                - 1) / 2].score <= (#[trigger] items@[i]).score by {
                assert(before[least as int].score <= before[i].score);
            }
        }
        k = least;
    }
    proof {
        if k >= len / 2 {
            assert forall|i: int| 0 < i < items@.len() implies items@[(i - 1) / 2].score <= (
            #[trigger] items@[i]).score by {
                if (i - 1) / 2 == k {
                    assert(false);
                }
            }
        }
    }
    Some(top)
}

/// A collection of scored positions. An entry may occur more than once.
#[derive(Debug)]
pub struct Frontier {
    items: Vec<Scored>,
}

impl View for Frontier {
    type V = Multiset<Scored>;

    closed spec fn view(&self) -> Multiset<Scored> {
        self.items@.to_multiset()
    }
}

impl Frontier {
    /// The entries are kept as a heap.
    #[verifier::type_invariant]
    spec fn is_heap(self) -> bool {
        heap_ordered(self.items@)
    }

    /// An empty frontier.
    pub fn new() -> (f: Frontier)
        ensures
            f@ == Multiset::<Scored>::empty(),
    {
        let f = Frontier { items: Vec::new() };
        proof {
            broadcast use vstd::seq_lib::group_to_multiset_ensures;

            assert(f@ =~= Multiset::<Scored>::empty());
        }
        f
    }

    /// Whether nothing waits.
    pub fn is_empty(&self) -> (r: bool)
        ensures
            r == (self@.len() == 0),
    {
        proof {
            broadcast use vstd::seq_lib::group_to_multiset_ensures;

        }
        self.items.len() == 0
    }

    /// The number of entries that wait.
    pub fn len(&self) -> (n: usize)
        ensures
            n == self@.len(),
    {
        proof {
            broadcast use vstd::seq_lib::group_to_multiset_ensures;

        }
        self.items.len()
    }

    /// Adds an entry.
    pub fn push(&mut self, entry: Scored)
        ensures
            final(self)@ == old(self)@.insert(entry),
    {
        proof {
            use_type_invariant(&*self);
        }
        let mut items: Vec<Scored> = Vec::new();
        std::mem::swap(&mut self.items, &mut items);
        heap_push(&mut items, entry);
        std::mem::swap(&mut self.items, &mut items);
    }

    /// Takes out an entry of lowest score.
    pub fn pop(&mut self) -> (r: Option<Scored>)
        ensures
            old(self)@.len() == 0 ==> r is None && final(self)@ == old(self)@,
            old(self)@.len() > 0 ==> r is Some && old(self)@.contains(r->0) && final(self)@ == old(
                self,
            )@.remove(r->0) && forall|e: Scored| old(self)@.contains(e) ==> r->0.score <= e.score,
            old(self)@.len() > 0 ==> final(self)@.len() == old(self)@.len() - 1,
    {
        proof {
            use_type_invariant(&*self);
            broadcast use vstd::seq_lib::group_to_multiset_ensures;

        }
        let mut items: Vec<Scored> = Vec::new();
        std::mem::swap(&mut self.items, &mut items);
        let first = heap_pop(&mut items);
        std::mem::swap(&mut self.items, &mut items);
        first
    }
}

} // verus!
