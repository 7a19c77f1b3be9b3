//! Facts about lists that several parts of the library rest on.

use vstd::prelude::*;

verus! {

/// Filtering a list keeps exactly the members that satisfy the predicate, and
/// no member twice that was not twice in the list.
pub proof fn filtered<A>(s: Seq<A>, p: spec_fn(A) -> bool)
    ensures
        s.filter(p).len() <= s.len(),
        forall|i: int| 0 <= i < s.filter(p).len() ==> p(#[trigger] s.filter(p)[i]),
        forall|a: A| #[trigger] s.filter(p).contains(a) <==> s.contains(a) && p(a),
        s.no_duplicates() ==> s.filter(p).no_duplicates(),
    decreases s.len(),
{
    reveal(Seq::filter);
    if s.len() > 0 {
        let front = s.drop_last();
        filtered(front, p);
        let kept = front.filter(p);
        assert(s =~= front.push(s.last()));
        assert forall|a: A| #[trigger] s.filter(p).contains(a) <==> s.contains(a) && p(a) by {
            if s.contains(a) {
                let k = choose|k: int| 0 <= k < s.len() && s[k] == a;
                if k < front.len() {
                    assert(front[k] == a);
                }
            }
            if front.contains(a) {
                let k = choose|k: int| 0 <= k < front.len() && front[k] == a;
                assert(s[k] == a);
            }
            if kept.contains(a) {
                let k = choose|k: int| 0 <= k < kept.len() && kept[k] == a;
                assert(s.filter(p)[k] == a);
            }
            if p(s.last()) && a == s.last() {
                assert(s.filter(p)[kept.len() as int] == a);
            }
            if s.filter(p).contains(a) {
                let k = choose|k: int| 0 <= k < s.filter(p).len() && s.filter(p)[k] == a;
                if k < kept.len() {
                    assert(kept[k] == a);
                }
            }
        }
        if s.no_duplicates() {
            assert(front.no_duplicates());
            if p(s.last()) {
                assert forall|i: int| 0 <= i < kept.len() implies kept[i] != s.last() by {
                    assert(kept.contains(kept[i]));
                    let k = choose|k: int| 0 <= k < front.len() && front[k] == kept[i];
                    assert(s[k] == kept[i]);
                }
            }
        }
    }
}

/// Filtering one more element of a list keeps it or not.
pub proof fn filtered_step<A>(s: Seq<A>, p: spec_fn(A) -> bool, i: int)
    requires
        0 <= i < s.len(),
    ensures
        s.take(i + 1).filter(p) == (if p(s[i]) {
            s.take(i).filter(p).push(s[i])
        } else {
            s.take(i).filter(p)
        }),
{
    reveal(Seq::filter);
    assert(s.take(i + 1).drop_last() =~= s.take(i));
    assert(s.take(i + 1).last() == s[i]);
}

/// A strict total order on the indices of a list.
pub trait Order {
    /// Whether an index is one the order speaks of.
    spec fn covers(&self, a: usize) -> bool;

    /// Whether one index comes before another.
    spec fn precedes(&self, a: usize, b: usize) -> bool;

    /// Two indices that differ are ordered.
    proof fn total(&self, a: usize, b: usize)
        requires
            self.covers(a),
            self.covers(b),
            a != b,
        ensures
            self.precedes(a, b) || self.precedes(b, a),
    ;

    /// What comes before a predecessor comes before.
    proof fn transitive(&self, a: usize, b: usize, c: usize)
        requires
            self.covers(a),
            self.covers(b),
            self.covers(c),
            self.precedes(a, b),
            self.precedes(b, c),
        ensures
            self.precedes(a, c),
    ;

    /// Whether one index comes before another.
    fn less(&self, a: usize, b: usize) -> (r: bool)
        requires
            self.covers(a),
            self.covers(b),
        ensures
            r == self.precedes(a, b),
    ;
}

/// Whether a list of indices stands in order.
pub open spec fn in_order<O: Order>(order: &O, ids: Seq<usize>) -> bool {
    forall|i: int, j: int| 0 <= i < j < ids.len() ==> order.precedes(#[trigger] ids[i], #[trigger] ids[j])
}

/// Inserting one index keeps every other, and adds it.
proof fn inserted(ids: Seq<usize>, at: int, id: usize)
    requires
        0 <= at <= ids.len(),
    ensures
        forall|x: usize| #[trigger] ids.insert(at, id).contains(x) <==> ids.contains(x) || x == id,
{
    let longer = ids.insert(at, id);
    assert forall|x: usize| #[trigger] longer.contains(x) <==> ids.contains(x) || x == id by {
        if longer.contains(x) {
            let k = choose|k: int| 0 <= k < longer.len() && longer[k] == x;
            if k < at {
                assert(ids[k] == x);
            } else if k > at {
                assert(ids[k - 1] == x);
            }
        }
        if ids.contains(x) {
            let k = choose|k: int| 0 <= k < ids.len() && ids[k] == x;
            if k < at {
                assert(longer[k] == x);
            } else {
                assert(longer[k + 1] == x);
            }
        }
        if x == id {
            assert(longer[at] == x);
        }
    }
}

/// Sorts distinct indices.
pub fn sort<O: Order>(order: &O, ids: &Vec<usize>) -> (r: Vec<usize>)
    requires
        ids@.no_duplicates(),
        forall|i: int| 0 <= i < ids@.len() ==> order.covers(#[trigger] ids@[i]),
    ensures
        in_order(order, r@),
        r@.len() == ids@.len(),
        forall|x: usize| #[trigger] r@.contains(x) <==> ids@.contains(x),
{
    let mut out: Vec<usize> = Vec::new();
    let mut n: usize = 0;
    while n < ids.len()
        invariant
            n <= ids@.len(),
            ids@.no_duplicates(),
            forall|i: int| 0 <= i < ids@.len() ==> order.covers(#[trigger] ids@[i]),
            out@.len() == n,
            in_order(order, out@),
            forall|x: usize| #[trigger] out@.contains(x) <==> ids@.take(n as int).contains(x),
        decreases ids.len() - n,
    {
        let id = ids[n];
        let ghost front = ids@.take(n as int);
        assert forall|i: int| 0 <= i < out@.len() implies order.covers(#[trigger] out@[i]) && out@[i]
            != id by {
            assert(out@.contains(out@[i]));
            let k = choose|k: int| 0 <= k < front.len() && front[k] == out@[i];
            assert(ids@[k] == out@[i]);
        }
        let mut at: usize = out.len();
        while at > 0 && order.less(id, out[at - 1])
            invariant
                at <= out@.len(),
                order.covers(id),
                in_order(order, out@),
                forall|i: int| 0 <= i < out@.len() ==> order.covers(#[trigger] out@[i]),
                forall|i: int| at <= i < out@.len() ==> order.precedes(id, #[trigger] out@[i]),
            decreases at,
        {
            at -= 1;
        }
        proof {
            assert forall|i: int| 0 <= i < at implies order.precedes(#[trigger] out@[i], id) by {
                order.total(out@[at - 1], id);
                if i < at - 1 {
                    order.transitive(out@[i], out@[at - 1], id);
                }
            }
            inserted(out@, at as int, id);
            inserted(front, front.len() as int, id);
            assert(ids@.take(n + 1) =~= front.insert(front.len() as int, id));
        }
        let ghost was = out@;
        out.insert(at, id);
        proof {
            assert forall|i: int, j: int| 0 <= i < j < out@.len() implies order.precedes(
                #[trigger] out@[i],
                #[trigger] out@[j],
            ) by {
                let a = if i < at { i } else { i - 1 };
                let b = if j < at { j } else { j - 1 };
                if i != at && j != at {
                    assert(order.precedes(was[a], was[b]));
                } else if i == at {
                    assert(order.precedes(id, was[b]));
                } else {
                    assert(order.precedes(was[a], id));
                }
            }
        }
        n += 1;
    }
    assert(ids@.take(n as int) =~= ids@);
    out
}

/// How many flags of a list are not set.
pub open spec fn unset(flags: Seq<bool>) -> nat
    decreases flags.len(),
{
    if flags.len() == 0 {
        0
    } else {
        unset(flags.drop_last()) + (if flags.last() {
            0nat
        } else {
            1
        })
    }
}

pub proof fn setting_one(flags: Seq<bool>, i: int)
    requires
        0 <= i < flags.len(),
        !flags[i],
    ensures
        unset(flags.update(i, true)) + 1 == unset(flags),
    decreases flags.len(),
{
    let now = flags.update(i, true);
    if i < flags.len() - 1 {
        assert(now.drop_last() =~= flags.drop_last().update(i, true));
        setting_one(flags.drop_last(), i);
    } else {
        assert(now.drop_last() =~= flags.drop_last());
    }
}

/// A list of flags that are not set.
pub fn unset_flags(n: usize) -> (r: Vec<bool>)
    ensures
        r@.len() == n,
        forall|i: int| 0 <= i < n ==> !#[trigger] r@[i],
{
    let mut flags: Vec<bool> = Vec::new();
    let mut i: usize = 0;
    while i < n
        invariant
            i <= n,
            flags@.len() == i,
            forall|k: int| 0 <= k < i ==> !#[trigger] flags@[k],
        decreases n - i,
    {
        flags.push(false);
        i += 1;
    }
    flags
}

} // verus!
