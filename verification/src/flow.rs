//! What a body's control flow says about the panics it raises.

use vstd::prelude::*;

use crate::fold;
use crate::fold::{Reach, Reached};
use crate::lists;
use crate::mir::{Function, Terminator};

verus! {

/// The blocks that can follow one.
pub open spec fn successors(function: Function, b: int) -> Seq<usize> {
    match function.blocks@[b].terminator {
        Some(term) => term.spec_successors(),
        None => Seq::empty(),
    }
}

/// Whether one block of a body can follow another.
pub open spec fn goes(function: Function, a: int, b: int) -> bool {
    &&& 0 <= a < function.blocks@.len()
    &&& 0 <= b < function.blocks@.len()
    &&& successors(function, a).contains(b as usize)
}

/// Whether some blocks, one after another, are a way through a body.
pub open spec fn is_path(function: Function, path: Seq<int>) -> bool {
    &&& path.len() > 0
    &&& forall|i: int| 0 <= i < path.len() ==> 0 <= #[trigger] path[i] < function.blocks@.len()
    &&& forall|i: int|
        0 <= i < path.len() - 1 ==> goes(function, #[trigger] path[i], path[i + 1])
}

/// Whether a way leads from one block to another.
pub open spec fn leads(function: Function, path: Seq<int>, from: int, to: int) -> bool {
    is_path(function, path) && path[0] == from && path.last() == to
}

/// Whether one block can reach another.
pub open spec fn reaches(function: Function, from: int, to: int) -> bool {
    exists|path: Seq<int>| #[trigger] leads(function, path, from, to)
}

/// Whether a block resumes unwinding out of the function.
pub open spec fn resumes(function: Function, b: int) -> bool {
    match function.blocks@[b].terminator {
        Some(term) => term is Resume,
        None => false,
    }
}

/// Whether unwinding can leave the function from a block.
pub open spec fn can_resume(function: Function, b: int) -> bool {
    exists|to: int|
        0 <= to < function.blocks@.len() && #[trigger] resumes(function, to) && reaches(
            function,
            b,
            to,
        )
}

proof fn staying_reaches(function: Function, b: int)
    requires
        0 <= b < function.blocks@.len(),
    ensures
        reaches(function, b, b),
{
    assert(leads(function, seq![b], b, b));
}

proof fn stepping_reaches(function: Function, a: int, b: int, c: int)
    requires
        goes(function, a, b),
        reaches(function, b, c),
    ensures
        reaches(function, a, c),
{
    let path = choose|path: Seq<int>| #[trigger] leads(function, path, b, c);
    let longer = seq![a] + path;
    assert forall|i: int| 0 <= i < longer.len() implies 0 <= #[trigger] longer[i]
        < function.blocks@.len() by {
        if i > 0 {
            assert(longer[i] == path[i - 1]);
        }
    }
    assert forall|i: int| 0 <= i < longer.len() - 1 implies goes(
        function,
        #[trigger] longer[i],
        longer[i + 1],
    ) by {
        if i > 0 {
            assert(longer[i] == path[i - 1] && longer[i + 1] == path[i]);
        }
    }
    assert(longer.last() == path.last());
    assert(leads(function, longer, a, c));
}

proof fn reaching_steps(function: Function, a: int, b: int, c: int)
    requires
        reaches(function, a, b),
        goes(function, b, c),
    ensures
        reaches(function, a, c),
{
    let path = choose|path: Seq<int>| #[trigger] leads(function, path, a, b);
    let longer = path.push(c);
    assert forall|i: int| 0 <= i < longer.len() - 1 implies goes(
        function,
        #[trigger] longer[i],
        longer[i + 1],
    ) by {
        if i < path.len() - 1 {
            assert(longer[i] == path[i] && longer[i + 1] == path[i + 1]);
        }
    }
    assert(leads(function, longer, a, c));
}

fn following(function: &Function, b: usize) -> (r: Vec<usize>)
    requires
        b < function.blocks@.len(),
    ensures
        r@ == successors(*function, b as int),
{
    match &function.blocks[b].terminator {
        Some(term) => term.successors(),
        None => Vec::new(),
    }
}

/// Whether one of the blocks that can follow another is marked.
pub open spec fn leads_to_marked(function: Function, marked: Seq<bool>, b: int) -> bool {
    exists|c: int| #[trigger] goes(function, b, c) && marked[c]
}

fn follows_marked(function: &Function, marked: &Vec<bool>, b: usize) -> (r: bool)
    requires
        b < function.blocks@.len(),
        marked@.len() == function.blocks@.len(),
    ensures
        r == leads_to_marked(*function, marked@, b as int),
{
    let next = following(function, b);
    let mut i: usize = 0;
    while i < next.len()
        invariant
            b < function.blocks@.len(),
            marked@.len() == function.blocks@.len(),
            next@ == successors(*function, b as int),
            i <= next@.len(),
            forall|k: int|
                0 <= k < i && (#[trigger] next@[k]) < marked@.len() ==> !marked@[next@[k] as int],
        decreases next@.len() - i,
    {
        if next[i] < marked.len() && marked[next[i]] {
            assert(next@.contains(next@[i as int]));
            assert(goes(*function, b as int, next@[i as int] as int));
            return true;
        }
        i += 1;
    }
    let n: usize = marked.len();
    assert forall|c: int| #[trigger] goes(*function, b as int, c) implies !marked@[c] by {
        assert(0 <= c < n);
        let k = choose|k: int| 0 <= k < next@.len() && next@[k] == c as usize;
        assert(next@[k] < marked@.len());
    }
    false
}

/// Marks every block from which a marked one can be reached, one pass at a
/// time, until a pass marks nothing.
fn mark_backwards(function: &Function, marked: Vec<bool>) -> (r: Vec<bool>)
    requires
        marked@.len() == function.blocks@.len(),
    ensures
        r@.len() == marked@.len(),
        forall|b: int|
            0 <= b < r@.len() ==> #[trigger] r@[b] == backs(*function, marked@, b),
{
    let ghost first = marked@;
    let n = marked.len();
    let mut marked = marked;
    let mut changed = true;
    proof {
        assert forall|b: int| 0 <= b < n && #[trigger] marked@[b] implies backs(
            *function,
            first,
            b,
        ) by {
            staying_reaches(*function, b);
        }
    }
    while changed
        invariant
            n == function.blocks@.len(),
            first.len() == n,
            marked@.len() == n,
            forall|b: int| 0 <= b < n && first[b] ==> #[trigger] marked@[b],
            forall|b: int| 0 <= b < n && #[trigger] marked@[b] ==> backs(*function, first, b),
            !changed ==> forall|b: int|
                0 <= b < n && #[trigger] leads_to_marked(*function, marked@, b) ==> marked@[b],
        decreases lists::unset(marked@), changed as nat,
    {
        changed = false;
        let ghost start = marked@;
        let mut b: usize = n;
        while b > 0
            invariant
                n == function.blocks@.len(),
                first.len() == n,
                b <= n,
                start.len() == n,
                marked@.len() == n,
                forall|k: int| 0 <= k < n && first[k] ==> #[trigger] marked@[k],
                forall|k: int| 0 <= k < n && #[trigger] marked@[k] ==> backs(*function, first, k),
                changed ==> lists::unset(marked@) < lists::unset(start),
                !changed ==> marked@ == start,
                !changed ==> forall|k: int|
                    b <= k < n && #[trigger] leads_to_marked(*function, marked@, k) ==> marked@[k],
            decreases b,
        {
            b -= 1;
            if !marked[b] && follows_marked(function, &marked, b) {
                proof {
                    lists::setting_one(marked@, b as int);
                    let c = choose|c: int|
                        #[trigger] goes(*function, b as int, c) && marked@[c];
                    assert(backs(*function, first, c));
                    let to = choose|to: int|
                        0 <= to < first.len() && #[trigger] first[to] && reaches(*function, c, to);
                    stepping_reaches(*function, b as int, c, to);
                    assert(first[to] && reaches(*function, b as int, to));
                }
                marked.set(b, true);
                changed = true;
            }
        }
    }
    assert forall|b: int| 0 <= b < n implies #[trigger] marked@[b] == backs(*function, first, b) by {
        if backs(*function, first, b) {
            let to = choose|to: int|
                0 <= to < first.len() && #[trigger] first[to] && reaches(*function, b, to);
            let path = choose|path: Seq<int>| #[trigger] leads(*function, path, b, to);
            marked_along(*function, marked@, path, 0);
        }
    }
    marked
}

/// Whether a marked block can be reached from one.
pub open spec fn backs(function: Function, marked: Seq<bool>, b: int) -> bool {
    exists|to: int| 0 <= to < marked.len() && #[trigger] marked[to] && reaches(function, b, to)
}

proof fn marked_along(function: Function, marked: Seq<bool>, path: Seq<int>, i: int)
    requires
        is_path(function, path),
        0 <= i < path.len(),
        marked.len() == function.blocks@.len(),
        marked[path.last()],
        forall|b: int|
            0 <= b < marked.len() && #[trigger] leads_to_marked(function, marked, b) ==> marked[b],
    ensures
        marked[path[i]],
    decreases path.len() - i,
{
    if i < path.len() - 1 {
        marked_along(function, marked, path, i + 1);
        assert(goes(function, path[i], path[i + 1]));
        assert(leads_to_marked(function, marked, path[i]));
    }
}

/// Which blocks of a body can reach an `UnwindResume`, by block index.
///
/// A cleanup path that aborts instead keeps the panic in the function. The
/// walk runs backwards from each resumption.
pub fn resuming(function: &Function) -> (r: Vec<bool>)
    ensures
        r@.len() == function.blocks@.len(),
        forall|b: int| 0 <= b < r@.len() ==> #[trigger] r@[b] == can_resume(*function, b),
{
    let n = function.blocks.len();
    let mut out: Vec<bool> = Vec::new();
    let mut b: usize = 0;
    while b < n
        invariant
            n == function.blocks@.len(),
            b <= n,
            out@.len() == b,
            forall|k: int| 0 <= k < b ==> #[trigger] out@[k] == resumes(*function, k),
        decreases n - b,
    {
        let held = match &function.blocks[b].terminator {
            Some(Terminator::Resume) => true,
            _ => false,
        };
        out.push(held);
        b += 1;
    }
    let ghost first = out@;
    let r = mark_backwards(function, out);
    proof {
        assert forall|b: int| 0 <= b < r@.len() implies #[trigger] r@[b] == can_resume(
            *function,
            b,
        ) by {
            if backs(*function, first, b) {
                let to = choose|to: int|
                    0 <= to < first.len() && #[trigger] first[to] && reaches(*function, b, to);
                assert(resumes(*function, to));
            }
            if can_resume(*function, b) {
                let to = choose|to: int|
                    0 <= to < function.blocks@.len() && #[trigger] resumes(*function, to)
                        && reaches(*function, b, to);
                assert(first[to]);
            }
        }
    }
    r
}

/// Which blocks of a body can be reached from one, by block index.
pub fn reached_from(function: &Function, start: usize) -> (r: Vec<bool>)
    ensures
        r@.len() == function.blocks@.len(),
        forall|b: int|
            0 <= b < r@.len() ==> #[trigger] r@[b] == (start < r@.len() && reaches(
                *function,
                start as int,
                b,
            )),
{
    let n = function.blocks.len();
    let mut marked = lists::unset_flags(n);
    if start >= n {
        return marked;
    }
    marked.set(start, true);
    let mut stack: Vec<usize> = Vec::new();
    stack.push(start);
    proof {
        staying_reaches(*function, start as int);
        assert(stack@[0] == start);
    }
    while stack.len() > 0
        invariant
            n == function.blocks@.len(),
            start < n,
            marked@.len() == n,
            marked@[start as int],
            forall|b: int|
                0 <= b < n && #[trigger] marked@[b] ==> reaches(*function, start as int, b),
            forall|k: int|
                0 <= k < stack@.len() ==> (#[trigger] stack@[k]) < n && marked@[stack@[k] as int],
            forall|a: int|
                0 <= a < n && #[trigger] marked@[a] && !stack@.contains(a as usize)
                    ==> spreads(*function, marked@, a),
        decreases lists::unset(marked@), stack@.len(),
    {
        let ghost had = stack@;
        let ghost was = marked@;
        let b = match stack.pop() {
            Some(b) => b,
            None => 0,
        };
        assert(had.last() == b);
        assert forall|a: usize| had.contains(a) && a != b implies stack@.contains(a) by {
            let k = choose|k: int| 0 <= k < had.len() && had[k] == a;
            assert(stack@[k] == a);
        }
        let next = following(function, b);
        let mut i: usize = 0;
        while i < next.len()
            invariant
                n == function.blocks@.len(),
                start < n,
                b < n,
                next@ == successors(*function, b as int),
                i <= next@.len(),
                marked@.len() == n,
                was.len() == n,
                marked@[start as int],
                marked@[b as int],
                forall|a: int| 0 <= a < n && was[a] ==> #[trigger] marked@[a],
                forall|a: int|
                    0 <= a < n && #[trigger] marked@[a] ==> reaches(*function, start as int, a),
                forall|k: int|
                    0 <= k < stack@.len() ==> (#[trigger] stack@[k]) < n
                        && marked@[stack@[k] as int],
                forall|a: int|
                    0 <= a < n && #[trigger] marked@[a] && !stack@.contains(a as usize) && a != b
                        ==> spreads(*function, was, a),
                forall|k: int|
                    0 <= k < i && (#[trigger] next@[k]) < n ==> marked@[next@[k] as int],
                lists::unset(marked@) < lists::unset(was) || (marked@ == was && stack@.len()
                    < had.len()),
            decreases next@.len() - i,
        {
            let c = next[i];
            let ghost before = stack@;
            if c < n && !marked[c] {
                proof {
                    assert(next@.contains(c));
                    assert(goes(*function, b as int, c as int));
                    reaching_steps(*function, start as int, b as int, c as int);
                    lists::setting_one(marked@, c as int);
                }
                marked.set(c, true);
                stack.push(c);
                assert forall|a: int|
                    0 <= a < n && #[trigger] marked@[a] && !stack@.contains(a as usize) && a
                        != b implies spreads(*function, was, a) by {
                    assert(stack@[stack@.len() - 1] == c);
                    if before.contains(a as usize) {
                        let k = choose|k: int| 0 <= k < before.len() && before[k] == a as usize;
                        assert(stack@[k] == a as usize);
                    }
                }
            }
            i += 1;
        }
        assert forall|a: int|
            0 <= a < n && #[trigger] marked@[a] && !stack@.contains(a as usize) implies spreads(
            *function,
            marked@,
            a,
        ) by {
            assert forall|c: int| #[trigger] goes(*function, a, c) implies marked@[c] by {
                if a == b {
                    let k = choose|k: int| 0 <= k < next@.len() && next@[k] == c as usize;
                    assert(next@[k] < n);
                } else {
                    assert(spreads(*function, was, a));
                    assert(was[c]);
                }
            }
        }
    }
    assert forall|b: int| 0 <= b < n implies #[trigger] marked@[b] == reaches(
        *function,
        start as int,
        b,
    ) by {
        if reaches(*function, start as int, b) {
            let path = choose|path: Seq<int>| #[trigger] leads(*function, path, start as int, b);
            spread_along(*function, marked@, path, path.len() - 1);
        }
    }
    marked
}

/// Whether every block that can follow one is marked.
pub open spec fn spreads(function: Function, marked: Seq<bool>, a: int) -> bool {
    forall|c: int| #[trigger] goes(function, a, c) ==> marked[c]
}

proof fn spread_along(function: Function, marked: Seq<bool>, path: Seq<int>, i: int)
    requires
        is_path(function, path),
        0 <= i < path.len(),
        marked.len() == function.blocks@.len(),
        marked[path[0]],
        forall|a: int| 0 <= a < marked.len() && #[trigger] marked[a] ==> spreads(function, marked, a),
    ensures
        marked[path[i]],
    decreases i,
{
    if i > 0 {
        spread_along(function, marked, path, i - 1);
        assert(spreads(function, marked, path[i - 1]));
        assert(goes(function, path[i - 1], path[i - 1 + 1]));
    }
}

/// Whether a block leaves the body without a panic.
pub open spec fn way_out(function: Function, b: int) -> bool {
    match function.blocks@[b].terminator {
        Some(term) => term is Return || term is TailCall || term is Yield,
        None => false,
    }
}

/// Whether control can go from one block to another through live blocks while
/// it avoids a third.
pub open spec fn gets_round(function: Function, reached: Reached, avoid: usize, a: int, b: int) -> bool {
    goes(function, a, b) && b != avoid && fold::flag(reached.live, b as usize, true)
}

/// Whether every way on from a block that avoids another comes to an end
/// within some steps, without leaving the body.
pub open spec fn ends_within(
    function: Function,
    reached: Reached,
    avoid: usize,
    b: int,
    n: nat,
) -> bool
    decreases n,
{
    &&& n > 0
    &&& !way_out(function, b)
    &&& forall|c: int|
        #[trigger] gets_round(function, reached, avoid, b, c) ==> ends_within(
            function,
            reached,
            avoid,
            c,
            (n - 1) as nat,
        )
}

/// Whether every execution of a body that gets past its entry runs one block:
/// no way on from the entry that avoids it leaves the body, and none goes on
/// for ever.
pub open spec fn spec_unavoidable(function: Function, reached: Reached, avoid: usize) -> bool {
    exists|n: nat| #[trigger] ends_within(function, reached, avoid, 0, n)
}

proof fn more_steps(
    function: Function,
    reached: Reached,
    avoid: usize,
    b: int,
    n: nat,
    m: nat,
)
    requires
        n <= m,
        ends_within(function, reached, avoid, b, n),
    ensures
        ends_within(function, reached, avoid, b, m),
    decreases n,
{
    assert forall|c: int| #[trigger] gets_round(function, reached, avoid, b, c) implies ends_within(
        function,
        reached,
        avoid,
        c,
        (m - 1) as nat,
    ) by {
        more_steps(function, reached, avoid, c, (n - 1) as nat, (m - 1) as nat);
    }
}

/// Whether a block is known to come to an end.
pub open spec fn comes_to_an_end(function: Function, reached: Reached, avoid: usize, b: int) -> bool {
    exists|n: nat| #[trigger] ends_within(function, reached, avoid, b, n)
}

/// Whether all that can follow a block while avoiding another is marked.
pub open spec fn ends_next(
    function: Function,
    reached: Reached,
    avoid: usize,
    marked: Seq<bool>,
    b: int,
) -> bool {
    !way_out(function, b) && forall|c: int|
        #[trigger] gets_round(function, reached, avoid, b, c) ==> marked[c]
}

fn all_end(function: &Function, reach: &Reach, avoid: usize, marked: &Vec<bool>, b: usize) -> (r:
    bool)
    requires
        b < function.blocks@.len(),
        marked@.len() == function.blocks@.len(),
    ensures
        r == ends_next(*function, reach@, avoid, marked@, b as int),
{
    let out = match &function.blocks[b].terminator {
        Some(term) => match term {
            Terminator::Return => true,
            Terminator::TailCall(_) => true,
            Terminator::Yield(_) => true,
            _ => false,
        },
        None => false,
    };
    if out {
        return false;
    }
    let next = following(function, b);
    let mut i: usize = 0;
    while i < next.len()
        invariant
            b < function.blocks@.len(),
            marked@.len() == function.blocks@.len(),
            next@ == successors(*function, b as int),
            i <= next@.len(),
            forall|k: int|
                0 <= k < i && gets_round(
                    *function,
                    reach@,
                    avoid,
                    b as int,
                    (#[trigger] next@[k]) as int,
                ) ==> marked@[next@[k] as int],
        decreases next@.len() - i,
    {
        let c = next[i];
        if c < marked.len() && c != avoid && reach.is_live(c) && !marked[c] {
            assert(next@.contains(next@[i as int]));
            assert(gets_round(*function, reach@, avoid, b as int, c as int));
            return false;
        }
        i += 1;
    }
    let n: usize = marked.len();
    assert forall|c: int| #[trigger] gets_round(*function, reach@, avoid, b as int, c) implies marked@[c] by {
        assert(0 <= c < n);
        let k = choose|k: int| 0 <= k < next@.len() && next@[k] == c as usize;
        assert(next@[k] as int == c);
    }
    true
}

/// A block all of whose ways on come to an end comes to an end itself.
proof fn ends_together(
    function: Function,
    reached: Reached,
    avoid: usize,
    marked: Seq<bool>,
    b: int,
)
    requires
        marked.len() == function.blocks@.len(),
        ends_next(function, reached, avoid, marked, b),
        forall|c: int|
            0 <= c < marked.len() && #[trigger] marked[c] ==> comes_to_an_end(
                function,
                reached,
                avoid,
                c,
            ),
    ensures
        comes_to_an_end(function, reached, avoid, b),
{
    let n = steps_enough(function, reached, avoid, marked, marked.len());
    assert forall|c: int| #[trigger] gets_round(function, reached, avoid, b, c) implies ends_within(
        function,
        reached,
        avoid,
        c,
        n,
    ) by {
        assert(marked[c]);
    }
    assert(ends_within(function, reached, avoid, b, n + 1));
}

/// Steps enough for the first `m` of the marked blocks to come to an end.
proof fn steps_enough(
    function: Function,
    reached: Reached,
    avoid: usize,
    marked: Seq<bool>,
    m: nat,
) -> (n: nat)
    requires
        m <= marked.len(),
        forall|c: int|
            0 <= c < marked.len() && #[trigger] marked[c] ==> comes_to_an_end(
                function,
                reached,
                avoid,
                c,
            ),
    ensures
        forall|c: int|
            0 <= c < m && #[trigger] marked[c] ==> ends_within(function, reached, avoid, c, n),
    decreases m,
{
    if m == 0 {
        0
    } else {
        let before = steps_enough(function, reached, avoid, marked, (m - 1) as nat);
        if marked[m - 1] {
            let last = choose|n: nat| #[trigger] ends_within(function, reached, avoid, m - 1, n);
            let n = before + last;
            assert forall|c: int| 0 <= c < m && #[trigger] marked[c] implies ends_within(
                function,
                reached,
                avoid,
                c,
                n,
            ) by {
                if c < m - 1 {
                    more_steps(function, reached, avoid, c, before, n);
                } else {
                    more_steps(function, reached, avoid, c, last, n);
                }
            }
            n
        } else {
            before
        }
    }
}

proof fn ending_is_marked(
    function: Function,
    reached: Reached,
    avoid: usize,
    marked: Seq<bool>,
    b: int,
    n: nat,
)
    requires
        marked.len() == function.blocks@.len(),
        0 <= b < marked.len(),
        forall|c: int|
            0 <= c < marked.len() && #[trigger] ends_next(function, reached, avoid, marked, c)
                ==> marked[c],
        ends_within(function, reached, avoid, b, n),
    ensures
        marked[b],
    decreases n,
{
    assert forall|c: int| #[trigger] gets_round(function, reached, avoid, b, c) implies marked[c] by {
        ending_is_marked(function, reached, avoid, marked, c, (n - 1) as nat);
    }
    assert(ends_next(function, reached, avoid, marked, b));
}

/// Whether every execution of a body that gets past its entry runs one
/// block.
///
/// Every path from the entry through live blocks is followed while it
/// avoids the block. Reaching a way out of the body shows the block can
/// be got round, and so does closing a loop, since a loop the walk cannot
/// prove finite might spin instead.
pub fn unavoidable(function: &Function, reach: &Reach, avoid: usize) -> (r: bool)
    requires
        function.blocks@.len() > 0,
    ensures
        r == spec_unavoidable(*function, reach@, avoid),
{
    let n = function.blocks.len();
    let mut marked = lists::unset_flags(n);
    let mut changed = true;
    while changed
        invariant
            n == function.blocks@.len(),
            marked@.len() == n,
            forall|b: int|
                0 <= b < n && #[trigger] marked@[b] ==> comes_to_an_end(
                    *function,
                    reach@,
                    avoid,
                    b,
                ),
            !changed ==> forall|b: int|
                0 <= b < n && #[trigger] ends_next(*function, reach@, avoid, marked@, b)
                    ==> marked@[b],
        decreases lists::unset(marked@), changed as nat,
    {
        changed = false;
        let ghost start = marked@;
        let mut b: usize = n;
        while b > 0
            invariant
                n == function.blocks@.len(),
                b <= n,
                start.len() == n,
                marked@.len() == n,
                forall|k: int|
                    0 <= k < n && #[trigger] marked@[k] ==> comes_to_an_end(
                        *function,
                        reach@,
                        avoid,
                        k,
                    ),
                changed ==> lists::unset(marked@) < lists::unset(start),
                !changed ==> marked@ == start,
                !changed ==> forall|k: int|
                    b <= k < n && #[trigger] ends_next(*function, reach@, avoid, marked@, k)
                        ==> marked@[k],
            decreases b,
        {
            b -= 1;
            if !marked[b] && all_end(function, reach, avoid, &marked, b) {
                proof {
                    lists::setting_one(marked@, b as int);
                    ends_together(*function, reach@, avoid, marked@, b as int);
                }
                marked.set(b, true);
                changed = true;
            }
        }
    }
    proof {
        if spec_unavoidable(*function, reach@, avoid) {
            let steps = choose|n: nat| #[trigger] ends_within(*function, reach@, avoid, 0, n);
            ending_is_marked(*function, reach@, avoid, marked@, 0, steps);
        } else if marked@[0] {
            assert(comes_to_an_end(*function, reach@, avoid, 0));
        }
    }
    marked[0]
}

proof fn no_way_round(
    function: Function,
    reached: Reached,
    avoid: usize,
    path: Seq<int>,
    i: int,
    n: nat,
)
    requires
        is_path(function, path),
        0 <= i < path.len(),
        ends_within(function, reached, avoid, path[i], n),
        forall|j: int|
            i < j < path.len() ==> #[trigger] path[j] != avoid && fold::flag(
                reached.live,
                path[j] as usize,
                true,
            ),
    ensures
        path.len() - i <= n,
        forall|j: int| i <= j < path.len() ==> !way_out(function, #[trigger] path[j]),
    decreases path.len() - i,
{
    if i + 1 < path.len() {
        assert(goes(function, path[i], path[i + 1]));
        assert(path[i + 1] != avoid);
        assert(gets_round(function, reached, avoid, path[i], path[i + 1]));
        no_way_round(function, reached, avoid, path, i + 1, (n - 1) as nat);
    }
}

/// A block that cannot be avoided is on every way out: a way from the entry
/// through blocks that run comes to it before it comes to a return, a call
/// that takes the body's place or a yield.
pub proof fn what_is_unavoidable_is_on_every_way_out(
    function: Function,
    reached: Reached,
    avoid: usize,
    path: Seq<int>,
)
    requires
        spec_unavoidable(function, reached, avoid),
        is_path(function, path),
        path[0] == 0,
        forall|j: int|
            0 < j < path.len() ==> fold::flag(reached.live, #[trigger] path[j] as usize, true),
        match function.blocks@[path.last()].terminator {
            Some(term) => term is Return || term is TailCall || term is Yield,
            None => false,
        },
    ensures
        exists|j: int| 0 < j < path.len() && #[trigger] path[j] == avoid,
{
    if forall|j: int| 0 < j < path.len() ==> #[trigger] path[j] != avoid {
        let n = choose|n: nat| #[trigger] ends_within(function, reached, avoid, 0, n);
        no_way_round(function, reached, avoid, path, 0, n);
        assert(!way_out(function, path[path.len() - 1]));
    }
}

} // verus!
