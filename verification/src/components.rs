//! Connected components of a mask over a pixel grid, and their bounding boxes.
use vstd::prelude::*;

use crate::geometry::Rect;

verus! {

/// Cells `i` and `j` of a grid `w` wide, stored row by row, share an edge.
pub open spec fn adjacent(w: int, i: int, j: int) -> bool {
    ||| j == i + 1 && j % w != 0
    ||| i == j + 1 && i % w != 0
    ||| j == i + w
    ||| i == j + w
}

/// `i` and `j` are neighbouring cells that both belong to the mask.
pub open spec fn linked(mask: Seq<bool>, w: int, i: int, j: int) -> bool {
    &&& 0 <= i < mask.len()
    &&& 0 <= j < mask.len()
    &&& mask[i]
    &&& mask[j]
    &&& adjacent(w, i, j)
}

/// A path of `n` steps through the mask leads from `i` to `j`.
pub open spec fn reach(mask: Seq<bool>, w: int, i: int, j: int, n: nat) -> bool
    decreases n,
{
    if n == 0 {
        i == j && 0 <= i < mask.len() && mask[i]
    } else {
        exists|k: int| 
            reach(mask, w, i, k, (n - 1) as nat) && #[trigger] linked(mask, w, k, j)
    }
}

/// `i` and `j` belong to one component of the mask.
pub open spec fn connected(mask: Seq<bool>, w: int, i: int, j: int) -> bool {
    exists|n: nat| #[trigger] reach(mask, w, i, j, n)
}

/// `i` is the first cell, in storage order, of its component.
pub open spec fn is_seed(mask: Seq<bool>, w: int, i: int) -> bool {
    &&& 0 <= i < mask.len()
    &&& mask[i]
    &&& forall|j: int| 0 <= j < i ==> !#[trigger] connected(mask, w, j, i)
}

/// The first cells of all components that begin before `n`, in storage order.
pub open spec fn seeds(mask: Seq<bool>, w: int, n: int) -> Seq<int>
    decreases n,
{
    if n <= 0 {
        Seq::empty()
    } else if is_seed(mask, w, n - 1) {
        seeds(mask, w, n - 1).push(n - 1)
    } else {
        seeds(mask, w, n - 1)
    }
}

/// The rectangle holds the cell.
pub open spec fn encloses(r: Rect, w: int, q: int) -> bool {
    &&& r.x <= q % w < r.x + r.w
    &&& r.y <= q / w < r.y + r.h
}

/// `r` is the least rectangle around the component of cell `i`: it holds all of the
/// component, and a cell of the component lies on each of its four sides.
pub open spec fn is_box_of(r: Rect, mask: Seq<bool>, w: int, i: int) -> bool {
    &&& forall|q: int| #[trigger] connected(mask, w, i, q) ==> encloses(r, w, q)
    &&& exists|q: int| #[trigger] connected(mask, w, i, q) && q % w == r.x
    &&& exists|q: int| #[trigger] connected(mask, w, i, q) && q % w == r.x + r.w - 1
    &&& exists|q: int| #[trigger] connected(mask, w, i, q) && q / w == r.y
    &&& exists|q: int| #[trigger] connected(mask, w, i, q) && q / w == r.y + r.h - 1
}

/// The bounding box of the component of cell `i`.
pub open spec fn bounding_box(mask: Seq<bool>, w: int, i: int) -> Rect {
    choose|r: Rect| is_box_of(r, mask, w, i)
}

/// The bounding boxes of all components, ordered by each component's first cell.
pub open spec fn boxes_of(mask: Seq<bool>, w: int) -> Seq<Rect> {
    seeds(mask, w, mask.len() as int).map_values(|i: int| bounding_box(mask, w, i))
}

pub proof fn lemma_box_is_unique(r: Rect, s: Rect, mask: Seq<bool>, w: int, i: int)
    requires
        is_box_of(r, mask, w, i),
        is_box_of(s, mask, w, i),
    ensures
        r == s,
{
    let a = choose|q: int| #[trigger] connected(mask, w, i, q) && q % w == r.x;
    let b = choose|q: int| #[trigger] connected(mask, w, i, q) && q % w == r.x + r.w - 1;
    let c = choose|q: int| #[trigger] connected(mask, w, i, q) && q / w == r.y;
    let d = choose|q: int| #[trigger] connected(mask, w, i, q) && q / w == r.y + r.h - 1;
    assert(encloses(s, w, a) && encloses(s, w, b) && encloses(s, w, c) && encloses(s, w, d));
    let a2 = choose|q: int| #[trigger] connected(mask, w, i, q) && q % w == s.x;
    let b2 = choose|q: int| #[trigger] connected(mask, w, i, q) && q % w == s.x + s.w - 1;
    let c2 = choose|q: int| #[trigger] connected(mask, w, i, q) && q / w == s.y;
    let d2 = choose|q: int| #[trigger] connected(mask, w, i, q) && q / w == s.y + s.h - 1;
    assert(encloses(r, w, a2) && encloses(r, w, b2) && encloses(r, w, c2) && encloses(r, w, d2));
}

proof fn lemma_reach_in_mask(mask: Seq<bool>, w: int, i: int, j: int, n: nat)
    requires
        reach(mask, w, i, j, n),
    ensures
        0 <= i < mask.len() && mask[i],
        0 <= j < mask.len() && mask[j],
    decreases n,
{
    if n > 0 {
        let k = choose|k: int| 
            reach(mask, w, i, k, (n - 1) as nat) && #[trigger] linked(mask, w, k, j);
        lemma_reach_in_mask(mask, w, i, k, (n - 1) as nat);
    }
}

/// Connected cells belong to the mask.
pub proof fn lemma_connected_in_mask(mask: Seq<bool>, w: int, i: int, j: int)
    requires
        connected(mask, w, i, j),
    ensures
        0 <= i < mask.len() && mask[i],
        0 <= j < mask.len() && mask[j],
{
    let n = choose|n: nat| #[trigger] reach(mask, w, i, j, n);
    lemma_reach_in_mask(mask, w, i, j, n);
}

proof fn lemma_reach_prepend(mask: Seq<bool>, w: int, a: int, i: int, j: int, n: nat)
    requires
        linked(mask, w, a, i),
        reach(mask, w, i, j, n),
    ensures
        reach(mask, w, a, j, n + 1),
    decreases n,
{
    if n == 0 {
        assert(reach(mask, w, a, a, 0));
    } else {
        let k = choose|k: int| 
            reach(mask, w, i, k, (n - 1) as nat) && #[trigger] linked(mask, w, k, j);
        lemma_reach_prepend(mask, w, a, i, k, (n - 1) as nat);
        assert(reach(mask, w, a, k, (n - 1 + 1) as nat));
    }
}

proof fn lemma_reach_symmetric(mask: Seq<bool>, w: int, i: int, j: int, n: nat)
    requires
        reach(mask, w, i, j, n),
    ensures
        reach(mask, w, j, i, n),
    decreases n,
{
    if n > 0 {
        let k = choose|k: int| 
            reach(mask, w, i, k, (n - 1) as nat) && #[trigger] linked(mask, w, k, j);
        lemma_reach_symmetric(mask, w, i, k, (n - 1) as nat);
        assert(linked(mask, w, j, k));
        lemma_reach_prepend(mask, w, j, k, i, (n - 1) as nat);
    }
}

/// Being in one component is symmetric.
pub proof fn lemma_connected_symmetric(mask: Seq<bool>, w: int, i: int, j: int)
    requires
        connected(mask, w, i, j),
    ensures
        connected(mask, w, j, i),
{
    let n = choose|n: nat| #[trigger] reach(mask, w, i, j, n);
    lemma_reach_symmetric(mask, w, i, j, n);
}

proof fn lemma_connected_step(mask: Seq<bool>, w: int, i: int, k: int, j: int)
    requires
        connected(mask, w, i, k),
        linked(mask, w, k, j),
    ensures
        connected(mask, w, i, j),
{
    let n = choose|n: nat| #[trigger] reach(mask, w, i, k, n);
    assert(reach(mask, w, i, k, ((n + 1) - 1) as nat));
    assert(reach(mask, w, i, j, n + 1));
}

/// A set of cells that no link leaves.
pub open spec fn is_closed(seen: Seq<bool>, mask: Seq<bool>, w: int) -> bool {
    forall|a: int, b: int| #[trigger] linked(mask, w, a, b) && seen[a] ==> seen[b]
}

proof fn lemma_closed_contains_reach(
    seen: Seq<bool>,
    mask: Seq<bool>,
    w: int,
    i: int,
    j: int,
    n: nat,
)
    requires
        is_closed(seen, mask, w),
        seen[i],
        reach(mask, w, i, j, n),
    ensures
        seen[j],
    decreases n,
{
    if n > 0 {
        let k = choose|k: int| 
            reach(mask, w, i, k, (n - 1) as nat) && #[trigger] linked(mask, w, k, j);
        lemma_closed_contains_reach(seen, mask, w, i, k, (n - 1) as nat);
    }
}

proof fn lemma_closed_contains_component(
    seen: Seq<bool>,
    mask: Seq<bool>,
    w: int,
    i: int,
    j: int,
)
    requires
        is_closed(seen, mask, w),
        seen[i],
        connected(mask, w, i, j),
    ensures
        seen[j],
{
    let n = choose|n: nat| #[trigger] reach(mask, w, i, j, n);
    lemma_closed_contains_reach(seen, mask, w, i, j, n);
}

/// How many entries are false.
spec fn unseen(s: Seq<bool>) -> nat
    decreases s.len(),
{
    if s.len() == 0 {
        0
    } else {
        unseen(s.drop_last()) + (if s.last() {
            0nat
        } else {
            1nat
        })
    }
}

proof fn lemma_unseen_drops(s: Seq<bool>, i: int)
    requires
        0 <= i < s.len(),
        !s[i],
    ensures
        unseen(s.update(i, true)) < unseen(s),
    decreases s.len(),
{
    let t = s.update(i, true);
    if i == s.len() - 1 {
        assert(t.drop_last() =~= s.drop_last());
    } else {
        assert(t.drop_last() =~= s.drop_last().update(i, true));
        lemma_unseen_drops(s.drop_last(), i);
    }
}

/// Marks cell `q` and queues it, unless it is off the mask or already marked.
fn visit(mask: &Vec<bool>, seen: &mut Vec<bool>, stack: &mut Vec<usize>, q: usize)
    requires
        q < mask@.len(),
        old(seen)@.len() == mask@.len(),
    ensures
        final(seen)@.len() == mask@.len(),
        mask@[q as int] ==> final(seen)@[q as int],
        mask@[q as int] && !old(seen)@[q as int] ==> {
            &&& final(seen)@ == old(seen)@.update(q as int, true)
            &&& final(stack)@ == old(stack)@.push(q)
            &&& unseen(final(seen)@) < unseen(old(seen)@)
        },
        !(mask@[q as int] && !old(seen)@[q as int]) ==> {
            &&& final(seen)@ == old(seen)@
            &&& final(stack)@ == old(stack)@
        },
{
    if mask[q] && !seen[q] {
        proof {
            lemma_unseen_drops(seen@, q as int);
        }
        seen.set(q, true);
        stack.push(q);
    }
}

/// What holds of the cells marked so far while the component of `i` is being filled.
spec fn filling(
    mask: Seq<bool>,
    w: int,
    i: int,
    before: Seq<bool>,
    seen: Seq<bool>,
    stack: Seq<usize>,
) -> bool {
    &&& seen.len() == mask.len()
    &&& 0 <= i < mask.len()
    &&& seen[i]
    &&& forall|k: int|
        0 <= k < stack.len() ==> #[trigger] stack[k] < mask.len() && connected(
            mask,
            w,
            i,
            stack[k] as int,
        )
    &&& forall|q: int| 0 <= q < mask.len() && before[q] ==> #[trigger] seen[q]
    &&& forall|q: int|
        0 <= q < mask.len() && #[trigger] seen[q] ==> before[q] || connected(mask, w, i, q)
}

/// Every marked cell with an unmarked neighbour is still queued (or is `p`).
spec fn frontier(mask: Seq<bool>, w: int, seen: Seq<bool>, stack: Seq<usize>, p: int) -> bool {
    forall|a: int, b: int| #[trigger]
        linked(mask, w, a, b) && seen[a] && !seen[b] ==> a == p || stack.contains(a as usize)
}

/// Every newly marked cell that is no longer queued lies in the given ranges.
spec fn within(
    w: int,
    before: Seq<bool>,
    seen: Seq<bool>,
    stack: Seq<usize>,
    x1: int,
    x2: int,
    y1: int,
    y2: int,
) -> bool {
    forall|q: int|
        0 <= q < seen.len() && #[trigger] seen[q] && !before[q] && !stack.contains(q as usize)
            ==> x1 <= q % w <= x2 && y1 <= q / w <= y2
}

proof fn lemma_visited(
    mask: Seq<bool>,
    w: int,
    i: int,
    before: Seq<bool>,
    seen: Seq<bool>,
    stack: Seq<usize>,
    p: int,
    q: usize,
    x1: int,
    x2: int,
    y1: int,
    y2: int,
)
    requires
        filling(mask, w, i, before, seen, stack),
        within(w, before, seen, stack, x1, x2, y1, y2),
        frontier(mask, w, seen, stack, p),
        connected(mask, w, i, p),
        linked(mask, w, p, q as int),
        !seen[q as int],
        mask.len() <= usize::MAX,
    ensures
        filling(mask, w, i, before, seen.update(q as int, true), stack.push(q)),
        within(w, before, seen.update(q as int, true), stack.push(q), x1, x2, y1, y2),
        frontier(mask, w, seen.update(q as int, true), stack.push(q), p),
{
    let seen2 = seen.update(q as int, true);
    let stack2 = stack.push(q);
    lemma_connected_step(mask, w, i, p, q as int);
    assert forall|a: int, b: int| #[trigger]
        linked(mask, w, a, b) && seen2[a] && !seen2[b] implies a == p || stack2.contains(
        a as usize,
    ) by {
        if a == q {
            assert(stack2[stack.len() as int] == q);
        } else {
            if a != p {
                let k = choose|k: int| 0 <= k < stack.len() && stack[k] == a as usize;
                assert(stack2[k] == a as usize);
            }
        }
    }
    assert forall|c: int|
        0 <= c < seen2.len() && #[trigger] seen2[c] && !before[c] && !stack2.contains(
            c as usize,
        ) implies x1 <= c % w <= x2 && y1 <= c / w <= y2 by {
        if c == q {
            assert(stack2[stack.len() as int] == q);
        } else {
            assert(seen[c]);
            if stack.contains(c as usize) {
                let k = choose|k: int| 0 <= k < stack.len() && stack[k] == c as usize;
                assert(stack2[k] == c as usize);
            }
        }
    }
}

/// Marks and queues the neighbours of the cell `p`, which has just left the queue.
fn spread(
    mask: &Vec<bool>,
    w: u32,
    h: u32,
    seen: &mut Vec<bool>,
    stack: &mut Vec<usize>,
    p: usize,
    Ghost(i): Ghost<int>,
    Ghost(before): Ghost<Seq<bool>>,
    Ghost(bounds): Ghost<(int, int, int, int)>,
)
    requires
        w > 0,
        mask@.len() == w * h,
        p < mask@.len(),
        mask@[p as int],
        connected(mask@, w as int, i, p as int),
        filling(mask@, w as int, i, before, old(seen)@, old(stack)@),
        frontier(mask@, w as int, old(seen)@, old(stack)@, p as int),
        within(
            w as int,
            before,
            old(seen)@,
            old(stack)@,
            bounds.0,
            bounds.1,
            bounds.2,
            bounds.3,
        ),
    ensures
        filling(mask@, w as int, i, before, final(seen)@, final(stack)@),
        frontier(mask@, w as int, final(seen)@, final(stack)@, -1),
        within(
            w as int,
            before,
            final(seen)@,
            final(stack)@,
            bounds.0,
            bounds.1,
            bounds.2,
            bounds.3,
        ),
        unseen(final(seen)@) < unseen(old(seen)@) || (unseen(final(seen)@) == unseen(old(seen)@)
            && final(stack)@.len() == old(stack)@.len()),
{
    let ghost m = mask@;
    let ghost wi = w as int;
    let n: usize = mask.len();
    let wz: usize = w as usize;
    proof {
        lemma_row_bound(p as int, wi, h as int);
    }
    let px: usize = p % wz;
    let py: usize = p / wz;
    if px > 0 {
        proof {
            if m[p - 1] {
                assert(linked(m, wi, p as int, p - 1));
                if !seen@[p - 1] {
                    lemma_visited(
                        m,
                        wi,
                        i,
                        before,
                        seen@,
                        stack@,
                        p as int,
                        (p - 1) as usize,
                        bounds.0,
                        bounds.1,
                        bounds.2,
                        bounds.3,
                    );
                }
            }
        }
        visit(mask, seen, stack, p - 1);
    }
    if px + 1 < wz {
        proof {
            lemma_next_in_row(p as int, wi, h as int);
            if m[p + 1] {
                assert(linked(m, wi, p as int, p + 1));
                if !seen@[p + 1] {
                    lemma_visited(
                        m,
                        wi,
                        i,
                        before,
                        seen@,
                        stack@,
                        p as int,
                        (p + 1) as usize,
                        bounds.0,
                        bounds.1,
                        bounds.2,
                        bounds.3,
                    );
                }
            }
        }
        visit(mask, seen, stack, p + 1);
    }
    if py > 0 {
        proof {
            lemma_row_bound(p as int, wi, h as int);
            if m[p - w] {
                assert(linked(m, wi, p as int, p - w));
                if !seen@[p - w] {
                    lemma_visited(
                        m,
                        wi,
                        i,
                        before,
                        seen@,
                        stack@,
                        p as int,
                        (p - w) as usize,
                        bounds.0,
                        bounds.1,
                        bounds.2,
                        bounds.3,
                    );
                }
            }
        }
        visit(mask, seen, stack, p - wz);
    }
    if wz < n - p {
        proof {
            if m[p + w] {
                assert(linked(m, wi, p as int, p + w));
                if !seen@[p + w] {
                    lemma_visited(
                        m,
                        wi,
                        i,
                        before,
                        seen@,
                        stack@,
                        p as int,
                        (p + w) as usize,
                        bounds.0,
                        bounds.1,
                        bounds.2,
                        bounds.3,
                    );
                }
            }
        }
        visit(mask, seen, stack, p + wz);
    }
    assert(frontier(m, wi, seen@, stack@, -1)) by {
        assert forall|a: int, b: int| #[trigger]
            linked(m, wi, a, b) && seen@[a] && !seen@[b] implies stack@.contains(
            a as usize,
        ) by {
            if a == p {
                lemma_neighbours(p as int, b, wi, h as int);
            }
        }
    }
}

/// Marks the whole component of cell `i` and returns its bounding box.
#[verifier::loop_isolation(false)]
fn fill(mask: &Vec<bool>, w: u32, h: u32, seen: &mut Vec<bool>, i: usize) -> (r: Rect)
    requires
        w > 0,
        mask@.len() == w * h,
        i < mask@.len(),
        mask@[i as int],
        old(seen)@.len() == mask@.len(),
        !old(seen)@[i as int],
        is_closed(old(seen)@, mask@, w as int),
    ensures
        final(seen)@.len() == mask@.len(),
        is_closed(final(seen)@, mask@, w as int),
        forall|q: int|
            0 <= q < mask@.len() ==> (#[trigger] final(seen)@[q] <==> old(seen)@[q] || connected(
                mask@,
                w as int,
                i as int,
                q,
            )),
        is_box_of(r, mask@, w as int, i as int),
{
    let ghost m = mask@;
    let ghost wi = w as int;
    let ghost before = seen@;
    let n: usize = mask.len();
    let mut stack: Vec<usize> = Vec::new();
    proof {
        lemma_unseen_drops(seen@, i as int);
        assert(reach(m, wi, i as int, i as int, 0));
    }
    seen.set(i, true);
    stack.push(i);
    let wz: usize = w as usize;
    proof {
        lemma_row_bound(i as int, wi, h as int);
    }
    let mut x1: usize = i % wz;
    let mut x2: usize = i % wz;
    let mut y1: usize = i / wz;
    let mut y2: usize = i / wz;
    assert(connected(m, wi, i as int, i as int));
    assert(frontier(m, wi, seen@, stack@, -1)) by {
        assert forall|a: int, b: int| #[trigger]
            linked(m, wi, a, b) && seen@[a] && !seen@[b] implies a == -1 || stack@.contains(
            a as usize,
        ) by {
            if a == i {
                assert(stack@[0] == i);
            } else {
                assert(before[a]);
            }
        }
    }
    while stack.len() > 0
        invariant
            filling(m, wi, i as int, before, seen@, stack@),
            frontier(m, wi, seen@, stack@, -1),
            x1 <= x2 < w,
            y1 <= y2 < h,
            within(wi, before, seen@, stack@, x1 as int, x2 as int, y1 as int, y2 as int),
            exists|q: int| #[trigger] connected(m, wi, i as int, q) && q % wi == x1,
            exists|q: int| #[trigger] connected(m, wi, i as int, q) && q % wi == x2,
            exists|q: int| #[trigger] connected(m, wi, i as int, q) && q / wi == y1,
            exists|q: int| #[trigger] connected(m, wi, i as int, q) && q / wi == y2,
        decreases unseen(seen@), stack@.len(),
    {
        let ghost stack0 = stack@;
        let ghost seen0 = seen@;
        let p: usize = stack.pop().unwrap();
        assert(stack0[stack0.len() - 1] == p);
        assert(connected(m, wi, i as int, p as int));
        proof {
            lemma_connected_in_mask(m, wi, i as int, p as int);
            lemma_row_bound(p as int, wi, h as int);
        }
        let px: usize = p % wz;
        let py: usize = p / wz;
        if px < x1 {
            x1 = px;
        }
        if px > x2 {
            x2 = px;
        }
        if py < y1 {
            y1 = py;
        }
        if py > y2 {
            y2 = py;
        }
        let ghost stack1 = stack@;
        assert(filling(m, wi, i as int, before, seen@, stack1));
        assert(frontier(m, wi, seen@, stack1, p as int)) by {
            assert forall|a: int, b: int| #[trigger]
                linked(m, wi, a, b) && seen@[a] && !seen@[b] implies a == p || stack1.contains(
                a as usize,
            ) by {
                let k = choose|k: int| 0 <= k < stack0.len() && stack0[k] == a as usize;
                if k < stack1.len() {
                    assert(stack1[k] == a as usize);
                }
            }
        }
        assert forall|q: int|
            0 <= q < m.len() && #[trigger] seen@[q] && !before[q] && !stack1.contains(
                q as usize,
            ) implies x1 <= q % wi <= x2 && y1 <= q / wi <= y2 by {
            if stack0.contains(q as usize) {
                let k = choose|k: int| 0 <= k < stack0.len() && stack0[k] == q as usize;
                if k < stack1.len() {
                    assert(stack1[k] == q as usize);
                }
                assert(q == p);
            }
        }
        spread(
            mask,
            w,
            h,
            seen,
            &mut stack,
            p,
            Ghost(i as int),
            Ghost(before),
            Ghost((x1 as int, x2 as int, y1 as int, y2 as int)),
        );
    }
    assert(is_closed(seen@, m, wi));
    let r = Rect {
        x: x1 as u32,
        y: y1 as u32,
        w: (x2 - x1 + 1) as u32,
        h: (y2 - y1 + 1) as u32,
    };
    proof {
        assert forall|q: int| #[trigger] connected(m, wi, i as int, q) implies encloses(
            r,
            wi,
            q,
        ) && seen@[q] by {
            lemma_connected_in_mask(m, wi, i as int, q);
            lemma_closed_contains_component(seen@, m, wi, i as int, q);
            if before[q] {
                lemma_connected_symmetric(m, wi, i as int, q);
                lemma_closed_contains_component(before, m, wi, q, i as int);
            }
        }
    }
    r
}

proof fn lemma_row_bound(p: int, w: int, h: int)
    requires
        w > 0,
        0 <= p < w * h,
    ensures
        0 <= p % w < w,
        0 <= p / w < h,
        p / w > 0 ==> p >= w,
        p % w <= p,
{
    assert(0 <= p % w < w && 0 <= p / w < h && (p / w > 0 ==> p >= w) && p % w <= p) by (nonlinear_arith)
        requires
            w > 0,
            0 <= p < w * h,
    ;
}

proof fn lemma_next_in_row(p: int, w: int, h: int)
    requires
        w > 0,
        0 <= p < w * h,
        p % w + 1 < w,
    ensures
        p + 1 < w * h,
        (p + 1) % w == p % w + 1,
{
    let y = p / w;
    lemma_row_bound(p, w, h);
    vstd::arithmetic::div_mod::lemma_fundamental_div_mod(p, w);
    assert(w * y + w <= w * h) by (nonlinear_arith)
        requires
            y < h,
            w > 0,
    ;
    assert(w * y == y * w) by (nonlinear_arith);
    vstd::arithmetic::div_mod::lemma_fundamental_div_mod_converse(p + 1, w, y, p % w + 1);
}

proof fn lemma_neighbours(p: int, b: int, w: int, h: int)
    requires
        w > 0,
        0 <= p < w * h,
        0 <= b < w * h,
        adjacent(w, p, b),
    ensures
        (b == p - 1 && p % w > 0) || (b == p + 1 && p % w + 1 < w) || (b == p - w && p / w > 0) || (
        b == p + w && w < w * h - p),
{
    lemma_row_bound(p, w, h);
    vstd::arithmetic::div_mod::lemma_fundamental_div_mod(p, w);
    if b == p + 1 && b % w != 0 {
        if p % w + 1 == w {
            assert(b == w * (p / w + 1) + 0) by (nonlinear_arith)
                requires
                    p == w * (p / w) + p % w,
                    b == p + 1,
                    p % w + 1 == w,
            ;
            vstd::arithmetic::div_mod::lemma_fundamental_div_mod_converse(b, w, p / w + 1, 0);
        }
    }
    if p == b + w {
        assert(p / w > 0) by (nonlinear_arith)
            requires
                p >= w,
                w > 0,
        ;
    }
}

proof fn lemma_box_in_grid(r: Rect, mask: Seq<bool>, w: int, h: int, i: int)
    requires
        0 <= w,
        mask.len() == w * h,
        is_box_of(r, mask, w, i),
    ensures
        r.x + r.w <= w,
        r.y + r.h <= h,
        r.w > 0,
        r.h > 0,
{
    let b = choose|q: int| #[trigger] connected(mask, w, i, q) && q % w == r.x + r.w - 1;
    let d = choose|q: int| #[trigger] connected(mask, w, i, q) && q / w == r.y + r.h - 1;
    lemma_connected_in_mask(mask, w, i, b);
    lemma_connected_in_mask(mask, w, i, d);
    if w == 0 {
        assert(w * h == 0) by (nonlinear_arith)
            requires
                w == 0,
        ;
    }
    lemma_row_bound(b, w, h);
    lemma_row_bound(d, w, h);
    assert(encloses(r, w, b));
}

/// The bounding boxes of the components of a mask over a `w` by `h` grid.
#[verifier::loop_isolation(false)]
pub fn component_boxes(mask: &Vec<bool>, w: u32, h: u32) -> (r: Vec<Rect>)
    requires
        mask@.len() == w * h,
    ensures
        r@ == boxes_of(mask@, w as int),
        forall|k: int|
            0 <= k < r@.len() ==> is_box_of(
                #[trigger] r@[k],
                mask@,
                w as int,
                seeds(mask@, w as int, mask@.len() as int)[k],
            ),
        forall|k: int|
            0 <= k < r@.len() ==> (#[trigger] r@[k]).x + r@[k].w <= w && r@[k].y + r@[k].h <= h
                && r@[k].w > 0 && r@[k].h > 0,
{
    let ghost m = mask@;
    let ghost wi = w as int;
    let n: usize = mask.len();
    let mut boxes: Vec<Rect> = Vec::new();
    let mut seen: Vec<bool> = Vec::new();
    let mut k: usize = 0;
    while k < n
        invariant
            k <= n,
            seen@.len() == k,
            forall|q: int| 0 <= q < k ==> !#[trigger] seen@[q],
        decreases n - k,
    {
        seen.push(false);
        k = k + 1;
    }
    let mut i: usize = 0;
    while i < n
        invariant
            i <= n,
            seen@.len() == n,
            is_closed(seen@, m, wi),
            forall|q: int| 0 <= q < i && m[q] ==> #[trigger] seen@[q],
            forall|q: int|
                0 <= q < n && #[trigger] seen@[q] ==> exists|s: int|
                    0 <= s < i && #[trigger] connected(m, wi, s, q),
            boxes@.len() == seeds(m, wi, i as int).len(),
            forall|k: int|
                0 <= k < boxes@.len() ==> is_box_of(
                    #[trigger] boxes@[k],
                    m,
                    wi,
                    seeds(m, wi, i as int)[k],
                ),
        decreases n - i,
    {
        let ghost seen0 = seen@;
        if mask[i] && !seen[i] {
            assert(w > 0) by {
                if w == 0 {
                    assert(w * h == 0) by (nonlinear_arith)
                        requires
                            w == 0,
                    ;
                }
            }
            assert(is_seed(m, wi, i as int)) by {
                assert forall|j: int| 0 <= j < i implies !#[trigger] connected(
                    m,
                    wi,
                    j,
                    i as int,
                ) by {
                    if connected(m, wi, j, i as int) {
                        lemma_connected_in_mask(m, wi, j, i as int);
                        lemma_closed_contains_component(seen@, m, wi, j, i as int);
                    }
                }
            }
            let r = fill(mask, w, h, &mut seen, i);
            boxes.push(r);
            assert(reach(m, wi, i as int, i as int, 0));
        } else {
            assert(!is_seed(m, wi, i as int)) by {
                if m[i as int] {
                    let s = choose|s: int| 0 <= s < i && #[trigger] connected(m, wi, s, i as int);
                    assert(connected(m, wi, s, i as int));
                }
            }
        }
        assert(seeds(m, wi, i + 1) == if is_seed(m, wi, i as int) {
            seeds(m, wi, i as int).push(i as int)
        } else {
            seeds(m, wi, i as int)
        });
        i = i + 1;
    }
    proof {
        assert forall|k: int| 0 <= k < boxes@.len() implies boxes@[k] == boxes_of(m, wi)[k]
            && (#[trigger] boxes@[k]).x + boxes@[k].w <= w && boxes@[k].y + boxes@[k].h <= h && boxes@[k].w
            > 0 && boxes@[k].h > 0 by {
            let s = seeds(m, wi, n as int)[k];
            assert(is_box_of(boxes@[k], m, wi, s));
            lemma_box_is_unique(boxes@[k], bounding_box(m, wi, s), m, wi, s);
            lemma_box_in_grid(boxes@[k], m, w as int, h as int, s);
        }
        assert(boxes@ =~= boxes_of(m, wi));
    }
    boxes
}

/// Two cells share an edge exactly if they are neighbours in one row or in one column.
pub proof fn law_adjacent_cells(w: int, x: int, y: int, u: int, v: int)
    requires
        0 <= x < w,
        0 <= u < w,
        0 <= y,
        0 <= v,
    ensures
        adjacent(w, y * w + x, v * w + u) <==> (y == v && (u == x + 1 || x == u + 1)) || (x == u && (
        v == y + 1 || y == v + 1)),
{
    let (i, j) = (y * w + x, v * w + u);
    assert(i == w * y + x && j == w * v + u) by (nonlinear_arith)
        requires
            i == y * w + x,
            j == v * w + u,
    ;
    vstd::arithmetic::div_mod::lemma_fundamental_div_mod_converse(i, w, y, x);
    vstd::arithmetic::div_mod::lemma_fundamental_div_mod_converse(j, w, v, u);
    assert(w * (v - y) == w * v - w * y) by (nonlinear_arith);
    let d = v - y;
    let m = w * d;
    if d == 0 {
        assert(m == 0) by (nonlinear_arith)
            requires
                m == w * d,
                d == 0,
        ;
    } else if d == 1 {
        assert(m == w) by (nonlinear_arith)
            requires
                m == w * d,
                d == 1,
        ;
    } else if d == -1 {
        assert(m == -w) by (nonlinear_arith)
            requires
                m == w * d,
                d == -1,
        ;
    } else if d >= 2 {
        assert(m >= 2 * w) by (nonlinear_arith)
            requires
                m == w * d,
                d >= 2,
                w > 0,
        ;
    } else {
        assert(m <= -2 * w) by (nonlinear_arith)
            requires
                m == w * d,
                d <= -2,
                w > 0,
        ;
    }
}

proof fn lemma_seeds(mask: Seq<bool>, w: int, n: int)
    ensures
        forall|k: int|
            0 <= k < seeds(mask, w, n).len() ==> 0 <= #[trigger] seeds(mask, w, n)[k] < n
                && is_seed(mask, w, seeds(mask, w, n)[k]),
        forall|i: int| 0 <= i < n && #[trigger] is_seed(mask, w, i) ==> seeds(mask, w, n).contains(i),
        forall|j: int, k: int|
            0 <= j < k < seeds(mask, w, n).len() ==> #[trigger] seeds(mask, w, n)[j]
                < #[trigger] seeds(mask, w, n)[k],
    decreases n,
{
    if n > 0 {
        lemma_seeds(mask, w, n - 1);
        let (before, all) = (seeds(mask, w, n - 1), seeds(mask, w, n));
        assert forall|i: int| 0 <= i < n && #[trigger] is_seed(mask, w, i) implies all.contains(
            i,
        ) by {
            if i < n - 1 {
                let k = choose|k: int| 0 <= k < before.len() && before[k] == i;
                assert(all[k] == i);
            } else {
                assert(all[all.len() - 1] == i);
            }
        }
        assert forall|k: int| 0 <= k < all.len() implies 0 <= #[trigger] all[k] < n && is_seed(
            mask,
            w,
            all[k],
        ) by {
            if k < before.len() {
                assert(all[k] == before[k]);
            }
        }
        assert forall|j: int, k: int| 0 <= j < k < all.len() implies #[trigger] all[j]
            < #[trigger] all[k] by {
            assert(all[j] == before[j]);
            if k < before.len() {
                assert(all[k] == before[k]);
            }
        }
    }
}

proof fn lemma_first_connected(mask: Seq<bool>, w: int, q: int, i: int) -> (s: int)
    requires
        0 <= i,
        connected(mask, w, i, q),
    ensures
        0 <= s <= i,
        connected(mask, w, s, q),
        forall|j: int| 0 <= j < s ==> !#[trigger] connected(mask, w, j, q),
    decreases i,
{
    if exists|j: int| 0 <= j < i && #[trigger] connected(mask, w, j, q) {
        let j = choose|j: int| 0 <= j < i && #[trigger] connected(mask, w, j, q);
        lemma_first_connected(mask, w, q, j)
    } else {
        i
    }
}

proof fn lemma_reach_joins(mask: Seq<bool>, w: int, i: int, j: int, k: int, m: nat, n: nat)
    requires
        reach(mask, w, i, j, m),
        reach(mask, w, j, k, n),
    ensures
        connected(mask, w, i, k),
    decreases n,
{
    if n == 0 {
        assert(reach(mask, w, i, k, m));
    } else {
        let p = choose|p: int|
            reach(mask, w, j, p, (n - 1) as nat) && #[trigger] linked(mask, w, p, k);
        lemma_reach_joins(mask, w, i, j, p, m, (n - 1) as nat);
        lemma_connected_step(mask, w, i, p, k);
    }
}

/// Being in one component carries over.
pub proof fn lemma_connected_transitive(mask: Seq<bool>, w: int, i: int, j: int, k: int)
    requires
        connected(mask, w, i, j),
        connected(mask, w, j, k),
    ensures
        connected(mask, w, i, k),
{
    let m = choose|m: nat| #[trigger] reach(mask, w, i, j, m);
    let n = choose|n: nat| #[trigger] reach(mask, w, j, k, n);
    lemma_reach_joins(mask, w, i, j, k, m, n);
}

/// Every cell of the mask belongs to the component of exactly one of the first cells that the
/// boxes are made for.
pub proof fn law_each_cell_is_in_one_component(mask: Seq<bool>, w: int, q: int) -> (k: int)
    requires
        0 <= q < mask.len(),
        mask[q],
    ensures
        ({
            let s = seeds(mask, w, mask.len() as int);
            &&& 0 <= k < s.len()
            &&& connected(mask, w, s[k], q)
            &&& forall|j: int| 0 <= j < s.len() && j != k ==> !connected(mask, w, #[trigger] s[j], q)
        }),
{
    let n = mask.len() as int;
    let s = seeds(mask, w, n);
    lemma_seeds(mask, w, n);
    assert(reach(mask, w, q, q, 0));
    let i = lemma_first_connected(mask, w, q, q);
    assert forall|j: int| 0 <= j < i implies !#[trigger] connected(mask, w, j, i) by {
        if connected(mask, w, j, i) {
            lemma_connected_transitive(mask, w, j, i, q);
        }
    }
    lemma_connected_in_mask(mask, w, i, q);
    assert(is_seed(mask, w, i));
    let k = choose|k: int| 0 <= k < s.len() && s[k] == i;
    assert forall|j: int| 0 <= j < s.len() && j != k implies !connected(mask, w, #[trigger] s[j], q) by {
        let p = s[j];
        if connected(mask, w, p, q) {
            lemma_connected_symmetric(mask, w, p, q);
            lemma_connected_transitive(mask, w, i, q, p);
            lemma_connected_symmetric(mask, w, i, p);
            if p < i {
                assert(is_seed(mask, w, i));
                assert(!connected(mask, w, p, i));
            } else {
                assert(is_seed(mask, w, p));
                assert(j < k || k < j);
                assert(!connected(mask, w, i, p));
            }
        }
    }
    k
}

/// The box of a component holds each of its cells by column and by row, and has one in its
/// first and its last column and in its first and its last row.
pub proof fn law_box_of_a_component(r: Rect, mask: Seq<bool>, w: int, i: int, q: int)
    requires
        is_box_of(r, mask, w, i),
        connected(mask, w, i, q),
    ensures
        r.x <= q % w && q % w <= r.x + r.w - 1,
        r.y <= q / w && q / w <= r.y + r.h - 1,
        exists|p: int| #[trigger] connected(mask, w, i, p) && p % w == r.x,
        exists|p: int| #[trigger] connected(mask, w, i, p) && p % w == r.x + r.w - 1,
        exists|p: int| #[trigger] connected(mask, w, i, p) && p / w == r.y,
        exists|p: int| #[trigger] connected(mask, w, i, p) && p / w == r.y + r.h - 1,
{
    assert(encloses(r, w, q));
}

} // verus!
