//! Cells of a `width * height` grid, stored row by row, and the two region
//! computations art needs: which blank cells the border cannot reach, and
//! which of those belong to a region of at least two cells.

use vstd::prelude::*;
use vstd::arithmetic::div_mod::{lemma_fundamental_div_mod, lemma_fundamental_div_mod_converse};

verus! {

/// `j` is an orthogonal neighbour of cell `i` on a grid `w` cells wide with
/// `n` cells in all. Steps never wrap around a row edge.
pub open spec fn adjacent(w: nat, n: nat, i: int, j: int) -> bool {
    &&& 0 <= i < n
    &&& 0 <= j < n
    &&& {
        ||| (i % (w as int) > 0 && j == i - 1)
        ||| (i % (w as int) + 1 < w && j == i + 1)
        ||| (i >= w && j == i - w)
        ||| (i + w < n && j == i + w)
    }
}

/// Cell `i` lies in the first or last row or column.
pub open spec fn on_border(w: nat, n: nat, i: int) -> bool {
    &&& 0 <= i < n
    &&& (i < w || i + w >= n || i % (w as int) == 0 || i % (w as int) == w - 1)
}

/// A walk over blank cells that starts on the border.
pub open spec fn is_open_walk(ink: Seq<bool>, w: nat, p: Seq<int>) -> bool {
    &&& p.len() > 0
    &&& on_border(w, ink.len(), p[0])
    &&& forall|k: int| 0 <= k < p.len() ==> 0 <= #[trigger] p[k] < ink.len() && !ink[p[k]]
    &&& forall|k: int| 0 <= k < p.len() - 1 ==> adjacent(w, ink.len(), #[trigger] p[k], p[k + 1])
}

/// Blank cell `i` can be reached from the border without crossing ink.
pub open spec fn open_to_border(ink: Seq<bool>, w: nat, i: int) -> bool {
    exists|p: Seq<int>| #[trigger] is_open_walk(ink, w, p) && p.last() == i
}

/// A blank cell the border cannot reach: a hole in the drawing rather than
/// background.
pub open spec fn enclosed(ink: Seq<bool>, w: nat, i: int) -> bool {
    &&& 0 <= i < ink.len()
    &&& !ink[i]
    &&& !open_to_border(ink, w, i)
}

/// Cell `i` of `cells` is set and so is one of its neighbours.
pub open spec fn has_set_neighbour(cells: Seq<bool>, w: nat, i: int) -> bool {
    exists|j: int| adjacent(w, cells.len(), i, j) && #[trigger] cells[j]
}

/// Set cells that belong to a region of two or more cells: an isolated set
/// cell is cleared.
pub open spec fn without_specks(cells: Seq<bool>, w: nat) -> Seq<bool> {
    Seq::new(cells.len(), |i: int| cells[i] && has_set_neighbour(cells, w, i))
}

/// The enclosed cells of `ink` that are part of a region of at least two.
pub open spec fn holes_of(ink: Seq<bool>, w: nat) -> Seq<bool> {
    without_specks(Seq::new(ink.len(), |i: int| enclosed(ink, w, i)), w)
}

proof fn lemma_right_in_range(w: int, h: int, i: int)
    requires
        w > 0,
        0 <= i < w * h,
        i % w + 1 < w,
    ensures
        i + 1 < w * h,
{
    lemma_fundamental_div_mod(i, w);
    let q = i / w;
    let r = i % w;
    assert(i + 1 < w * (q + 1)) by (nonlinear_arith)
        requires
            i == w * q + r,
            r + 1 < w,
    ;
    assert(q < h) by (nonlinear_arith)
        requires
            w > 0,
            i == w * q + r,
            0 <= r,
            i < w * h,
    ;
    assert(w * (q + 1) <= w * h) by (nonlinear_arith)
        requires
            w > 0,
            q < h,
    ;
}

/// Neighbourhood is symmetric.
pub proof fn lemma_adjacent_symmetric(w: nat, n: nat, i: int, j: int)
    requires
        w > 0,
        adjacent(w, n, i, j),
    ensures
        adjacent(w, n, j, i),
{
    let wi = w as int;
    lemma_fundamental_div_mod(i, wi);
    let q = i / wi;
    let r = i % wi;
    if r > 0 && j == i - 1 {
        lemma_fundamental_div_mod_converse(j, wi, q, r - 1);
    } else if r + 1 < wi && j == i + 1 {
        lemma_fundamental_div_mod_converse(j, wi, q, r + 1);
    }
}

/// The orthogonal neighbours of `i`, clipped at the edges.
pub fn neighbors(i: usize, w: usize, n: usize) -> (out: Vec<usize>)
    requires
        w > 0,
        i < n,
        n % w == 0,
    ensures
        forall|k: int| #![trigger out@[k]] 0 <= k < out@.len() ==> adjacent(w as nat, n as nat, i as int, out@[k] as int),
        forall|j: int| adjacent(w as nat, n as nat, i as int, j) ==> exists|k: int| #![trigger out@[k]] 0 <= k < out@.len() && out@[k] == j,
        out@.len() <= 4,
{
    let x = i % w;
    let mut out: Vec<usize> = Vec::new();
    proof {
        vstd::arithmetic::div_mod::lemma_fundamental_div_mod(i as int, w as int);
        vstd::arithmetic::div_mod::lemma_fundamental_div_mod(n as int, w as int);
        assert((w as int) * ((i / w) as int) >= 0) by (nonlinear_arith)
            requires
                w > 0,
        ;
        assert(n >= w) by (nonlinear_arith)
            requires
                w > 0,
                n > 0,
                n == (w as int) * ((n / w) as int),
                n / w >= 0,
        ;
    }
    if x > 0 {
        out.push(i - 1);
    }
    if x + 1 < w {
        proof {
            vstd::arithmetic::div_mod::lemma_fundamental_div_mod(n as int, w as int);
            lemma_right_in_range(w as int, (n / w) as int, i as int);
        }
        out.push(i + 1);
    }
    if i >= w {
        out.push(i - w);
    }
    if i < n - w {
        out.push(i + w);
    }
    proof {
        assert forall|j: int| adjacent(w as nat, n as nat, i as int, j) implies exists|k: int|
            0 <= k < out@.len() && #[trigger] out@[k] == j by {
            if x > 0 && j == i - 1 {
                assert(out@[0] == j);
            } else if x + 1 < w && j == i + 1 {
                let k = if x > 0 { 1int } else { 0int };
                assert(out@[k] == j);
            } else if i >= w && j == i - w {
                let k = (if x > 0 { 1int } else { 0int }) + (if x + 1 < w { 1int } else { 0int });
                assert(out@[k] == j);
            } else {
                let k = (if x > 0 { 1int } else { 0int }) + (if x + 1 < w { 1int } else { 0int }) + (
                if i >= w { 1int } else { 0int });
                assert(out@[k] == j);
            }
        }
    }
    out
}

/// Number of unset cells.
pub open spec fn count_unset(s: Seq<bool>) -> nat
    decreases s.len(),
{
    if s.len() == 0 {
        0
    } else {
        count_unset(s.drop_last()) + if s.last() {
            0nat
        } else {
            1nat
        }
    }
}

proof fn lemma_count_unset_set(s: Seq<bool>, i: int)
    requires
        0 <= i < s.len(),
        !s[i],
    ensures
        count_unset(s.update(i, true)) + 1 == count_unset(s),
    decreases s.len(),
{
    let t = s.update(i, true);
    if i == s.len() - 1 {
        assert(t.drop_last() =~= s.drop_last());
    } else {
        lemma_count_unset_set(s.drop_last(), i);
        assert(t.drop_last() =~= s.drop_last().update(i, true));
    }
}

/// Every cell of an open walk is marked when the marked set holds the blank
/// border cells and is closed under stepping to blank neighbours.
proof fn lemma_walk_marked(ink: Seq<bool>, w: nat, marked: Seq<bool>, p: Seq<int>, k: int)
    requires
        marked.len() == ink.len(),
        is_open_walk(ink, w, p),
        0 <= k < p.len(),
        forall|i: int| on_border(w, ink.len(), i) && !ink[i] ==> #[trigger] marked[i],
        forall|i: int, j: int|
            0 <= i < ink.len() && #[trigger] marked[i] && adjacent(w, ink.len(), i, j) && !ink[j]
                ==> #[trigger] marked[j],
    ensures
        marked[p[k]],
    decreases k,
{
    if k > 0 {
        lemma_walk_marked(ink, w, marked, p, k - 1);
        assert(adjacent(w, ink.len(), p[k - 1], p[k - 1 + 1]));
        assert(!ink[p[k]]);
    } else {
        assert(0 <= p[0] < ink.len() && !ink[p[0]]);
    }
}

/// The blank cells of `ink` that the border cannot reach.
pub fn enclosed_cells(ink: &[bool], w: usize) -> (out: Vec<bool>)
    requires
        w > 0,
        ink@.len() % (w as nat) == 0,
    ensures
        out@.len() == ink@.len(),
        forall|i: int| 0 <= i < ink@.len() ==> #[trigger] out@[i] == enclosed(ink@, w as nat, i),
{
    let n = ink.len();
    let ghost wn = w as nat;
    let mut outside: Vec<bool> = Vec::new();
    let mut k: usize = 0;
    while k < n
        invariant
            k <= n,
            n == ink@.len(),
            wn == w as nat,
            outside@.len() == k,
            forall|i: int| 0 <= i < k ==> !#[trigger] outside@[i],
        decreases n - k,
    {
        outside.push(false);
        k = k + 1;
    }
    let mut queue: Vec<usize> = Vec::new();
    let mut i: usize = 0;
    while i < n
        invariant
            i <= n,
            n == ink@.len(),
            wn == w as nat,
            w > 0,
            outside@.len() == n,
            forall|a: int| 0 <= a < n ==> (#[trigger] outside@[a] ==> !ink@[a] && open_to_border(ink@, wn, a)),
            forall|a: int| 0 <= a < n ==> (#[trigger] outside@[a] <==> (a < i && on_border(wn, n as nat, a) && !ink@[a])),
            forall|a: int| 0 <= a < queue@.len() ==> #[trigger] queue@[a] < n && outside@[queue@[a] as int],
            forall|a: int, b: int| 0 <= a < b < queue@.len() ==> #[trigger] queue@[a] != #[trigger] queue@[b],
            forall|a: int| 0 <= a < n && #[trigger] outside@[a] ==> queue@.contains(a as usize),
        decreases n - i,
    {
        if (i < w || w > n || i >= n - w || i % w == 0 || i % w == w - 1) && !ink[i] {
            proof {
                let p = seq![i as int];
                assert(p.len() == 1 && p[0] == i as int);
                if w > n {
                    assert(i < w);
                } else if i >= n - w {
                    assert(i + w >= n);
                } else if i % w == 0 {
                    assert((i as int) % (wn as int) == 0);
                } else if i % w == w - 1 {
                    assert((i as int) % (wn as int) == wn - 1);
                } else {
                    assert(i < w);
                }
                assert(0 <= i < n);
                assert(on_border(wn, n as nat, i as int));
                assert(is_open_walk(ink@, wn, p));
            }
            outside.set(i, true);
            let ghost q0 = queue@;
            queue.push(i);
            proof {
                assert(queue@[q0.len() as int] == i);
                assert forall|a: usize| q0.contains(a) implies queue@.contains(a) by {
                    let k = choose|k: int| 0 <= k < q0.len() && q0[k] == a;
                    assert(queue@[k] == a);
                }
            }
        }
        i = i + 1;
    }
    let ghost seeded = outside@;
    while queue.len() > 0
        invariant
            n == ink@.len(),
            wn == w as nat,
            w > 0,
            n % w == 0,
            outside@.len() == n,
            forall|a: int| 0 <= a < n ==> (#[trigger] outside@[a] ==> !ink@[a] && open_to_border(ink@, wn, a)),
            forall|a: int| on_border(wn, n as nat, a) && !ink@[a] ==> #[trigger] outside@[a],
            forall|a: int| 0 <= a < queue@.len() ==> #[trigger] queue@[a] < n && outside@[queue@[a] as int],
            forall|a: int, b: int| 0 <= a < b < queue@.len() ==> #[trigger] queue@[a] != #[trigger] queue@[b],
            forall|a: int, b: int|
                0 <= a < n && #[trigger] outside@[a] && !queue@.contains(a as usize) && adjacent(wn, n as nat, a, b) && !ink@[b]
                    ==> #[trigger] outside@[b],
        decreases 2 * count_unset(outside@) + queue@.len(),
    {
        let ghost full = queue@;
        let c = queue.pop().unwrap();
        let ghost popped = queue@;
        assert(full == popped.push(c));
        assert(c < n && outside@[c as int]) by {
            assert(full[popped.len() as int] == c);
        }
        assert forall|a: usize| !popped.contains(a) && a != c implies !full.contains(a) by {
            if full.contains(a) {
                let k = choose|k: int| 0 <= k < full.len() && full[k] == a;
                if k < popped.len() {
                    assert(popped[k] == a);
                }
            }
        }
        assert(!popped.contains(c)) by {
            if popped.contains(c) {
                let a = choose|a: int| 0 <= a < popped.len() && popped[a] == c;
                let full = popped.push(c);
                assert(full[a] == full[popped.len() as int]);
            }
        }
        let nbrs = neighbors(c, w, n);
        assert(forall|k2: int| 0 <= k2 < nbrs@.len() ==> adjacent(wn, n as nat, c as int, #[trigger] nbrs@[k2] as int));
        let mut t: usize = 0;
        let ghost before = 2 * count_unset(outside@) + popped.len();
        while t < nbrs.len()
            invariant
                n == ink@.len(),
                wn == w as nat,
            wn == w as nat,
                w > 0,
                c < n,
                outside@.len() == n,
                outside@[c as int],
                t <= nbrs@.len(),
                forall|k2: int| 0 <= k2 < nbrs@.len() ==> adjacent(wn, n as nat, c as int, #[trigger] nbrs@[k2] as int),
                forall|a: int| 0 <= a < n ==> (#[trigger] outside@[a] ==> !ink@[a] && open_to_border(ink@, wn, a)),
                forall|a: int| on_border(wn, n as nat, a) && !ink@[a] ==> #[trigger] outside@[a],
                forall|a: int| 0 <= a < queue@.len() ==> #[trigger] queue@[a] < n && outside@[queue@[a] as int],
                forall|a: int, b: int| 0 <= a < b < queue@.len() ==> #[trigger] queue@[a] != #[trigger] queue@[b],
                !queue@.contains(c),
                forall|a: int, b: int|
                    0 <= a < n && #[trigger] outside@[a] && !queue@.contains(a as usize) && a != c
                        && adjacent(wn, n as nat, a, b) && !ink@[b] ==> #[trigger] outside@[b],
                forall|k2: int| 0 <= k2 < t ==> (outside@[#[trigger] nbrs@[k2] as int] || ink@[nbrs@[k2] as int]),
                2 * count_unset(outside@) + queue@.len() <= before,
            decreases nbrs@.len() - t,
        {
            let m = nbrs[t];
            if !ink[m] && !outside[m] {
                proof {
                    let p = choose|p: Seq<int>| #[trigger] is_open_walk(ink@, wn, p) && p.last() == c as int;
                    let q = p.push(m as int);
                    assert(q[q.len() - 2] == c as int);
                    assert(is_open_walk(ink@, wn, q));
                    lemma_count_unset_set(outside@, m as int);
                    assert(!queue@.contains(m)) by {
                        if queue@.contains(m) {
                            let a = choose|a: int| 0 <= a < queue@.len() && queue@[a] == m;
                            assert(outside@[queue@[a] as int]);
                        }
                    }
                }
                let ghost q0 = queue@;
                outside.set(m, true);
                queue.push(m);
                assert forall|a: usize| !queue@.contains(a) implies !q0.contains(a) by {
                    if q0.contains(a) {
                        let k = choose|k: int| 0 <= k < q0.len() && q0[k] == a;
                        assert(queue@[k] == a);
                    }
                }
                assert(queue@[q0.len() as int] == m);
            }
            t = t + 1;
        }
        proof {
            assert forall|a: int, b: int|
                0 <= a < n && #[trigger] outside@[a] && !queue@.contains(a as usize) && adjacent(wn, n as nat, a, b) && !ink@[b]
                    implies #[trigger] outside@[b] by {
                if a == c as int {
                    let k2 = choose|k2: int| 0 <= k2 < nbrs@.len() && #[trigger] nbrs@[k2] == b;
                    assert(outside@[nbrs@[k2] as int] || ink@[nbrs@[k2] as int]);
                }
            }
        }
    }
    let mut out: Vec<bool> = Vec::new();
    let mut j: usize = 0;
    while j < n
        invariant
            j <= n,
            n == ink@.len(),
            wn == w as nat,
            outside@.len() == n,
            out@.len() == j,
            forall|a: int| 0 <= a < n ==> (#[trigger] outside@[a] ==> !ink@[a] && open_to_border(ink@, wn, a)),
            forall|a: int| on_border(wn, n as nat, a) && !ink@[a] ==> #[trigger] outside@[a],
            forall|a: int, b: int|
                0 <= a < n && #[trigger] outside@[a] && adjacent(wn, n as nat, a, b) && !ink@[b] ==> #[trigger] outside@[b],
            forall|a: int| 0 <= a < j ==> #[trigger] out@[a] == enclosed(ink@, wn, a),
        decreases n - j,
    {
        proof {
            if open_to_border(ink@, wn, j as int) {
                let p = choose|p: Seq<int>| #[trigger] is_open_walk(ink@, wn, p) && p.last() == j as int;
                lemma_walk_marked(ink@, wn, outside@, p, p.len() - 1);
            }
        }
        out.push(!ink[j] && !outside[j]);
        j = j + 1;
    }
    out
}

/// Clears every set cell none of whose neighbours is set: regions of a
/// single cell are specks, not features.
pub fn drop_specks(hole: &mut Vec<bool>, w: usize)
    requires
        w > 0,
        old(hole)@.len() % (w as nat) == 0,
    ensures
        final(hole)@ == without_specks(old(hole)@, w as nat),
{
    let n = hole.len();
    let ghost h0 = hole@;
    let ghost wn = w as nat;
    let mut seen: Vec<bool> = Vec::new();
    let mut k: usize = 0;
    while k < n
        invariant
            k <= n,
            seen@.len() == k,
            forall|i: int| 0 <= i < k ==> !#[trigger] seen@[i],
        decreases n - k,
    {
        seen.push(false);
        k = k + 1;
    }
    let mut start: usize = 0;
    while start < n
        invariant
            n == h0.len(),
            n % w == 0,
            w > 0,
            wn == w as nat,
            start <= n,
            hole@.len() == n,
            seen@.len() == n,
            forall|i: int| 0 <= i < n ==> (#[trigger] seen@[i] ==> h0[i]),
            forall|i: int, j: int|
                0 <= i < n && #[trigger] seen@[i] && adjacent(wn, n as nat, i, j) && h0[j] ==> #[trigger] seen@[j],
            forall|i: int|
                0 <= i < n ==> #[trigger] hole@[i] == (if seen@[i] {
                    h0[i] && has_set_neighbour(h0, wn, i)
                } else {
                    h0[i]
                }),
            forall|i: int| 0 <= i < start ==> (h0[i] ==> #[trigger] seen@[i]),
        decreases n - start,
    {
        if !hole[start] || seen[start] {
            start = start + 1;
            continue;
        }
        let ghost s0 = seen@;
        let ghost hole_before = hole@;
        let mut component: Vec<usize> = Vec::new();
        let mut stack: Vec<usize> = Vec::new();
        stack.push(start);
        seen.set(start, true);
        proof {
            assert forall|i: int| 0 <= i < n && #[trigger] seen@[i] && !s0[i] implies (component@.contains(i as usize) || stack@.contains(i as usize)) by {
                assert(i == start);
                assert(stack@[0] == start);
            }
        }
        while stack.len() > 0
            invariant
                n == h0.len(),
                n % w == 0,
                w > 0,
                wn == w as nat,
                start < n,
                h0[start as int],
                !s0[start as int],
                hole@ == hole_before,
                hole@.len() == n,
                seen@.len() == n,
                s0.len() == n,
                seen@[start as int],
                forall|i: int| 0 <= i < n ==> (#[trigger] s0[i] ==> seen@[i]),
                forall|i: int| 0 <= i < n ==> (#[trigger] seen@[i] ==> h0[i]),
                forall|i: int, j: int|
                    0 <= i < n && #[trigger] s0[i] && adjacent(wn, n as nat, i, j) && h0[j] ==> #[trigger] s0[j],
                forall|i: int|
                    0 <= i < n && !#[trigger] seen@[i] ==> hole@[i] == h0[i],
                forall|a: int| 0 <= a < stack@.len() ==> #[trigger] stack@[a] < n && seen@[stack@[a] as int] && !s0[stack@[a] as int],
                forall|a: int| 0 <= a < component@.len() ==> #[trigger] component@[a] < n && seen@[component@[a] as int] && !s0[component@[a] as int],
                forall|a: int, b: int| 0 <= a < b < stack@.len() ==> #[trigger] stack@[a] != #[trigger] stack@[b],
                forall|a: int, b: int| 0 <= a < b < component@.len() ==> #[trigger] component@[a] != #[trigger] component@[b],
                forall|a: int, b: int| 0 <= a < component@.len() && 0 <= b < stack@.len() ==> #[trigger] component@[a] != #[trigger] stack@[b],
                forall|i: int| 0 <= i < n && #[trigger] seen@[i] && !s0[i] ==> (component@.contains(i as usize) || stack@.contains(i as usize)),
                component@.len() > 0 ==> component@[0] == start,
                component@.len() == 0 ==> stack@ == seq![start],
                forall|i: int, j: int|
                    0 <= i < n && #[trigger] seen@[i] && !stack@.contains(i as usize) && adjacent(wn, n as nat, i, j) && h0[j] ==> #[trigger] seen@[j],
                forall|i: int| 0 <= i < n && #[trigger] seen@[i] && !s0[i] && i != start ==> has_set_neighbour(h0, wn, i),
                (exists|i: int| 0 <= i < n && #[trigger] seen@[i] && !s0[i] && i != start) ==> has_set_neighbour(h0, wn, start as int),
            decreases 2 * count_unset(seen@) + stack@.len(),
        {
            let ghost full = stack@;
            let i = stack.pop().unwrap();
            let ghost popped = stack@;
            assert(full == popped.push(i));
            assert(full[popped.len() as int] == i);
            assert(!popped.contains(i)) by {
                if popped.contains(i) {
                    let a = choose|a: int| 0 <= a < popped.len() && popped[a] == i;
                    assert(full[a] == full[popped.len() as int]);
                }
            }
            assert forall|a: usize| !popped.contains(a) && a != i implies !full.contains(a) by {
                if full.contains(a) {
                    let kk = choose|kk: int| 0 <= kk < full.len() && full[kk] == a;
                    if kk < popped.len() {
                        assert(popped[kk] == a);
                    }
                }
            }
            let ghost comp0 = component@;
            if component.len() == 0 {
                assert(i == start);
            }
            component.push(i);
            assert forall|a: int, b: int| 0 <= a < b < component@.len() implies #[trigger] component@[a] != #[trigger] component@[b] by {
                if b == comp0.len() {
                    assert(component@[a] == comp0[a]);
                    assert(full[popped.len() as int] == i);
                }
            }
            assert forall|u: usize| comp0.contains(u) || full.contains(u) implies component@.contains(u) || popped.contains(u) by {
                if comp0.contains(u) {
                    let kk = choose|kk: int| 0 <= kk < comp0.len() && comp0[kk] == u;
                    assert(component@[kk] == u);
                } else {
                    let kk = choose|kk: int| 0 <= kk < full.len() && full[kk] == u;
                    if kk < popped.len() {
                        assert(popped[kk] == u);
                    } else {
                        assert(component@[comp0.len() as int] == u);
                    }
                }
            }
            let nbrs = neighbors(i, w, n);
            let mut t: usize = 0;
            let ghost before = 2 * count_unset(seen@) + popped.len();
            while t < nbrs.len()
                invariant
                    n == h0.len(),
                    n % w == 0,
                    w > 0,
                    wn == w as nat,
                    start < n,
                    i < n,
                    h0[start as int],
                    !s0[start as int],
                    hole@ == hole_before,
                    hole@.len() == n,
                    seen@.len() == n,
                    s0.len() == n,
                    seen@[start as int],
                    seen@[i as int],
                    !s0[i as int],
                    component@.len() > 0,
                    component@[0] == start,
                    component@.contains(i),
                    !stack@.contains(i),
                    t <= nbrs@.len(),
                    forall|k2: int| #![trigger nbrs@[k2]] 0 <= k2 < nbrs@.len() ==> adjacent(wn, n as nat, i as int, nbrs@[k2] as int),
                    forall|a: int| 0 <= a < n ==> (#[trigger] s0[a] ==> seen@[a]),
                    forall|a: int| 0 <= a < n ==> (#[trigger] seen@[a] ==> h0[a]),
                    forall|a: int, b: int|
                        0 <= a < n && #[trigger] s0[a] && adjacent(wn, n as nat, a, b) && h0[b] ==> #[trigger] s0[b],
                    forall|a: int| 0 <= a < n && !#[trigger] seen@[a] ==> hole@[a] == h0[a],
                    forall|a: int| 0 <= a < stack@.len() ==> #[trigger] stack@[a] < n && seen@[stack@[a] as int] && !s0[stack@[a] as int],
                    forall|a: int| 0 <= a < component@.len() ==> #[trigger] component@[a] < n && seen@[component@[a] as int] && !s0[component@[a] as int],
                    forall|a: int, b: int| 0 <= a < b < stack@.len() ==> #[trigger] stack@[a] != #[trigger] stack@[b],
                    forall|a: int, b: int| 0 <= a < b < component@.len() ==> #[trigger] component@[a] != #[trigger] component@[b],
                    forall|a: int, b: int| 0 <= a < component@.len() && 0 <= b < stack@.len() ==> #[trigger] component@[a] != #[trigger] stack@[b],
                    forall|a: int| 0 <= a < n && #[trigger] seen@[a] && !s0[a] ==> (component@.contains(a as usize) || stack@.contains(a as usize)),
                    forall|a: int, b: int|
                        0 <= a < n && #[trigger] seen@[a] && !stack@.contains(a as usize) && a != i && adjacent(wn, n as nat, a, b) && h0[b] ==> #[trigger] seen@[b],
                    forall|k2: int| #![trigger nbrs@[k2]] 0 <= k2 < t ==> (seen@[nbrs@[k2] as int] || !h0[nbrs@[k2] as int]),
                    forall|a: int| 0 <= a < n && #[trigger] seen@[a] && !s0[a] && a != start ==> has_set_neighbour(h0, wn, a),
                    (exists|a: int| 0 <= a < n && #[trigger] seen@[a] && !s0[a] && a != start) ==> has_set_neighbour(h0, wn, start as int),
                    2 * count_unset(seen@) + stack@.len() <= before,
                decreases nbrs@.len() - t,
            {
                let m = nbrs[t];
                if hole[m] && !seen[m] {
                    proof {
                        lemma_count_unset_set(seen@, m as int);
                        assert(adjacent(wn, n as nat, i as int, m as int));
                        lemma_adjacent_symmetric(wn, n as nat, i as int, m as int);
                        assert(h0[i as int]);
                        assert(has_set_neighbour(h0, wn, m as int));
                        if i != start {
                            assert(seen@[i as int] && !s0[i as int] && i != start);
                        } else {
                            assert(adjacent(wn, n as nat, start as int, m as int) && h0[m as int]);
                        }
                        assert(has_set_neighbour(h0, wn, start as int));
                        assert(!component@.contains(m)) by {
                            if component@.contains(m) {
                                let a = choose|a: int| 0 <= a < component@.len() && component@[a] == m;
                                assert(seen@[component@[a] as int]);
                            }
                        }
                        assert(!stack@.contains(m)) by {
                            if stack@.contains(m) {
                                let a = choose|a: int| 0 <= a < stack@.len() && stack@[a] == m;
                                assert(seen@[stack@[a] as int]);
                            }
                        }
                    }
                    let ghost st0 = stack@;
                    seen.set(m, true);
                    stack.push(m);
                    proof {
                        assert(stack@[st0.len() as int] == m);
                        assert forall|u: usize| st0.contains(u) implies stack@.contains(u) by {
                            let kk = choose|kk: int| 0 <= kk < st0.len() && st0[kk] == u;
                            assert(stack@[kk] == u);
                        }
                        assert forall|u: usize| !stack@.contains(u) implies !st0.contains(u) by {
                            if st0.contains(u) {
                                let kk = choose|kk: int| 0 <= kk < st0.len() && st0[kk] == u;
                                assert(stack@[kk] == u);
                            }
                        }
                        assert(stack@.contains(m));
                    }
                }
                t = t + 1;
            }
            proof {
                assert forall|a: int, b: int|
                    0 <= a < n && #[trigger] seen@[a] && !stack@.contains(a as usize) && adjacent(wn, n as nat, a, b) && h0[b]
                        implies #[trigger] seen@[b] by {
                    if a == i as int {
                        let k2 = choose|k2: int| #![trigger nbrs@[k2]] 0 <= k2 < nbrs@.len() && nbrs@[k2] == b;
                        assert(seen@[nbrs@[k2] as int] || !h0[nbrs@[k2] as int]);
                    }
                }
            }
        }
        proof {
            assert(forall|u: usize| !stack@.contains(u));
        }
        if component.len() < 2 {
            proof {
                assert(component@ =~= seq![start]);
                assert forall|j: int| adjacent(wn, n as nat, start as int, j) implies !h0[j] by {
                    if h0[j] {
                        assert(seen@[j]);
                        lemma_adjacent_symmetric(wn, n as nat, start as int, j);
                        if s0[j] {
                            assert(s0[start as int]);
                        }
                        assert(component@.contains(j as usize));
                        assert(j != start);
                    }
                }
                assert(!has_set_neighbour(h0, wn, start as int));
                assert forall|a: int| 0 <= a < n && #[trigger] seen@[a] && !s0[a] implies a == start by {
                    assert(component@.contains(a as usize));
                }
            }
            let mut e: usize = 0;
            while e < component.len()
                invariant
                    component@ == seq![start],
                    hole@.len() == n,
                    start < n,
                    e <= 1,
                    e == 1 ==> hole@ == hole_before.update(start as int, false),
                    e == 0 ==> hole@ == hole_before,
                decreases component@.len() - e,
            {
                hole.set(component[e], false);
                e = e + 1;
            }
        } else {
            proof {
                assert(component@[1] != component@[0]);
                let c1 = component@[1] as int;
                assert(seen@[c1] && !s0[c1] && c1 != start);
            }
        }
        proof {
            assert forall|i: int|
                0 <= i < n implies #[trigger] hole@[i] == (if seen@[i] {
                    h0[i] && has_set_neighbour(h0, wn, i)
                } else {
                    h0[i]
                }) by {
                if s0[i] {
                } else if seen@[i] {
                    assert(h0[i]);
                    if i != start {
                        assert(has_set_neighbour(h0, wn, i));
                    }
                }
            }
        }
        start = start + 1;
    }
    proof {
        assert(hole@ =~= without_specks(h0, wn));
    }
}

} // verus!
