//! Reachability over a set of links between numbered vertices.
use vstd::prelude::*;

verus! {

/// Whether every link joins two vertices below `n`.
pub open spec fn within(links: Seq<(usize, usize)>, n: usize) -> bool {
    forall|i: int| 0 <= i < links.len() ==> (#[trigger] links[i]).0 < n && links[i].1 < n
}

/// Links followed in both directions.
pub open spec fn both_ways(links: Set<(usize, usize)>) -> Set<(usize, usize)> {
    Set::new(|e: (usize, usize)| links.contains(e) || links.contains((e.1, e.0)))
}

/// The links that survive the death of `cut`.
pub open spec fn spared(links: Set<(usize, usize)>, cut: usize) -> Set<(usize, usize)> {
    Set::new(|e: (usize, usize)| links.contains(e) && e.0 != cut && e.1 != cut)
}

/// Whether the `i`-th vertex of `w` is linked to the next.
pub open spec fn step(links: Set<(usize, usize)>, w: Seq<usize>, i: int) -> bool {
    links.contains((w[i], w[i + 1]))
}

/// Whether each vertex of `w` is linked to the next.
pub open spec fn is_walk(links: Set<(usize, usize)>, w: Seq<usize>) -> bool {
    &&& w.len() > 0
    &&& forall|i: int| 0 <= i < w.len() - 1 ==> #[trigger] step(links, w, i)
}

/// Whether `w` leads from `a` to `b`.
pub open spec fn leads(links: Set<(usize, usize)>, w: Seq<usize>, a: usize, b: usize) -> bool {
    is_walk(links, w) && w[0] == a && w.last() == b
}

/// Whether a walk leads from `a` to `b`; every vertex reaches itself.
pub open spec fn reaches(links: Set<(usize, usize)>, a: usize, b: usize) -> bool {
    exists|w: Seq<usize>| leads(links, w, a, b)
}

/// Whether the links, followed in either direction, join `a` and `b`.
pub open spec fn connected(links: Set<(usize, usize)>, a: usize, b: usize) -> bool {
    reaches(both_ways(links), a, b)
}

/// Whether a walk of at least one step leads from some vertex back to it.
pub open spec fn has_cycle(links: Set<(usize, usize)>) -> bool {
    exists|w: Seq<usize>| #[trigger] is_walk(links, w) && w.len() >= 2 && w[0] == w.last()
}

/// Whether the death of `c` separates two other vertices that were connected.
pub open spec fn separates(links: Set<(usize, usize)>, c: usize, a: usize, b: usize) -> bool {
    &&& a != c
    &&& b != c
    &&& connected(links, a, b)
    &&& !connected(spared(links, c), a, b)
}

/// Whether the death of `c` separates some two other vertices.
pub open spec fn is_cut(links: Set<(usize, usize)>, c: usize) -> bool {
    exists|a: usize, b: usize| separates(links, c, a, b)
}

/// Every vertex reaches itself.
pub proof fn lemma_reaches_self(links: Set<(usize, usize)>, a: usize)
    ensures
        reaches(links, a, a),
{
    assert(leads(links, seq![a], a, a));
}

/// A link is a walk of one step.
pub proof fn lemma_reaches_link(links: Set<(usize, usize)>, a: usize, b: usize)
    requires
        links.contains((a, b)),
    ensures
        reaches(links, a, b),
{
    assert(leads(links, seq![a, b], a, b));
}

/// Walks join end to end.
pub proof fn lemma_reaches_transitive(links: Set<(usize, usize)>, a: usize, b: usize, c: usize)
    requires
        reaches(links, a, b),
        reaches(links, b, c),
    ensures
        reaches(links, a, c),
{
    let v = choose|v: Seq<usize>| leads(links, v, a, b);
    let w = choose|w: Seq<usize>| leads(links, w, b, c);
    let u = v + w.drop_first();
    assert forall|i: int| 0 <= i < u.len() - 1 implies #[trigger] step(
        links,
        u,
        i,
    ) by {
        if i < v.len() - 1 {
            assert(step(links, v, i));
            assert(u[i] == v[i] && u[i + 1] == v[i + 1]);
        } else {
            let k = i - (v.len() - 1);
            assert(step(links, w, k));
            assert(u[i] == w[k]);
            assert(u[i + 1] == w[k + 1]);
        }
    }
    assert(u.last() == c) by {
        if w.len() == 1 {
            assert(w[0] == b && w.last() == c);
            assert(u =~= v);
        }
    }
    assert(leads(links, u, a, c));
}

/// A walk along the links is one along the links in either direction.
pub proof fn lemma_reaches_is_connected(links: Set<(usize, usize)>, a: usize, b: usize)
    requires
        reaches(links, a, b),
    ensures
        connected(links, a, b),
{
    let both = both_ways(links);
    let w = choose|w: Seq<usize>| leads(links, w, a, b);
    assert forall|i: int| 0 <= i < w.len() - 1 implies #[trigger] step(both, w, i) by {
        assert(step(links, w, i));
    }
    assert(leads(both, w, a, b));
}

/// Followed in both directions, walks can be walked back.
pub proof fn lemma_connected_symmetric(links: Set<(usize, usize)>, a: usize, b: usize)
    requires
        connected(links, a, b),
    ensures
        connected(links, b, a),
{
    let both = both_ways(links);
    let w = choose|w: Seq<usize>| leads(both, w, a, b);
    let r = w.reverse();
    assert forall|i: int| 0 <= i < r.len() - 1 implies #[trigger] step(
        both,
        r,
        i,
    ) by {
        let k = w.len() - 2 - i;
        assert(step(both, w, k));
        assert(r[i] == w[k + 1] && r[i + 1] == w[k]);
    }
    assert(leads(both, r, b, a));
}

/// A set closed under the links holds whatever its members reach.
proof fn lemma_closed(links: Set<(usize, usize)>, inside: spec_fn(usize) -> bool, w: Seq<usize>)
    requires
        is_walk(links, w),
        inside(w[0]),
        forall|e: (usize, usize)| #[trigger] links.contains(e) && inside(e.0) ==> inside(e.1),
    ensures
        inside(w.last()),
    decreases w.len(),
{
    if w.len() > 1 {
        let v = w.drop_last();
        assert forall|i: int| 0 <= i < v.len() - 1 implies #[trigger] step(
        links,
        v,
        i,
    ) by {
            assert(step(links, w, i));
            assert(v[i] == w[i] && v[i + 1] == w[i + 1]);
        }
        lemma_closed(links, inside, v);
        assert(step(links, w, w.len() - 2));
    }
}

/// How many of the first `n` marks are unset.
spec fn unmarked(marks: Seq<bool>, n: int) -> nat
    decreases n,
{
    if n <= 0 {
        0
    } else {
        unmarked(marks, n - 1) + (if marks[n - 1] {
            0nat
        } else {
            1nat
        })
    }
}

proof fn lemma_mark(marks: Seq<bool>, v: int, n: int)
    requires
        0 <= v < marks.len(),
        0 <= n <= marks.len(),
        !marks[v],
    ensures
        unmarked(marks.update(v, true), n) == unmarked(marks, n) - (if v < n {
            1int
        } else {
            0int
        }),
    decreases n,
{
    if n > 0 {
        lemma_mark(marks, v, n - 1);
    }
}

/// The vertices below `n` that `start` reaches over `links`.
pub fn reach(links: &Vec<(usize, usize)>, n: usize, start: usize) -> (marks: Vec<bool>)
    requires
        start < n,
        within(links@, n),
    ensures
        marks@.len() == n,
        forall|v: int|
            0 <= v < n ==> (#[trigger] marks@[v]) == reaches(links@.to_set(), start, v as usize),
{
    let ghost set = links@.to_set();
    let mut marks: Vec<bool> = Vec::new();
    let mut i: usize = 0;
    while i < n
        invariant
            i <= n,
            marks@.len() == i,
            start < n,
            forall|v: int| 0 <= v < i ==> (#[trigger] marks@[v]) == (v == start),
        decreases n - i,
    {
        marks.push(i == start);
        i += 1;
    }
    proof {
        lemma_reaches_self(set, start);
    }
    let mut grown = true;
    while grown
        invariant
            set == links@.to_set(),
            start < n,
            marks@.len() == n,
            marks@[start as int],
            within(links@, n),
            forall|v: int|
                0 <= v < n && (#[trigger] marks@[v]) ==> reaches(set, start, v as usize),
            !grown ==> forall|i: int|
                0 <= i < links@.len() && marks@[(#[trigger] links@[i]).0 as int]
                    ==> marks@[links@[i].1 as int],
        decreases unmarked(marks@, n as int), grown as int,
    {
        let ghost before = marks@;
        grown = false;
        let mut k: usize = 0;
        while k < links.len()
            invariant
                set == links@.to_set(),
                start < n,
                k <= links@.len(),
                marks@.len() == n,
                marks@[start as int],
                within(links@, n),
                forall|v: int|
                    0 <= v < n && (#[trigger] marks@[v]) ==> reaches(set, start, v as usize),
                !grown ==> marks@ == before,
                !grown ==> forall|i: int|
                    0 <= i < k && marks@[(#[trigger] links@[i]).0 as int]
                        ==> marks@[links@[i].1 as int],
                grown ==> unmarked(marks@, n as int) < unmarked(before, n as int),
                unmarked(marks@, n as int) <= unmarked(before, n as int),
            decreases links@.len() - k,
        {
            let (from, to) = links[k];
            if marks[from] && !marks[to] {
                proof {
                    assert(set.contains(links@[k as int]));
                    lemma_reaches_link(set, from, to);
                    lemma_reaches_transitive(set, start, from, to);
                    lemma_mark(marks@, to as int, n as int);
                }
                marks.set(to, true);
                grown = true;
            }
            k += 1;
        }
    }
    proof {
        let inside = |x: usize| x < n && marks@[x as int];
        assert forall|v: int| 0 <= v < n && reaches(set, start, v as usize) implies (
        #[trigger] marks@[v]) by {
            let end = v as usize;
            let w = choose|w: Seq<usize>| leads(set, w, start, end);
            assert forall|e: (usize, usize)| #[trigger] set.contains(e) && inside(e.0) implies inside(
                e.1,
            ) by {
                let i = links@.index_of(e);
                assert(links@.contains(e));
                assert(links@[i] == e);
            }
            lemma_closed(set, inside, w);
        }
    }
    marks
}

/// The links of `links` and their reverses.
pub fn mirrored(links: &Vec<(usize, usize)>) -> (r: Vec<(usize, usize)>)
    ensures
        r@.to_set() =~= both_ways(links@.to_set()),
        forall|n: usize| within(links@, n) ==> #[trigger] within(r@, n),
{
    let mut r: Vec<(usize, usize)> = Vec::new();
    let mut k: usize = 0;
    while k < links.len()
        invariant
            k <= links@.len(),
            r@.len() == 2 * k,
            forall|i: int| 0 <= i < k ==> r@[2 * i] == links@[i],
            forall|i: int|
                0 <= i < k ==> r@[2 * i + 1] == (links@[i].1, (#[trigger] links@[i]).0),
        decreases links@.len() - k,
    {
        let (a, b) = links[k];
        let ghost before = r@;
        r.push((a, b));
        r.push((b, a));
        proof {
            assert forall|i: int| 0 <= i < k implies r@[2 * i] == links@[i] by {
                assert(r@[2 * i] == before[2 * i]);
            }
            assert forall|i: int| 0 <= i < k implies r@[2 * i + 1] == (
                links@[i].1,
                (#[trigger] links@[i]).0,
            ) by {
                assert(r@[2 * i + 1] == before[2 * i + 1]);
            }
        }
        k += 1;
    }
    proof {
        assert forall|e: (usize, usize)| #[trigger] r@.to_set().contains(e) <==> both_ways(
            links@.to_set(),
        ).contains(e) by {
            if r@.contains(e) {
                let j = r@.index_of(e);
                let i = j / 2;
                assert(j == 2 * i || j == 2 * i + 1);
                if j == 2 * i {
                    assert(links@[i] == e);
                } else {
                    assert(links@[i] == (e.1, e.0));
                }
            }
            if links@.contains(e) {
                let i = links@.index_of(e);
                assert(r@[2 * i] == e);
            }
            if links@.contains((e.1, e.0)) {
                let i = links@.index_of((e.1, e.0));
                assert(r@[2 * i + 1] == e) by {
                    assert(links@[i] == (e.1, e.0));
                }
            }
        }
        assert forall|n: usize| within(links@, n) implies #[trigger] within(r@, n) by {
            assert forall|j: int| 0 <= j < r@.len() implies (#[trigger] r@[j]).0 < n && r@[j].1
                < n by {
                let i = j / 2;
                assert(j == 2 * i || j == 2 * i + 1);
                assert(links@[i].0 < n && links@[i].1 < n);
            }
        }
    }
    r
}

/// The links that survive the death of `cut`, in order.
pub fn survivors(links: &Vec<(usize, usize)>, cut: usize) -> (r: Vec<(usize, usize)>)
    ensures
        r@.to_set() =~= spared(links@.to_set(), cut),
        forall|i: int| 0 <= i < r@.len() ==> links@.contains(#[trigger] r@[i]),
{
    let mut r: Vec<(usize, usize)> = Vec::new();
    let mut k: usize = 0;
    while k < links.len()
        invariant
            k <= links@.len(),
            forall|e: (usize, usize)| #[trigger]
                r@.contains(e) <==> links@.take(k as int).contains(e) && e.0 != cut && e.1 != cut,
        decreases links@.len() - k,
    {
        let (a, b) = links[k];
        let ghost before = r@;
        if a != cut && b != cut {
            r.push((a, b));
        }
        proof {
            let next = links@.take(k as int + 1);
            assert forall|e: (usize, usize)| #[trigger] r@.contains(e) <==> next.contains(e) && e.0
                != cut && e.1 != cut by {
                assert(next.contains(e) <==> links@.take(k as int).contains(e) || e == (a, b)) by {
                    if links@.take(k as int).contains(e) {
                        let i = links@.take(k as int).index_of(e);
                        assert(next[i] == e);
                    }
                    if e == (a, b) {
                        assert(next[k as int] == e);
                    }
                    if next.contains(e) && e != (a, b) {
                        let i = next.index_of(e);
                        assert(links@.take(k as int)[i] == e);
                    }
                }
                if a != cut && b != cut {
                    assert(r@.contains(e) <==> before.contains(e) || e == (a, b)) by {
                        if before.contains(e) {
                            let i = before.index_of(e);
                            assert(r@[i] == e);
                        }
                        if e == (a, b) {
                            assert(r@[before.len() as int] == e);
                        }
                        if r@.contains(e) && e != (a, b) {
                            let i = r@.index_of(e);
                            assert(before[i] == e);
                        }
                    }
                }
            }
        }
        k += 1;
    }
    proof {
        assert(links@.take(k as int) =~= links@);
        assert forall|i: int| 0 <= i < r@.len() implies links@.contains(#[trigger] r@[i]) by {
            assert(r@.contains(r@[i]));
        }
    }
    r
}

/// Whether some walk leads back to where it began.
pub fn cyclic(links: &Vec<(usize, usize)>, n: usize) -> (r: bool)
    requires
        within(links@, n),
    ensures
        r == has_cycle(links@.to_set()),
{
    let ghost set = links@.to_set();
    let mut k: usize = 0;
    while k < links.len()
        invariant
            set == links@.to_set(),
            k <= links@.len(),
            within(links@, n),
            forall|i: int|
                0 <= i < k ==> !reaches(set, (#[trigger] links@[i]).1, links@[i].0),
        decreases links@.len() - k,
    {
        let (a, b) = links[k];
        assert(links@[k as int].0 < n && links@[k as int].1 < n);
        let marks = reach(links, n, b);
        if marks[a] {
            proof {
                let w = choose|w: Seq<usize>| leads(set, w, b, a);
                let u = seq![a] + w;
                assert(set.contains(links@[k as int]));
                assert forall|i: int| 0 <= i < u.len() - 1 implies #[trigger] step(
        set,
        u,
        i,
    ) by {
                    if i > 0 {
                        assert(step(set, w, i - 1));
                        assert(u[i] == w[i - 1] && u[i + 1] == w[i - 1 + 1]);
                    }
                }
                assert(u.last() == a);
                assert(is_walk(set, u));
            }
            return true;
        }
        k += 1;
    }
    proof {
        if has_cycle(set) {
            let w = choose|w: Seq<usize>| #[trigger]
                is_walk(set, w) && w.len() >= 2 && w[0] == w.last();
            let first: int = 0;
            assert(step(set, w, first));
            let e = (w[0], w[1]);
            assert(links@.contains(e));
            let i = links@.index_of(e);
            let v = w.drop_first();
            assert forall|j: int| 0 <= j < v.len() - 1 implies #[trigger] step(
        set,
        v,
        j,
    ) by {
                assert(step(set, w, j + 1));
                assert(v[j] == w[j + 1] && v[j + 1] == w[j + 1 + 1]);
            }
            assert(leads(set, v, w[1], w[0]));
            assert(!reaches(set, links@[i].1, links@[i].0));
        }
    }
    false
}

/// A walk between two vertices that avoids `c` survives its death.
proof fn lemma_avoiding(links: Set<(usize, usize)>, c: usize, w: Seq<usize>)
    requires
        is_walk(both_ways(links), w),
        !w.contains(c),
    ensures
        connected(spared(links, c), w[0], w.last()),
{
    let both = both_ways(spared(links, c));
    assert forall|i: int| 0 <= i < w.len() - 1 implies #[trigger] step(
        both,
        w,
        i,
    ) by {
        assert(step(both_ways(links), w, i));
        assert(w.contains(w[i]) && w.contains(w[i + 1]));
    }
    assert(leads(both, w, w[0], w.last()));
}

/// Where the death of `c` separates two vertices, it separates two of its
/// neighbours.
proof fn lemma_neighbours_separated(links: Set<(usize, usize)>, c: usize, a: usize, b: usize) -> (ends: (
    usize,
    usize,
))
    requires
        separates(links, c, a, b),
    ensures
        both_ways(links).contains((c, ends.0)),
        both_ways(links).contains((c, ends.1)),
        ends.0 != c,
        ends.1 != c,
        !connected(spared(links, c), ends.0, ends.1),
{
    let both = both_ways(links);
    let rest = spared(links, c);
    let w = choose|w: Seq<usize>| leads(both, w, a, b);
    if !w.contains(c) {
        lemma_avoiding(links, c, w);
    }
    let i = w.index_of_first(c)->0;
    w.index_of_first_ensures(c);
    assert(w[i] == c);
    assert(forall|k: int| 0 <= k < i ==> w[k] != c);
    let j = w.index_of_last(c)->0;
    w.index_of_last_ensures(c);
    assert(w[j] == c);
    assert(forall|k: int| j < k < w.len() ==> w[k] != c);
    let head = w.take(i);
    let tail = w.skip(j + 1);
    assert forall|k: int| 0 <= k < head.len() - 1 implies #[trigger] step(
        both,
        head,
        k,
    ) by {
        assert(step(both, w, k));
        assert(head[k] == w[k] && head[k + 1] == w[k + 1]);
    }
    assert forall|k: int| 0 <= k < tail.len() - 1 implies #[trigger] step(
        both,
        tail,
        k,
    ) by {
        assert(step(both, w, j + 1 + k));
        assert(tail[k] == w[j + 1 + k] && tail[k + 1] == w[j + 1 + k + 1]);
    }
    lemma_avoiding(links, c, head);
    lemma_avoiding(links, c, tail);
    let p = w[i - 1];
    let q = w[j + 1];
    assert(head.last() == p);
    assert(tail[0] == q);
    assert(tail.last() == b);
    assert(step(both, w, i - 1));
    assert(step(both, w, j));
    if connected(rest, p, q) {
        lemma_reaches_transitive(both_ways(rest), a, p, q);
        lemma_reaches_transitive(both_ways(rest), a, q, b);
    }
    (p, q)
}

/// Whether the death of `c` separates two vertices that were connected.
pub fn cuts(links: &Vec<(usize, usize)>, n: usize, c: usize) -> (r: bool)
    requires
        c < n,
        within(links@, n),
    ensures
        r == is_cut(links@.to_set(), c),
{
    let ghost set = links@.to_set();
    let both = mirrored(links);
    let rest = survivors(links, c);
    proof {
        assert forall|i: int| 0 <= i < rest@.len() implies (#[trigger] rest@[i]).0 < n && rest@[i].1
            < n by {
            let k = links@.index_of(rest@[i]);
            assert(links@[k] == rest@[i]);
        }
    }
    let rest_both = mirrored(&rest);
    let ghost rest_set = spared(set, c);
    proof {
        assert(rest_both@.to_set() == both_ways(rest_set));
        assert(both@.to_set() == both_ways(set));
    }
    let mut first: Option<usize> = None;
    let mut marks: Vec<bool> = Vec::new();
    let mut k: usize = 0;
    while k < both.len()
        invariant
            c < n,
            k <= both@.len(),
            set == links@.to_set(),
            rest_set == spared(set, c),
            both@.to_set() == both_ways(set),
            rest_both@.to_set() == both_ways(rest_set),
            within(both@, n),
            within(rest_both@, n),
            match first {
                None => forall|i: int|
                    0 <= i < k ==> !((#[trigger] both@[i]).0 == c && both@[i].1 != c),
                Some(f) => {
                    &&& f < n
                    &&& f != c
                    &&& both_ways(set).contains((c, f))
                    &&& marks@.len() == n
                    &&& forall|v: int|
                        0 <= v < n ==> (#[trigger] marks@[v]) == connected(rest_set, f, v as usize)
                    &&& forall|i: int|
                        0 <= i < k && (#[trigger] both@[i]).0 == c && both@[i].1 != c ==> connected(
                            rest_set,
                            f,
                            both@[i].1,
                        )
                },
            },
        decreases both@.len() - k,
    {
        let (from, to) = both[k];
        assert(both@[k as int].0 < n && both@[k as int].1 < n);
        if from == c && to != c {
            proof {
                assert(both@.to_set().contains(both@[k as int]));
            }
            match first {
                None => {
                    marks = reach(&rest_both, n, to);
                    first = Some(to);
                    proof {
                        lemma_reaches_self(both_ways(rest_set), to);
                    }
                },
                Some(f) => {
                    if !marks[to] {
                        proof {
                            let b = both_ways(set);
                            assert(b.contains((f, c))) by {
                                assert(b.contains((c, f)));
                            }
                            lemma_reaches_link(b, f, c);
                            lemma_reaches_link(b, c, to);
                            lemma_reaches_transitive(b, f, c, to);
                            assert(separates(set, c, f, to));
                        }
                        return true;
                    }
                },
            }
        }
        k += 1;
    }
    proof {
        if is_cut(set, c) {
            let (a, b) = choose|a: usize, b: usize| separates(set, c, a, b);
            let (p, q) = lemma_neighbours_separated(set, c, a, b);
            assert(both@.to_set().contains((c, p)) && both@.to_set().contains((c, q)));
            let i = both@.index_of((c, p));
            let j = both@.index_of((c, q));
            assert(both@[i] == (c, p));
            assert(both@[j] == (c, q));
            let f = first->0;
            assert(connected(rest_set, f, p));
            assert(connected(rest_set, f, q));
            lemma_connected_symmetric(rest_set, f, p);
            lemma_reaches_transitive(both_ways(rest_set), p, f, q);
        }
    }
    false
}

/// The death of a vertex takes exactly its own links away; following links both ways
/// adds exactly their reverses.
pub proof fn law_what_a_death_takes_away(links: Set<(usize, usize)>, cut: usize, a: usize, b: usize)
    ensures
        spared(links, cut).contains((a, b)) <==> links.contains((a, b)) && a != cut && b != cut,
        both_ways(links).contains((a, b)) <==> links.contains((a, b)) || links.contains((b, a)),
{
}

/// A vertex is reached from another exactly if it is that vertex, or is reached from one
/// that the other has a link to.
pub proof fn law_reaching_goes_link_by_link(links: Set<(usize, usize)>, a: usize, b: usize)
    ensures
        reaches(links, a, b) <==> a == b || exists|x: usize| #[trigger]
            links.contains((a, x)) && reaches(links, x, b),
{
    if a == b {
        lemma_reaches_self(links, a);
    }
    if exists|x: usize| #[trigger] links.contains((a, x)) && reaches(links, x, b) {
        let x = choose|x: usize| #[trigger] links.contains((a, x)) && reaches(links, x, b);
        lemma_reaches_link(links, a, x);
        lemma_reaches_transitive(links, a, x, b);
    }
    if reaches(links, a, b) && a != b {
        let w = choose|w: Seq<usize>| leads(links, w, a, b);
        let first: int = 0;
        assert(step(links, w, first));
        let x = w[1];
        let v = w.drop_first();
        assert forall|j: int| 0 <= j < v.len() - 1 implies #[trigger] step(links, v, j) by {
            assert(step(links, w, j + 1));
            assert(v[j] == w[j + 1] && v[j + 1] == w[j + 1 + 1]);
        }
        assert(leads(links, v, x, b));
        assert(links.contains((a, x)));
    }
}

/// What is reached stays among what is closed under the links: nothing is reached that
/// no link leads to.
pub proof fn law_nothing_else_is_reached(
    links: Set<(usize, usize)>,
    inside: spec_fn(usize) -> bool,
    a: usize,
    b: usize,
)
    requires
        inside(a),
        forall|e: (usize, usize)| #[trigger] links.contains(e) && inside(e.0) ==> inside(e.1),
        reaches(links, a, b),
    ensures
        inside(b),
{
    let w = choose|w: Seq<usize>| leads(links, w, a, b);
    lemma_closed(links, inside, w);
}

/// There is a cycle exactly if some link leads to a vertex from which its beginning is
/// reached.
pub proof fn law_a_cycle_comes_back(links: Set<(usize, usize)>)
    ensures
        has_cycle(links) <==> exists|a: usize, b: usize| #[trigger]
            links.contains((a, b)) && reaches(links, b, a),
{
    if has_cycle(links) {
        let w = choose|w: Seq<usize>| #[trigger]
            is_walk(links, w) && w.len() >= 2 && w[0] == w.last();
        let first: int = 0;
        assert(step(links, w, first));
        let v = w.drop_first();
        assert forall|j: int| 0 <= j < v.len() - 1 implies #[trigger] step(links, v, j) by {
            assert(step(links, w, j + 1));
            assert(v[j] == w[j + 1] && v[j + 1] == w[j + 1 + 1]);
        }
        assert(leads(links, v, w[1], w[0]));
        assert(links.contains((w[0], w[1])));
    }
    if exists|a: usize, b: usize| #[trigger] links.contains((a, b)) && reaches(links, b, a) {
        let (a, b) = choose|a: usize, b: usize| #[trigger]
            links.contains((a, b)) && reaches(links, b, a);
        let w = choose|w: Seq<usize>| leads(links, w, b, a);
        let u = seq![a] + w;
        assert forall|i: int| 0 <= i < u.len() - 1 implies #[trigger] step(links, u, i) by {
            if i > 0 {
                assert(step(links, w, i - 1));
                assert(u[i] == w[i - 1] && u[i + 1] == w[i - 1 + 1]);
            }
        }
        assert(u.last() == a);
        assert(is_walk(links, u));
    }
}

/// A vertex is a single point of failure exactly if its death parts two others that were
/// joined before.
pub proof fn law_a_cut_parts_two_others(links: Set<(usize, usize)>, c: usize)
    ensures
        is_cut(links, c) <==> exists|a: usize, b: usize|
            a != c && b != c && #[trigger] reaches(both_ways(links), a, b) && !reaches(
                both_ways(spared(links, c)),
                a,
                b,
            ),
{
    if is_cut(links, c) {
        let (a, b) = choose|a: usize, b: usize| separates(links, c, a, b);
        assert(reaches(both_ways(links), a, b));
    }
    if exists|a: usize, b: usize|
        a != c && b != c && #[trigger] reaches(both_ways(links), a, b) && !reaches(
            both_ways(spared(links, c)),
            a,
            b,
        ) {
        let (a, b) = choose|a: usize, b: usize|
            a != c && b != c && #[trigger] reaches(both_ways(links), a, b) && !reaches(
                both_ways(spared(links, c)),
                a,
                b,
            );
        assert(separates(links, c, a, b));
    }
}

} // verus!
