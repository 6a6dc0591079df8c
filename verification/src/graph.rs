use vstd::prelude::*;

use crate::sodium_ctx::SodiumCtxData;

verus! {

/// The indices below `n`.
pub open spec fn below(n: usize) -> Set<usize> {
    Set::new(|x: usize| x < n)
}

pub proof fn lemma_below(n: usize)
    ensures
        below(n).finite(),
        below(n).len() == n,
    decreases n,
{
    if n == 0 {
        assert(below(n) =~= Set::empty());
    } else {
        lemma_below((n - 1) as usize);
        assert(below((n - 1) as usize).insert((n - 1) as usize) =~= below(n));
    }
}

/// A list of distinct indices below `n` has at most `n` entries.
pub proof fn lemma_distinct_below(s: Seq<usize>, n: usize)
    requires
        s.no_duplicates(),
        forall|k: int| 0 <= k < s.len() ==> #[trigger] s[k] < n,
    ensures
        s.len() <= n,
{
    s.unique_seq_to_set();
    lemma_below(n);
    assert forall|x: usize| s.to_set().contains(x) implies below(n).contains(x) by {
        let k = choose|k: int| 0 <= k < s.len() && s[k] == x;
    }
    vstd::set_lib::lemma_len_subset(s.to_set(), below(n));
}

impl<V, F> SodiumCtxData<V, F> {
    /// `p` is a path in the graph that follows the dependents lists.
    pub open spec fn is_path(&self, p: Seq<usize>) -> bool {
        &&& p.len() >= 1
        &&& forall|k: int| 0 <= k < p.len() ==> #[trigger] p[k] < self.len()
        &&& forall|k: int|
            #![trigger p[k]]
            0 <= k < p.len() - 1 ==> self.dependents(p[k] as int).contains(p[k + 1])
    }

    /// Node `to` depends, directly or not, on node `from` (or is it): a change
    /// of `from` reaches `to`.
    pub open spec fn reaches(&self, from: usize, to: usize) -> bool {
        exists|p: Seq<usize>| #[trigger] self.is_path(p) && p[0] == from && p.last() == to
    }

    pub proof fn lemma_reaches_self(&self, n: usize)
        requires
            n < self.len(),
        ensures
            self.reaches(n, n),
    {
        let p = seq![n];
        assert(p[0] == n);
        assert(p.last() == n);
        assert(self.is_path(p) && p[0] == n && p.last() == n);
    }

    pub proof fn lemma_reaches_step(&self, n: usize, x: usize, y: usize)
        requires
            self.graph_wf(),
            self.reaches(n, x),
            x < self.len(),
            self.dependents(x as int).contains(y),
        ensures
            self.reaches(n, y),
    {
        let p = choose|p: Seq<usize>| #[trigger] self.is_path(p) && p[0] == n && p.last() == x;
        let q = p.push(y);
        assert(self.node_wf(x as int));
        let w = choose|w: int| 0 <= w < self.dependents(x as int).len() && self.dependents(x as int)[w] == y;
        assert(self.dependents(x as int)[w] < self.len());
        assert forall|k: int| 0 <= k < q.len() implies #[trigger] q[k] < self.len() by {
            if k < p.len() {
                assert(q[k] == p[k]);
            }
        }
        assert forall|k: int| #![trigger q[k]] 0 <= k < q.len() - 1 implies self.dependents(
            q[k] as int,
        ).contains(q[k + 1]) by {
            assert(q[k] == p[k]);
            if k < p.len() - 1 {
                assert(p[k + 1] == q[k + 1]);
            }
        }
        assert(self.is_path(q));
    }

    /// A set of nodes that holds `p[0]` and every dependent of its members
    /// holds the whole path.
    pub proof fn lemma_closed_holds_path(&self, s: Seq<usize>, p: Seq<usize>)
        requires
            self.is_path(p),
            s.contains(p[0]),
            forall|x: usize, y: usize|
                #[trigger] s.contains(x) && #[trigger] self.dependents(x as int).contains(y)
                    ==> s.contains(y),
        ensures
            s.contains(p.last()),
        decreases p.len(),
    {
        if p.len() > 1 {
            let q = p.drop_last();
            assert forall|k: int| 0 <= k < q.len() implies #[trigger] q[k] < self.len() by {
                assert(q[k] == p[k]);
            }
            assert forall|k: int| #![trigger q[k]] 0 <= k < q.len() - 1 implies self.dependents(
                q[k] as int,
            ).contains(q[k + 1]) by {
                assert(q[k] == p[k]);
                assert(p[k + 1] == q[k + 1]);
            }
            self.lemma_closed_holds_path(s, q);
            assert(q.last() == p[p.len() - 2]);
            assert(self.dependents(p[p.len() - 2] as int).contains(p[p.len() - 1]));
        }
    }

    /// Every field but `to_be_updated` of `a` and `b` agree.
    pub open spec fn same_but_queue(a: &Self, b: &Self) -> bool {
        &&& a.nodes@ == b.nodes@
        &&& a.transaction_depth == b.transaction_depth
        &&& a.pre_trans@ == b.pre_trans@
        &&& a.deferred@ == b.deferred@
        &&& a.events@ == b.events@
    }

    /// Queues for update, once each, exactly the nodes that a change of `n`
    /// reaches through the dependents lists, `n` among them. The order is the
    /// order of a depth-first walk; the ghost result lists them.
    pub fn mark_dirty(&mut self, n: usize) -> (marked: Ghost<Seq<usize>>)
        requires
            old(self).graph_wf(),
            n < old(self).len(),
        ensures
            final(self).to_be_updated@ == old(self).to_be_updated@ + marked@,
            marked@.no_duplicates(),
            forall|m: usize| #[trigger] marked@.contains(m) <==> (m < old(self).len() && old(self).reaches(n, m)),
            Self::same_but_queue(old(self), final(self)),
            final(self).graph_wf(),
    {
        let len = self.nodes.len();
        let mut visited: Vec<bool> = Vec::new();
        let mut i: usize = 0;
        while i < len
            invariant
                i <= len,
                visited@.len() == i,
                forall|j: int| 0 <= j < i ==> !(#[trigger] visited@[j]),
            decreases len - i,
        {
            visited.push(false);
            i = i + 1;
        }
        visited.set(n, true);
        let mut stack: Vec<usize> = Vec::new();
        stack.push(n);
        let ghost mut marked: Seq<usize> = Seq::empty();
        let ghost old_self = *self;
        proof {
            old_self.lemma_reaches_self(n);
            assert(self.to_be_updated@ + marked =~= self.to_be_updated@);
            assert(stack@ =~= seq![n]);
            assert forall|i: usize| i < len implies (#[trigger] visited@[i as int] <==> (marked.contains(i)
                    || stack@.contains(i))) by {
                if i == n {
                    assert(stack@[0] == n);
                }
            }
        }
        while stack.len() > 0
            invariant
                Self::same_but_queue(&old_self, self),
                self.to_be_updated@ == old_self.to_be_updated@ + marked,
                old_self.graph_wf(),
                len == old_self.len(),
                n < len,
                visited@.len() == len,
                forall|i: usize|
                    i < len ==> (#[trigger] visited@[i as int] <==> (marked.contains(i)
                        || stack@.contains(i))),
                marked.no_duplicates(),
                stack@.no_duplicates(),
                forall|a: int, b: int|
                    0 <= a < marked.len() && 0 <= b < stack@.len() ==> #[trigger] marked[a]
                        != #[trigger] stack@[b],
                forall|k: int|
                    0 <= k < marked.len() ==> #[trigger] marked[k] < len && old_self.reaches(
                        n,
                        marked[k],
                    ),
                forall|k: int|
                    0 <= k < stack@.len() ==> #[trigger] stack@[k] < len && old_self.reaches(
                        n,
                        stack@[k],
                    ),
                forall|x: usize, y: usize|
                    #[trigger] marked.contains(x) && #[trigger] old_self.dependents(x as int).contains(y)
                        ==> y < len && visited@[y as int],
                visited@[n as int],
            decreases len - marked.len(),
        {
            proof {
                let both = marked + stack@;
                assert forall|k: int| 0 <= k < both.len() implies #[trigger] both[k] < len by {
                    if k < marked.len() {
                        assert(both[k] == marked[k]);
                    } else {
                        assert(both[k] == stack@[k - marked.len()]);
                    }
                }
                vstd::seq_lib::lemma_no_dup_in_concat(marked, stack@);
                lemma_distinct_below(both, len);
            }
            let ghost old_stack = stack@;
            let x = stack.pop().unwrap();
            self.to_be_updated.push(x);
            let ghost old_marked = marked;
            proof {
                marked = marked.push(x);
                assert(old_stack[old_stack.len() - 1] == x);
                assert(stack@ =~= old_stack.drop_last());
                assert(self.to_be_updated@ =~= old_self.to_be_updated@ + marked);
                assert(x < len);
                assert(old_self.node_wf(x as int));
                assert forall|k: int| 0 <= k < old_marked.len() implies old_marked[k] != x by {
                    assert(old_stack[old_stack.len() - 1] == x);
                }
                assert forall|a: int, b: int| 0 <= a < marked.len() && 0 <= b < stack@.len() implies
                    #[trigger] marked[a] != #[trigger] stack@[b] by {
                    assert(stack@[b] == old_stack[b]);
                    if a < old_marked.len() {
                        assert(marked[a] == old_marked[a]);
                    } else {
                        assert(old_stack[old_stack.len() - 1] == x);
                    }
                }
                assert forall|i: usize| i < len implies (#[trigger] visited@[i as int] <==> (marked.contains(i)
                        || stack@.contains(i))) by {
                    if old_stack.contains(i) {
                        let w = choose|w: int| 0 <= w < old_stack.len() && old_stack[w] == i;
                        if w < old_stack.len() - 1 {
                            assert(stack@[w] == i);
                        } else {
                            assert(marked[marked.len() - 1] == i);
                        }
                    }
                    if old_marked.contains(i) {
                        let w = choose|w: int| 0 <= w < old_marked.len() && old_marked[w] == i;
                        assert(marked[w] == i);
                    }
                    if marked.contains(i) {
                        let w = choose|w: int| 0 <= w < marked.len() && marked[w] == i;
                        if w < old_marked.len() {
                            assert(old_marked[w] == i);
                        } else {
                            assert(old_stack[old_stack.len() - 1] == i);
                        }
                    }
                    if stack@.contains(i) {
                        let w = choose|w: int| 0 <= w < stack@.len() && stack@[w] == i;
                        assert(old_stack[w] == i);
                    }
                }
                assert forall|x2: usize, y: usize|
                    #[trigger] marked.contains(x2) && #[trigger] old_self.dependents(x2 as int).contains(y)
                        && x2 != x implies y < len && visited@[y as int] by {
                    let w = choose|w: int| 0 <= w < marked.len() && marked[w] == x2;
                    assert(old_marked[w] == x2);
                }
                assert forall|k: int| 0 <= k < marked.len() implies #[trigger] marked[k] < len && old_self.reaches(n, marked[k]) by {
                    if k < old_marked.len() {
                        assert(marked[k] == old_marked[k]);
                    }
                }
            }
            let cnt = self.nodes[x].dependents.len();
            let mut k: usize = 0;
            while k < cnt
                invariant
                    Self::same_but_queue(&old_self, self),
                    self.to_be_updated@ == old_self.to_be_updated@ + marked,
                    old_self.graph_wf(),
                    len == old_self.len(),
                    n < len,
                    x < len,
                    k <= cnt,
                    cnt == old_self.dependents(x as int).len(),
                    old_self.reaches(n, x),
                    marked.len() > 0,
                    marked.last() == x,
                    visited@.len() == len,
                    forall|i: usize|
                        i < len ==> (#[trigger] visited@[i as int] <==> (marked.contains(i)
                            || stack@.contains(i))),
                    marked.no_duplicates(),
                    stack@.no_duplicates(),
                    forall|a: int, b: int|
                        0 <= a < marked.len() && 0 <= b < stack@.len() ==> #[trigger] marked[a]
                            != #[trigger] stack@[b],
                    forall|k: int|
                        0 <= k < marked.len() ==> #[trigger] marked[k] < len && old_self.reaches(
                            n,
                            marked[k],
                        ),
                    forall|k: int|
                        0 <= k < stack@.len() ==> #[trigger] stack@[k] < len && old_self.reaches(
                            n,
                            stack@[k],
                        ),
                    forall|x2: usize, y: usize|
                        #[trigger] marked.contains(x2) && #[trigger] old_self.dependents(x2 as int).contains(y)
                            && x2 != x ==> y < len && visited@[y as int],
                    forall|j: int| 0 <= j < k ==> visited@[#[trigger] old_self.dependents(x as int)[j] as int],
                    visited@[n as int],
                decreases cnt - k,
            {
                let y = self.nodes[x].dependents[k];
                proof {
                    assert(old_self.node_wf(x as int));
                    assert(y < len);
                }
                if !visited[y] {
                    let ghost st = stack@;
                    visited.set(y, true);
                    stack.push(y);
                    proof {
                        assert(old_self.dependents(x as int).contains(y));
                        old_self.lemma_reaches_step(n, x, y);
                        assert(!marked.contains(y));
                        assert(!st.contains(y));
                        assert forall|a: int, b: int| 0 <= a < marked.len() && 0 <= b < stack@.len() implies
                            #[trigger] marked[a] != #[trigger] stack@[b] by {
                            if b < st.len() {
                                assert(stack@[b] == st[b]);
                            } else {
                                assert(marked.contains(marked[a]));
                            }
                        }
                        assert forall|i: usize| i < len implies (#[trigger] visited@[i as int] <==> (marked.contains(i)
                                || stack@.contains(i))) by {
                            if st.contains(i) {
                                let w = choose|w: int| 0 <= w < st.len() && st[w] == i;
                                assert(stack@[w] == i);
                            }
                            if stack@.contains(i) {
                                let w = choose|w: int| 0 <= w < stack@.len() && stack@[w] == i;
                                if w < st.len() {
                                    assert(st[w] == i);
                                }
                            }
                            if i == y {
                                assert(stack@[stack@.len() - 1] == y);
                            }
                        }
                        assert forall|k2: int| 0 <= k2 < stack@.len() implies #[trigger] stack@[k2] < len && old_self.reaches(
                                n, stack@[k2]) by {
                            if k2 < st.len() {
                                assert(stack@[k2] == st[k2]);
                            }
                        }
                    }
                }
                k = k + 1;
            }
            proof {
                assert forall|x2: usize, y: usize|
                    #[trigger] marked.contains(x2) && #[trigger] old_self.dependents(x2 as int).contains(y)
                        implies y < len && visited@[y as int] by {
                    if x2 == x {
                        let j = choose|j: int| 0 <= j < old_self.dependents(x as int).len()
                            && old_self.dependents(x as int)[j] == y;
                        assert(visited@[old_self.dependents(x as int)[j] as int]);
                    }
                }
            }
        }
        proof {
            assert forall|x2: usize, y: usize|
                #[trigger] marked.contains(x2) && #[trigger] old_self.dependents(x2 as int).contains(y)
                    implies marked.contains(y) by {
                assert(visited@[y as int]);
            }
            assert(marked.contains(n));
            assert forall|m: usize| #[trigger] marked.contains(m) <==> (m < len && old_self.reaches(n, m)) by {
                if marked.contains(m) {
                    let w = choose|w: int| 0 <= w < marked.len() && marked[w] == m;
                }
                if m < len && old_self.reaches(n, m) {
                    let p = choose|p: Seq<usize>| #[trigger] old_self.is_path(p) && p[0] == n && p.last() == m;
                    old_self.lemma_closed_holds_path(marked, p);
                }
            }
            assert forall|k: int|
                0 <= k < self.to_be_updated@.len() implies #[trigger] self.to_be_updated@[k] < self.len() by {
                if k < old_self.to_be_updated@.len() {
                    assert(self.to_be_updated@[k] == old_self.to_be_updated@[k]);
                } else {
                    assert(self.to_be_updated@[k] == marked[k - old_self.to_be_updated@.len()]);
                }
            }
            Self::lemma_same_graph_wf(&old_self, self);
        }
        Ghost(marked)
    }

    /// The list `s` without the entries `id`.
    pub open spec fn without(s: Seq<usize>, id: usize) -> Seq<usize> {
        s.filter(Self::not_id(id))
    }

    /// The entries other than `id`.
    pub open spec fn not_id(id: usize) -> spec_fn(usize) -> bool {
        |x: usize| x != id
    }

    /// `s` without the entries `id`, computed.
    fn remove_all(s: &Vec<usize>, id: usize) -> (r: Vec<usize>)
        ensures
            r@ == Self::without(s@, id),
    {
        let mut r: Vec<usize> = Vec::new();
        let mut m: usize = 0;
        proof {
            assert(s@.take(0) =~= Seq::<usize>::empty());
            assert(Seq::<usize>::empty().filter(Self::not_id(id)) =~= Seq::<usize>::empty()) by {
                reveal(Seq::filter);
            }
        }
        while m < s.len()
            invariant
                m <= s@.len(),
                r@ == Self::without(s@.take(m as int), id),
            decreases s@.len() - m,
        {
            let x = s[m];
            proof {
                assert(s@.take(m + 1) =~= s@.take(m as int).push(x));
                s@.take(m as int).lemma_filter_push(x, Self::not_id(id));
            }
            if x != id {
                r.push(x);
            }
            m = m + 1;
        }
        proof {
            assert(s@.take(s@.len() as int) =~= s@);
        }
        r
    }

    /// Detaches node `id` from the graph: it is no longer alive and no longer
    /// a dependent of anything, so no change reaches it any more.
    pub fn detach(&mut self, id: usize)
        requires
            old(self).graph_wf(),
            id < old(self).len(),
        ensures
            final(self).graph_wf(),
            final(self).len() == old(self).len(),
            forall|j: int|
                0 <= j < old(self).len() ==> {
                    &&& (#[trigger] final(self).nodes@[j]).dependents@ == Self::without(old(self).dependents(j), id)
                    &&& final(self).nodes@[j].rank == old(self).nodes@[j].rank
                    &&& final(self).nodes@[j].kind == old(self).nodes@[j].kind
                    &&& final(self).nodes@[j].dependencies@ == old(self).nodes@[j].dependencies@
                    &&& final(self).nodes@[j].value == old(self).nodes@[j].value
                    &&& final(self).nodes@[j].next == old(self).nodes@[j].next
                    &&& final(self).nodes@[j].alive == (old(self).nodes@[j].alive && j != id)
                },
            final(self).transaction_depth == old(self).transaction_depth,
            final(self).to_be_updated@ == old(self).to_be_updated@,
            final(self).pre_trans@ == old(self).pre_trans@,
            final(self).deferred@ == old(self).deferred@,
            final(self).events@ == old(self).events@,
    {
        let ghost start = *self;
        self.nodes[id].alive = false;
        let mut j: usize = 0;
        while j < self.nodes.len()
            invariant
                j <= self.len(),
                self.len() == start.len(),
                id < start.len(),
                forall|i: int|
                    0 <= i < start.len() ==> {
                        &&& (#[trigger] self.nodes@[i]).dependents@ == (if i < j {
                            Self::without(start.dependents(i), id)
                        } else {
                            start.dependents(i)
                        })
                        &&& self.nodes@[i].rank == start.nodes@[i].rank
                        &&& self.nodes@[i].kind == start.nodes@[i].kind
                        &&& self.nodes@[i].dependencies@ == start.nodes@[i].dependencies@
                        &&& self.nodes@[i].value == start.nodes@[i].value
                        &&& self.nodes@[i].next == start.nodes@[i].next
                        &&& self.nodes@[i].alive == (start.nodes@[i].alive && i != id)
                    },
                self.transaction_depth == start.transaction_depth,
                self.to_be_updated@ == start.to_be_updated@,
                self.pre_trans@ == start.pre_trans@,
                self.deferred@ == start.deferred@,
                self.events@ == start.events@,
            decreases start.len() - j,
        {
            let kept = Self::remove_all(&self.nodes[j].dependents, id);
            self.nodes[j].dependents = kept;
            j = j + 1;
        }
        proof {
            assert forall|i: int| 0 <= i < self.len() implies #[trigger] self.node_wf(i) by {
                assert(start.node_wf(i));
                let nd = self.nodes@[i].dependents@;
                let od = start.dependents(i);
                assert forall|k: int| 0 <= k < nd.len() implies {
                    &&& #[trigger] nd[k] < self.len()
                    &&& self.deps(nd[k] as int).contains(i as usize)
                } by {
                    assert(nd.contains(nd[k]));
                    od.lemma_filter_contains_rev(Self::not_id(id), nd[k]);
                    let w = choose|w: int| 0 <= w < od.len() && od[w] == nd[k];
                }
                if self.nodes@[i].alive {
                    assert forall|k: int| 0 <= k < self.deps(i).len() implies
                        self.dependents(#[trigger] self.deps(i)[k] as int).contains(i as usize) by {
                        let d = self.deps(i)[k] as int;
                        assert(start.dependents(d).contains(i as usize));
                        let w = choose|w: int| 0 <= w < start.dependents(d).len() && start.dependents(d)[w] == i as usize;
                        start.dependents(d).lemma_filter_contains(Self::not_id(id), w);
                    }
                }
                assert forall|c: int| 0 <= c < self.len() implies (Self::cell_in(self.nodes@, c) == Self::cell_in(start.nodes@, c)) by {}
            }
        }
    }

    /// Ranks go up along the graph: a node that a change of another reaches,
    /// other than that node itself, has a higher rank. So updating in rank
    /// order updates a node after everything it depends on.
    pub proof fn lemma_reach_raises_rank(&self, n: usize, m: usize)
        requires
            self.graph_wf(),
            self.reaches(n, m),
            n != m,
        ensures
            self.rank(n as int) < self.rank(m as int),
    {
        let p = choose|p: Seq<usize>| #[trigger] self.is_path(p) && p[0] == n && p.last() == m;
        self.lemma_path_rank(p);
    }

    proof fn lemma_path_rank(&self, p: Seq<usize>)
        requires
            self.graph_wf(),
            self.is_path(p),
        ensures
            self.rank(p[0] as int) <= self.rank(p.last() as int),
            p[0] != p.last() ==> self.rank(p[0] as int) < self.rank(p.last() as int),
        decreases p.len(),
    {
        if p.len() > 1 {
            let q = p.drop_last();
            assert forall|k: int| 0 <= k < q.len() implies #[trigger] q[k] < self.len() by {
                assert(q[k] == p[k]);
            }
            assert forall|k: int| #![trigger q[k]] 0 <= k < q.len() - 1 implies self.dependents(
                q[k] as int,
            ).contains(q[k + 1]) by {
                assert(q[k] == p[k]);
                assert(p[k + 1] == q[k + 1]);
            }
            self.lemma_path_rank(q);
            let a = p[p.len() - 2];
            let b = p[p.len() - 1];
            assert(self.dependents(a as int).contains(b));
            assert(self.node_wf(a as int));
            let w = choose|w: int| 0 <= w < self.dependents(a as int).len() && self.dependents(a as int)[w] == b;
            assert(self.deps(b as int).contains(a));
            assert(self.node_wf(b as int));
            let v = choose|v: int| 0 <= v < self.deps(b as int).len() && self.deps(b as int)[v] == a;
            assert(self.rank(a as int) < self.rank(b as int));
        }
    }

    /// A node that no dependents list holds is reached by no change but its
    /// own: once a listener is detached, marking other nodes dirty never
    /// queues it again.
    pub proof fn lemma_detached_unreached(&self, id: usize, n: usize)
        requires
            forall|j: int| 0 <= j < self.len() ==> !(#[trigger] self.dependents(j)).contains(id),
            self.reaches(n, id),
        ensures
            n == id,
    {
        let p = choose|p: Seq<usize>| #[trigger] self.is_path(p) && p[0] == n && p.last() == id;
        if p.len() > 1 {
            let a = p[p.len() - 2];
            assert(self.dependents(a as int).contains(p[p.len() - 1]));
            assert(a < self.len());
            assert(false);
        }
    }

    /// Two graphs with the same dependents lists have the same paths, so a
    /// change of one node reaches the same nodes in both.
    pub proof fn lemma_reaches_same(a: &Self, b: &Self)
        requires
            a.len() == b.len(),
            forall|j: int| 0 <= j < a.len() ==> (#[trigger] a.dependents(j)) == b.dependents(j),
        ensures
            forall|from: usize, to: usize| #[trigger] a.reaches(from, to) == b.reaches(from, to),
    {
        assert forall|p: Seq<usize>| a.is_path(p) <==> b.is_path(p) by {
            if a.is_path(p) {
                assert forall|k: int| #![trigger p[k]] 0 <= k < p.len() - 1 implies b.dependents(p[k] as int).contains(p[k + 1]) by {
                    assert(a.dependents(p[k] as int) == b.dependents(p[k] as int));
                }
            }
            if b.is_path(p) {
                assert forall|k: int| #![trigger p[k]] 0 <= k < p.len() - 1 implies a.dependents(p[k] as int).contains(p[k + 1]) by {
                    assert(a.dependents(p[k] as int) == b.dependents(p[k] as int));
                }
            }
        }
        assert forall|from: usize, to: usize| #[trigger] a.reaches(from, to) == b.reaches(from, to) by {
            if a.reaches(from, to) {
                let p = choose|p: Seq<usize>| #[trigger] a.is_path(p) && p[0] == from && p.last() == to;
                assert(b.is_path(p));
            }
            if b.reaches(from, to) {
                let p = choose|p: Seq<usize>| #[trigger] b.is_path(p) && p[0] == from && p.last() == to;
                assert(a.is_path(p));
            }
        }
    }

    /// A change of `n` reaches another node only through one of its
    /// dependencies.
    pub proof fn lemma_reach_last_edge(&self, n: usize, x: usize) -> (d: usize)
        requires
            self.graph_wf(),
            self.reaches(n, x),
            n != x,
        ensures
            self.deps(x as int).contains(d),
            self.reaches(n, d),
    {
        let p = choose|p: Seq<usize>| #[trigger] self.is_path(p) && p[0] == n && p.last() == x;
        let q = p.drop_last();
        let d = p[p.len() - 2];
        assert(self.dependents(d as int).contains(p[p.len() - 1]));
        assert(self.node_wf(d as int));
        let w = choose|w: int| 0 <= w < self.dependents(d as int).len() && self.dependents(d as int)[w] == x;
        assert forall|k: int| 0 <= k < q.len() implies #[trigger] q[k] < self.len() by {
            assert(q[k] == p[k]);
        }
        assert forall|k: int| #![trigger q[k]] 0 <= k < q.len() - 1 implies self.dependents(q[k] as int).contains(q[k + 1]) by {
            assert(q[k] == p[k]);
            assert(p[k + 1] == q[k + 1]);
        }
        assert(self.is_path(q) && q[0] == n && q.last() == d);
        d
    }
}

} // verus!
