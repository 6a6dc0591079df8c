use vstd::prelude::*;

use crate::lambda::{IsLambda, opt_val};
use crate::node::Kind;
use crate::sodium_ctx::{PreTrans, SodiumCtxData};

verus! {

/// What a send to a sink cell writes outside a transaction, the cell holds
/// afterwards (and `Cell::sample` reads it back).
pub proof fn law_send_then_value<V, F: IsLambda<V>>(a: &SodiumCtxData<V, F>, b: &SodiumCtxData<V, F>, id: usize, v: V)
    requires
        SodiumCtxData::sent(a, b, id, v),
        a.transaction_depth == 0,
        a.is_cell(id as int),
    ensures
        b.is_cell(id as int),
        b.val(id as int) == v,
{
    assert(b.nodes@[id as int].value is Some <==> a.nodes@[id as int].value is Some);
}

/// Inside a transaction a send is staged: every cell keeps the value it
/// holds until the transaction ends.
pub proof fn law_send_is_staged<V, F: IsLambda<V>>(a: &SodiumCtxData<V, F>, b: &SodiumCtxData<V, F>, id: usize, v: V, c: int)
    requires
        SodiumCtxData::sent(a, b, id, v),
        a.transaction_depth > 0,
        a.is_cell(c),
    ensures
        b.is_cell(c),
        b.val(c) == a.val(c),
{
    assert(b.nodes@[c].value == a.nodes@[c].value);
}

/// Closing an inner transaction changes nothing but the depth; closing the
/// outermost one leaves nothing dirty and no node with a new value.
pub proof fn law_transactions_nest<V, F: IsLambda<V>>(a: &SodiumCtxData<V, F>, b: &SodiumCtxData<V, F>)
    requires
        SodiumCtxData::ended(a, b),
        a.transaction_depth >= 1,
    ensures
        a.transaction_depth > 1 ==> b.nodes@ == a.nodes@ && b.events@ == a.events@,
        a.transaction_depth == 1 ==> b.quiet() && b.transaction_depth == 0,
{
}

/// Outside a transaction no stream fires: streams have values only within a
/// transaction.
pub proof fn law_streams_fire_only_in_transactions<V, F: IsLambda<V>>(b: &SodiumCtxData<V, F>, i: int)
    requires
        b.wf(),
        b.transaction_depth == 0,
        0 <= i < b.len(),
    ensures
        b.nx(i) is None,
{
    assert(b.nodes@[i].next is None);
}

/// A cell made by `map` holds its function of its source cell's value, and
/// a send to a sink outside any transaction keeps it so: after the send's own
/// transaction the map cell holds the function of the source's new value.
/// (Every map cell is due to follow its source, `map_staged`: `Cell::map`
/// makes it so, and the laws below show that the operations keep it so.)
pub proof fn law_map_follows_send<V, F: IsLambda<V>>(
    a: &SodiumCtxData<V, F>,
    b: &SodiumCtxData<V, F>,
    id: usize,
    v: V,
    m: int,
)
    requires
        a.wf(),
        a.transaction_depth == 0,
        a.nodes@[id as int].kind is Sink,
        SodiumCtxData::sent(a, b, id, v),
        a.map_ok(m),
        a.map_staged(m),
    ensures
        b.map_ok(m),
        b.map_staged(m),
{
    let s = choose|s: SodiumCtxData<V, F>| #[trigger] SodiumCtxData::staged(a, &s, id, v) && SodiumCtxData::propagated(&s, b);
    SodiumCtxData::lemma_map_staged_by_send(a, &s, id, v, m);
}

/// Inside a transaction, a send to a sink leaves every map cell that was due
/// to follow its source still due to, and holding the same values.
pub proof fn law_map_staged_by_send<V, F: IsLambda<V>>(
    a: &SodiumCtxData<V, F>,
    b: &SodiumCtxData<V, F>,
    id: usize,
    v: V,
    m: int,
)
    requires
        a.wf(),
        a.transaction_depth > 0,
        a.nodes@[id as int].kind is Sink,
        SodiumCtxData::sent(a, b, id, v),
        a.map_ok(m),
        a.map_staged(m),
    ensures
        b.map_ok(m),
        b.map_staged(m),
{
    SodiumCtxData::lemma_map_staged_by_send(a, b, id, v, m);
}

/// Opening a transaction keeps a map cell due to follow its source.
pub proof fn law_map_staged_at_start<V, F: IsLambda<V>>(a: &SodiumCtxData<V, F>, b: &SodiumCtxData<V, F>, m: int)
    requires
        a.wf(),
        SodiumCtxData::only_depth(a, b, a.transaction_depth + 1),
        a.map_ok(m),
        a.map_staged(m),
    ensures
        b.map_ok(m),
        b.map_staged(m),
{
}

/// Marking a node dirty (`Node::mark_dirty`) keeps every map cell due to
/// follow its source, holding the same values.
pub proof fn law_map_staged_by_mark<V, F: IsLambda<V>>(
    a: &SodiumCtxData<V, F>,
    b: &SodiumCtxData<V, F>,
    n: usize,
    marked: Seq<usize>,
    m: int,
)
    requires
        a.wf(),
        SodiumCtxData::same_but_queue(a, b),
        b.to_be_updated@ == a.to_be_updated@ + marked,
        forall|x: usize| #[trigger] marked.contains(x) <==> (x < a.len() && a.reaches(n, x)),
        a.map_ok(m),
        a.map_staged(m),
    ensures
        b.map_ok(m),
        b.map_staged(m),
{
    SodiumCtxData::lemma_map_staged_by_mark(a, b, n, marked, m);
}

/// A send to a sink stream keeps every map cell due to follow its source
/// and, the sink firing nothing, holding its function of its source's value.
pub proof fn law_map_staged_by_stream_send<V, F: IsLambda<V>>(
    a: &SodiumCtxData<V, F>,
    b: &SodiumCtxData<V, F>,
    id: usize,
    m: int,
)
    requires
        a.wf(),
        SodiumCtxData::pinged(a, b, id),
        a.map_ok(m),
        a.map_staged(m),
    ensures
        b.map_ok(m),
        b.map_staged(m),
{
    if a.transaction_depth > 0 {
        lemma_marked_keeps_map(a, b, id, m);
    } else {
        let s = choose|s: SodiumCtxData<V, F>| #[trigger] SodiumCtxData::marked(a, &s, id) && SodiumCtxData::propagated(&s, b);
        lemma_marked_keeps_map(a, &s, id, m);
    }
}

proof fn lemma_marked_keeps_map<V, F: IsLambda<V>>(a: &SodiumCtxData<V, F>, b: &SodiumCtxData<V, F>, id: usize, m: int)
    requires
        a.graph_wf(),
        SodiumCtxData::marked(a, b, id),
        a.map_ok(m),
        a.map_staged(m),
    ensures
        b.map_ok(m),
        b.map_staged(m),
{
    let qa = a.to_be_updated@;
    let qb = b.to_be_updated@;
    let marked = qb.subrange(qa.len() as int, qb.len() as int);
    assert(qb =~= qa + marked);
    SodiumCtxData::lemma_map_staged_by_mark(a, b, id, marked, m);
}

/// Making any node keeps every map cell due to follow its source, holding
/// the same values.
pub proof fn law_map_kept_by_new_node<V, F: IsLambda<V>>(
    a: &SodiumCtxData<V, F>,
    b: &SodiumCtxData<V, F>,
    kind: Kind<F>,
    deps: Seq<usize>,
    value: Option<std::rc::Rc<V>>,
    m: int,
)
    requires
        a.wf(),
        a.len() < usize::MAX,
        SodiumCtxData::added_but_pre(a, b, kind, deps, value),
        a.map_ok(m),
        a.map_staged(m),
    ensures
        b.map_ok(m),
        b.map_staged(m),
{
    SodiumCtxData::lemma_map_staged_by_new_node(a, b, kind, deps, value, m);
}

/// When the outermost transaction ends, a map cell that was due to follow its
/// source holds its function of the source's value (new or not), and is due
/// again (nothing is queued or new then).
pub proof fn law_map_follows_transaction<V, F: IsLambda<V>>(a: &SodiumCtxData<V, F>, b: &SodiumCtxData<V, F>, m: int)
    requires
        SodiumCtxData::ended(a, b),
        a.transaction_depth == 1,
        a.map_ok(m),
        a.map_staged(m),
    ensures
        b.map_ok(m),
        b.map_staged(m),
{
}

/// A send to a sink from a state where listener `l` is detached and not
/// dirty leaves it detached and not dirty (it reaches only what depends on
/// the sink).
pub proof fn law_send_skips_unlistened<V, F: IsLambda<V>>(
    a: &SodiumCtxData<V, F>,
    b: &SodiumCtxData<V, F>,
    id: usize,
    v: V,
    l: usize,
)
    requires
        a.wf(),
        a.transaction_depth > 0,
        a.nodes@[id as int].kind is Sink,
        SodiumCtxData::sent(a, b, id, v),
        l < a.len(),
        a.nodes@[l as int].kind is CellListener || a.nodes@[l as int].kind is StreamListener,
        a.detached(l),
        !a.to_be_updated@.contains(l),
    ensures
        b.detached(l),
        !b.to_be_updated@.contains(l),
        b.nodes@[l as int] == a.nodes@[l as int],
        b.nothing_queued_for(l) == a.nothing_queued_for(l),
{
    lemma_staged_skips(a, b, id, v, l);
}

/// What a send stages reaches no detached listener.
proof fn lemma_staged_skips<V, F: IsLambda<V>>(a: &SodiumCtxData<V, F>, s: &SodiumCtxData<V, F>, id: usize, v: V, l: usize)
    requires
        a.graph_wf(),
        a.nodes@[id as int].kind is Sink,
        SodiumCtxData::staged(a, s, id, v),
        l < a.len(),
        a.nodes@[l as int].kind is CellListener || a.nodes@[l as int].kind is StreamListener,
        a.detached(l),
        !a.to_be_updated@.contains(l),
    ensures
        s.len() == a.len(),
        s.detached(l),
        !s.to_be_updated@.contains(l),
        s.nodes@[l as int] == a.nodes@[l as int],
        s.pre_trans@ == a.pre_trans@,
        s.events@ == a.events@,
{
    let qa = a.to_be_updated@;
    let qb = s.to_be_updated@;
    assert(!qb.contains(l)) by {
        if qb.contains(l) {
            let w = choose|w: int| 0 <= w < qb.len() && qb[w] == l;
            if w < qa.len() {
                assert(qb.subrange(0, qa.len() as int)[w] == l);
            } else {
                assert(qb.subrange(qa.len() as int, qb.len() as int)[w - qa.len()] == l);
                assert(qb.subrange(qa.len() as int, qb.len() as int).contains(l));
                a.lemma_detached_unreached(l, id);
            }
        }
    }
    assert forall|j: int| 0 <= j < s.len() implies !(#[trigger] s.dependents(j)).contains(l) by {
        if j != id as int {
            assert(s.nodes@[j] == a.nodes@[j]);
        }
        assert(s.dependents(j) == a.dependents(j));
    }
}

/// Once a listener is detached (`Listener::unlisten`), a send outside any
/// transaction reports nothing more to it: the events it adds are for other
/// listeners, provided the report queued when it started listening is not
/// still waiting and the listener was not itself marked dirty.
pub proof fn law_unlistened_hears_nothing<V, F: IsLambda<V>>(
    a: &SodiumCtxData<V, F>,
    b: &SodiumCtxData<V, F>,
    id: usize,
    v: V,
    l: usize,
)
    requires
        a.wf(),
        a.transaction_depth == 0,
        a.len() <= usize::MAX,
        a.nodes@[id as int].kind is Sink,
        SodiumCtxData::sent(a, b, id, v),
        l < a.len(),
        a.nodes@[l as int].kind is CellListener || a.nodes@[l as int].kind is StreamListener,
        a.detached(l),
        !a.to_be_updated@.contains(l),
        a.nothing_queued_for(l),
    ensures
        SodiumCtxData::<V, F>::extended_without(a.events@, b.events@, l),
{
    let s = choose|s: SodiumCtxData<V, F>| #[trigger] SodiumCtxData::staged(a, &s, id, v) && SodiumCtxData::propagated(&s, b);
    lemma_staged_skips(a, &s, id, v, l);
    SodiumCtxData::lemma_propagated_without(&s, b, l);
}

/// When the outermost transaction ends, a detached listener that is not
/// dirty, and has nothing queued for it, is told nothing.
pub proof fn law_unlistened_hears_nothing_at_end<V, F: IsLambda<V>>(
    a: &SodiumCtxData<V, F>,
    b: &SodiumCtxData<V, F>,
    l: usize,
)
    requires
        SodiumCtxData::ended(a, b),
        a.transaction_depth == 1,
        a.len() <= usize::MAX,
        l < a.len(),
        a.nodes@[l as int].kind is CellListener || a.nodes@[l as int].kind is StreamListener,
        a.detached(l),
        !a.to_be_updated@.contains(l),
        a.nothing_queued_for(l),
    ensures
        SodiumCtxData::<V, F>::extended_without(a.events@, b.events@, l),
{
    SodiumCtxData::lemma_propagated_without(a, b, l);
}

/// A send to a sink stream fires nothing (the sink keeps no value): a cell
/// made by `hold` from that stream keeps its value through a send outside
/// any transaction.
pub proof fn law_hold_keeps_through_stream_send<V, F: IsLambda<V>>(
    a: &SodiumCtxData<V, F>,
    b: &SodiumCtxData<V, F>,
    id: usize,
    h: usize,
)
    requires
        a.wf(),
        a.transaction_depth == 0,
        a.len() <= usize::MAX,
        a.nodes@[id as int].kind is Sink,
        SodiumCtxData::pinged(a, b, id),
        h < a.len(),
        a.is_cell(h as int),
        a.nodes@[h as int].kind is Forward,
        a.deps(h as int) == seq![id],
    ensures
        b.is_cell(h as int),
        b.val(h as int) == a.val(h as int),
{
    let s = choose|s: SodiumCtxData<V, F>| #[trigger] SodiumCtxData::marked(a, &s, id) && SodiumCtxData::propagated(&s, b);
    assert(a.node_wf(h as int));
    assert(a.deps(h as int)[0] == id);
    assert(a.node_wf(id as int));
    let (s1, s2, s3) = choose|s1: SodiumCtxData<V, F>, s2: SodiumCtxData<V, F>, s3: SodiumCtxData<V, F>|
        #![trigger SodiumCtxData::pre_ran(&s, &s1), SodiumCtxData::updates_ran(&s1, &s2), SodiumCtxData::commit_ran(&s2, &s3)]
        SodiumCtxData::pre_ran(&s, &s1) && SodiumCtxData::updates_ran(&s1, &s2) && SodiumCtxData::commit_ran(&s2, &s3)
            && SodiumCtxData::deferred_ran(&s3, b);
    SodiumCtxData::lemma_updates_keep_dependents(&s1, &s2);
    SodiumCtxData::lemma_progress_same_graph(&s1, &s2, s1.to_be_updated@);
    assert(s2.nodes@[id as int].next == s1.nodes@[id as int].next) by {
        assert(SodiumCtxData::<V, F>::passive(s1.nodes@[id as int].kind));
    }
    assert(s2.nodes@[h as int].next is None) by {
        reveal(SodiumCtxData::progress_in);
        reveal(SodiumCtxData::computed_in);
        assert(s2.deps(h as int)[0] == id);
        if s1.to_be_updated@.contains(h) {
            assert(opt_val(s2.nodes@[h as int].next) == SodiumCtxData::computed_in(s2.nodes@, h as int));
        } else {
            assert(s2.nodes@[h as int] == s1.nodes@[h as int]);
        }
    }
    assert(s3.val(h as int) == a.val(h as int));
    let rounds = choose|rounds: Seq<SodiumCtxData<V, F>>|
        #[trigger] SodiumCtxData::rounds_ran(rounds) && rounds.len() >= 1 && rounds[0] == s3 && rounds.last() == *b;
    assert(s3.deps(h as int) == seq![id]);
    assert(s3.deps(id as int).len() == 0);
    SodiumCtxData::lemma_rounds_keep(rounds, h, id, rounds.len() - 1);
    assert(rounds[rounds.len() - 1] == *b);
}

/// What the updates of a transaction give each node that was dirty, from
/// the final new values of its inputs: a mapped stream fires `f` of what its
/// input fires, a filtered one what its input fires when the predicate holds,
/// `filter_option` `x` for each `Some(x)`, a hold (or `value`, `updates`)
/// what its input fires, a snapshot the sampled cells' values (with `f`
/// applied for `snapshot2`..`snapshot6`), and each fires nothing when its
/// input fires nothing; a lift takes `f` of its inputs' new values when all
/// of them have one. (What listeners are told and what splits and defers
/// leave for later are `report` and `deferral` of these final states, as
/// `updates_ran` says.)
pub proof fn law_update_rules<V, F: IsLambda<V>>(a: &SodiumCtxData<V, F>, b: &SodiumCtxData<V, F>, r: usize)
    requires
        SodiumCtxData::updates_ran(a, b),
        a.graph_wf(),
        a.len() <= usize::MAX,
        r < a.len(),
        a.to_be_updated@.contains(r),
    ensures
        b.nodes@[r as int].kind == a.nodes@[r as int].kind,
        match b.nodes@[r as int].kind {
            Kind::Apply { f } => b.nx(r as int) == match b.nx(b.deps(r as int)[0] as int) {
                Some(x) => Some(f.spec_apply(seq![x])),
                None => None,
            },
            Kind::Filter { f } => b.nx(r as int) == match b.nx(b.deps(r as int)[0] as int) {
                Some(x) => if f.spec_test(x) {
                    Some(x)
                } else {
                    None
                },
                None => None,
            },
            Kind::FilterOption => b.nx(r as int) == match b.nx(b.deps(r as int)[0] as int) {
                Some(x) => F::spec_as_option(x),
                None => None,
            },
            Kind::Forward => b.nx(r as int) == b.nx(b.deps(r as int)[0] as int),
            Kind::Snapshot { cell } => b.nx(r as int) == match b.nx(b.deps(r as int)[0] as int) {
                Some(_) => Some(b.val(cell as int)),
                None => None,
            },
            Kind::SnapshotWith { cells, f } => b.nx(r as int) == match b.nx(b.deps(r as int)[0] as int) {
                Some(x) => Some(f.spec_apply(seq![x] + b.vals(cells@))),
                None => None,
            },
            Kind::Lift { f } => b.nx(r as int) == if b.all_next(b.deps(r as int)) {
                Some(f.spec_apply(b.nexts(b.deps(r as int))))
            } else {
                None
            },
            _ => true,
        },
{
    reveal(SodiumCtxData::progress_in);
    reveal(SodiumCtxData::computed_in);
    assert(SodiumCtxData::progress(a, b, a.to_be_updated@));
    assert(b.nodes@[r as int].kind == a.nodes@[r as int].kind);
}

/// A cell made by `hold` takes, when the transaction ends, the value that
/// its stream fired in it, and keeps its value when the stream fired nothing.
pub proof fn law_hold_step<V, F: IsLambda<V>>(
    a: &SodiumCtxData<V, F>,
    b: &SodiumCtxData<V, F>,
    c: &SodiumCtxData<V, F>,
    h: usize,
)
    requires
        SodiumCtxData::updates_ran(a, b),
        SodiumCtxData::commit_ran(b, c),
        a.graph_wf(),
        a.len() <= usize::MAX,
        h < a.len(),
        a.is_cell(h as int),
        a.nodes@[h as int].kind is Forward,
        a.to_be_updated@.contains(h),
    ensures
        c.is_cell(h as int),
        c.val(h as int) == match b.nx(b.deps(h as int)[0] as int) {
            Some(x) => x,
            None => a.val(h as int),
        },
{
    law_update_rules(a, b, h);
    reveal(SodiumCtxData::progress_in);
    assert(SodiumCtxData::progress(a, b, a.to_be_updated@));
    assert(b.nodes@[h as int].value == a.nodes@[h as int].value);
}

/// In the updates of a transaction, a stream's listener is told exactly what
/// its stream fires in the transaction, or nothing when it fires nothing,
/// when it was marked dirty once; not marked, it is told nothing. (Marked
/// twice, by two sends in one transaction, it is told twice.)
pub proof fn law_stream_listener_hears<V, F: IsLambda<V>>(a: &SodiumCtxData<V, F>, b: &SodiumCtxData<V, F>, l: usize)
    requires
        SodiumCtxData::updates_ran(a, b),
        a.to_be_updated@.to_multiset().count(l) <= 1,
        b.nodes@[l as int].kind is StreamListener,
    ensures
        SodiumCtxData::<V, F>::heard(b.events@, l) == SodiumCtxData::<V, F>::heard(a.events@, l) + if a.to_be_updated@.contains(l) {
            match b.nx(b.deps(l as int)[0] as int) {
                Some(x) => seq![x],
                None => Seq::empty(),
            }
        } else {
            Seq::empty()
        },
{
    SodiumCtxData::lemma_stream_listener_hears(a, b, l);
}

/// The work queued before a propagation reports first, one event per item
/// and in order: a cell's listener (queued by `Cell::listen`) is told the
/// value that its cell holds when the propagation starts, every queued
/// listener, not only the first; what the updates report comes after.
pub proof fn law_queued_reports_first<V, F: IsLambda<V>>(a: &SodiumCtxData<V, F>, b: &SodiumCtxData<V, F>)
    requires
        SodiumCtxData::propagated(a, b),
    ensures
        b.events@.len() >= a.events@.len() + a.pre_trans@.len(),
        forall|j: int| 0 <= j < a.events@.len() ==> #[trigger] b.events@[j] == a.events@[j],
        forall|k: int|
            0 <= k < a.pre_trans@.len() ==> match #[trigger] a.pre_trans@[k] {
                PreTrans::Sample { listener, cell } => b.events@[a.events@.len() + k] == (
                    listener,
                    a.nodes@[cell as int].value.unwrap(),
                ),
                PreTrans::Emit { listener, value } => b.events@[a.events@.len() + k] == (listener, value),
            },
{
    SodiumCtxData::lemma_propagated_begins_with_pre(a, b);
    a.lemma_pre_events_each();
}

/// Running the queued work alone (`pre_ran`) reports exactly one event per
/// item, in order, after the events told before.
pub proof fn law_pre_ran_reports_each<V, F: IsLambda<V>>(a: &SodiumCtxData<V, F>, b: &SodiumCtxData<V, F>)
    requires
        SodiumCtxData::pre_ran(a, b),
    ensures
        b.events@.len() == a.events@.len() + a.pre_trans@.len(),
        forall|j: int| 0 <= j < a.events@.len() ==> #[trigger] b.events@[j] == a.events@[j],
        forall|k: int|
            0 <= k < a.pre_trans@.len() ==> match #[trigger] a.pre_trans@[k] {
                PreTrans::Sample { listener, cell } => b.events@[a.events@.len() + k] == (
                    listener,
                    a.nodes@[cell as int].value.unwrap(),
                ),
                PreTrans::Emit { listener, value } => b.events@[a.events@.len() + k] == (listener, value),
            },
{
    a.lemma_pre_events_each();
}

/// A send outside any transaction first reports the queued work: each cell
/// listener made since the last propagation is told its cell's value before
/// the send (in the order they were made), then come the updates' reports.
pub proof fn law_send_reports_queued_first<V, F: IsLambda<V>>(
    a: &SodiumCtxData<V, F>,
    b: &SodiumCtxData<V, F>,
    id: usize,
    v: V,
)
    requires
        a.wf(),
        a.transaction_depth == 0,
        SodiumCtxData::sent(a, b, id, v),
    ensures
        b.events@.len() >= a.events@.len() + a.pre_trans@.len(),
        forall|j: int| 0 <= j < a.events@.len() ==> #[trigger] b.events@[j] == a.events@[j],
        forall|k: int|
            0 <= k < a.pre_trans@.len() ==> match #[trigger] a.pre_trans@[k] {
                PreTrans::Sample { listener, cell } => b.events@[a.events@.len() + k] == (
                    listener,
                    a.nodes@[cell as int].value.unwrap(),
                ),
                PreTrans::Emit { listener, value } => b.events@[a.events@.len() + k] == (listener, value),
            },
{
    let s = choose|s: SodiumCtxData<V, F>| #[trigger] SodiumCtxData::staged(a, &s, id, v) && SodiumCtxData::propagated(&s, b);
    law_queued_reports_first(&s, b);
    assert forall|k: int| 0 <= k < a.pre_trans@.len() implies match #[trigger] a.pre_trans@[k] {
        PreTrans::Sample { listener, cell } => b.events@[a.events@.len() + k] == (
            listener,
            a.nodes@[cell as int].value.unwrap(),
        ),
        PreTrans::Emit { listener, value } => b.events@[a.events@.len() + k] == (listener, value),
    } by {
        assert(s.pre_trans@[k] == a.pre_trans@[k]);
        match a.pre_trans@[k] {
            PreTrans::Sample { listener, cell } => {
                assert(a.pre_wf(a.pre_trans@[k]));
                if cell == id {
                    assert(s.nodes@[id as int].value == a.nodes@[id as int].value);
                } else {
                    assert(s.nodes@[cell as int] == a.nodes@[cell as int]);
                }
            },
            _ => {},
        }
    }
}

} // verus!
