use lib::cell::Cell;
use lib::cell_sink::CellSink;
use lib::is_cell::IsCell;
use lib::is_stream::IsStream;
use lib::lambda::IsLambda;
use lib::latch::Latch;
use lib::listener::Listener;
use lib::memo_lazy::MemoLazy;
use lib::node::{Node, WeakNode};
use lib::operational::Operational;
use lib::sodium_ctx::SodiumCtx;
use lib::stream::Stream;
use lib::stream_sink::StreamSink;
use std::rc::Rc;

#[derive(Clone, Copy, Debug, PartialEq)]
enum Op {
    Add(i64),
    Mul(i64),
    Sum,
    Prod,
    Even,
    Positive,
    Digits,
}

impl IsLambda<i64> for Op {
    fn apply(&self, args: &Vec<Rc<i64>>) -> i64 {
        match self {
            Op::Add(k) => *args[0] + k,
            Op::Mul(k) => *args[0] * k,
            Op::Sum => args.iter().map(|a| **a).sum(),
            Op::Prod => args.iter().map(|a| **a).product(),
            _ => *args[0],
        }
    }

    fn test(&self, a: &i64) -> bool {
        match self {
            Op::Even => a % 2 == 0,
            Op::Positive => *a > 0,
            _ => true,
        }
    }

    fn as_option(a: &i64) -> Option<i64> {
        if *a > 0 {
            Some(*a)
        } else {
            None
        }
    }

    fn split(&self, a: &i64) -> Vec<i64> {
        match self {
            Op::Digits => a.to_string().chars().map(|c| c as i64 - '0' as i64).collect(),
            _ => vec![*a],
        }
    }
}

type Ctx = SodiumCtx<i64, Op>;

fn seen(ctx: &mut Ctx, l: &Listener) -> Vec<i64> {
    ctx.take_events().into_iter().filter(|(n, _)| *n == l.node.id).map(|(_, v)| *v).collect()
}

/// A stream that fires each value sent: the updates of a sink cell.
struct Source {
    cell: CellSink,
    stream: Stream,
}

impl Source {
    fn send(&self, ctx: &mut Ctx, v: i64) {
        self.cell.send(ctx, v);
    }

    fn to_stream(&self) -> Stream {
        self.stream
    }
}

fn source(ctx: &mut Ctx) -> Source {
    let cell = ctx.new_cell_sink(0);
    let stream = Operational::updates(ctx, cell.to_cell());
    Source { cell, stream }
}

#[test]
fn cell_sink_send_then_sample() {
    let mut ctx: Ctx = SodiumCtx::new();
    let c = CellSink::new(&mut ctx, 1);
    assert_eq!(*c.to_cell().sample(&mut ctx), 1);
    c.send(&mut ctx, 5);
    assert_eq!(*c.to_cell().sample(&mut ctx), 5);
    assert_eq!(*c.to_cell().sample_no_trans(&ctx), 5);
}

#[test]
fn send_inside_transaction_is_staged() {
    let mut ctx: Ctx = SodiumCtx::new();
    let c = ctx.new_cell_sink(1);
    ctx.start_transaction();
    c.send(&mut ctx, 7);
    assert_eq!(*c.to_cell().sample_no_trans(&ctx), 1);
    c.send(&mut ctx, 9);
    assert_eq!(*c.to_cell().sample_no_trans(&ctx), 1);
    ctx.end_transaction();
    assert_eq!(*c.to_cell().sample_no_trans(&ctx), 9);
}

#[test]
fn nested_transactions_propagate_at_the_outermost_end() {
    let mut ctx: Ctx = SodiumCtx::new();
    let s = source(&mut ctx);
    let l = s.to_stream().listen(&mut ctx);
    ctx.start_transaction();
    ctx.start_transaction();
    s.send(&mut ctx, 3);
    ctx.end_transaction();
    assert_eq!(seen(&mut ctx, &l), Vec::<i64>::new());
    ctx.end_transaction();
    assert_eq!(seen(&mut ctx, &l), vec![3]);
}

#[test]
fn transaction_closure() {
    let mut ctx: Ctx = SodiumCtx::new();
    let s = source(&mut ctx);
    let l = s.to_stream().listen(&mut ctx);
    let r = ctx.transaction(|c: &mut Ctx| {
        s.send(c, 1);
        s.send(c, 2);
        42
    });
    assert_eq!(r, 42);
    // Each send marks the listener dirty once more; each update reports the
    // value fired, the last one sent.
    assert_eq!(seen(&mut ctx, &l), vec![2, 2]);
}

#[test]
fn cell_map_follows_its_source() {
    let mut ctx: Ctx = SodiumCtx::new();
    let c = ctx.new_cell_sink(3);
    let m = c.to_cell().map(&mut ctx, Op::Mul(10));
    assert_eq!(*m.sample(&mut ctx), 30);
    c.send(&mut ctx, 4);
    assert_eq!(*m.sample(&mut ctx), 40);
}

#[test]
fn cell_map_follows_its_source_across_a_transaction() {
    let mut ctx: Ctx = SodiumCtx::new();
    let c = ctx.new_cell_sink(3);
    let m = c.to_cell().map(&mut ctx, Op::Add(1));
    let mm = m.map(&mut ctx, Op::Mul(2));
    ctx.start_transaction();
    c.send(&mut ctx, 5);
    c.send(&mut ctx, 7);
    assert_eq!(*m.sample_no_trans(&ctx), 4);
    assert_eq!(*mm.sample_no_trans(&ctx), 8);
    ctx.end_transaction();
    assert_eq!(*m.sample_no_trans(&ctx), 8);
    assert_eq!(*mm.sample_no_trans(&ctx), 16);
}

#[test]
fn map_made_inside_a_transaction_follows_its_source() {
    let mut ctx: Ctx = SodiumCtx::new();
    let c = ctx.new_cell_sink(3);
    ctx.start_transaction();
    c.send(&mut ctx, 5);
    let m = c.to_cell().map(&mut ctx, Op::Add(1));
    let mm = m.map(&mut ctx, Op::Mul(2));
    assert_eq!(*m.sample_no_trans(&ctx), 4);
    ctx.end_transaction();
    assert_eq!(*m.sample_no_trans(&ctx), 6);
    assert_eq!(*mm.sample_no_trans(&ctx), 12);
    c.send(&mut ctx, 7);
    assert_eq!(*m.sample_no_trans(&ctx), 8);
    assert_eq!(*mm.sample_no_trans(&ctx), 16);
}

#[test]
fn stream_map_made_inside_a_transaction_fires_in_it() {
    let mut ctx: Ctx = SodiumCtx::new();
    let s = source(&mut ctx);
    ctx.start_transaction();
    s.send(&mut ctx, 5);
    let doubled = s.to_stream().map(&mut ctx, Op::Mul(2));
    let l = doubled.listen(&mut ctx);
    ctx.end_transaction();
    assert_eq!(seen(&mut ctx, &l), vec![10]);
}

#[test]
fn mark_dirty_outside_a_transaction_queues_for_the_next() {
    let mut ctx: Ctx = SodiumCtx::new();
    let a = ctx.new_cell_sink(1);
    let b = a.to_cell().map(&mut ctx, Op::Add(1));
    let _ = Node { id: a.node.id }.mark_dirty(&mut ctx);
    let mut queued = ctx.data.to_be_updated.clone();
    queued.sort();
    assert_eq!(queued, vec![a.node.id, b.node.id]);
    a.send(&mut ctx, 5);
    assert!(ctx.data.to_be_updated.is_empty());
    assert_eq!(*b.sample_no_trans(&ctx), 6);
}

#[test]
fn cell_listen_reports_current_then_changes() {
    let mut ctx: Ctx = SodiumCtx::new();
    let c = ctx.new_cell_sink(6);
    let l = c.to_cell().listen(&mut ctx);
    assert_eq!(seen(&mut ctx, &l), Vec::<i64>::new());
    c.send(&mut ctx, 8);
    assert_eq!(seen(&mut ctx, &l), vec![6, 8]);
    l.unlisten(&mut ctx);
    c.send(&mut ctx, 9);
    assert_eq!(seen(&mut ctx, &l), Vec::<i64>::new());
}

#[test]
fn unlistened_stream_listener_hears_nothing_more() {
    let mut ctx: Ctx = SodiumCtx::new();
    let s = source(&mut ctx);
    let l = s.to_stream().listen(&mut ctx);
    let parts = Operational::split(&mut ctx, s.to_stream(), Op::Digits);
    let l2 = parts.listen(&mut ctx);
    s.send(&mut ctx, 12);
    let evs = ctx.take_events();
    let heard: Vec<i64> = evs.iter().filter(|(n, _)| *n == l.node.id).map(|(_, v)| **v).collect();
    let heard2: Vec<i64> = evs.iter().filter(|(n, _)| *n == l2.node.id).map(|(_, v)| **v).collect();
    assert_eq!(heard, vec![12]);
    assert_eq!(heard2, vec![1, 2]);
    l.unlisten(&mut ctx);
    s.send(&mut ctx, 34);
    let evs = ctx.take_events();
    let heard: Vec<i64> = evs.iter().filter(|(n, _)| *n == l.node.id).map(|(_, v)| **v).collect();
    let heard2: Vec<i64> = evs.iter().filter(|(n, _)| *n == l2.node.id).map(|(_, v)| **v).collect();
    assert_eq!(heard, Vec::<i64>::new());
    assert_eq!(heard2, vec![3, 4]);
}

#[test]
fn diamond_is_glitch_free() {
    let mut ctx: Ctx = SodiumCtx::new();
    let a = ctx.new_cell_sink(1);
    let b = a.to_cell().map(&mut ctx, Op::Add(1));
    let c = a.to_cell().map(&mut ctx, Op::Mul(2));
    let d = b.lift2(&mut ctx, c, Op::Sum);
    assert_eq!(*d.sample(&mut ctx), 4);
    let l = Operational::value(&mut ctx, d).listen(&mut ctx);
    a.send(&mut ctx, 10);
    assert_eq!(seen(&mut ctx, &l), vec![31]);
    assert_eq!(*d.sample(&mut ctx), 31);
}

#[test]
fn ranks_rise_along_dependencies() {
    let mut ctx: Ctx = SodiumCtx::new();
    let a = ctx.new_cell_sink(1);
    let b = a.to_cell().map(&mut ctx, Op::Add(1));
    let c = b.map(&mut ctx, Op::Add(1));
    let d = a.to_cell().lift2(&mut ctx, c, Op::Sum);
    let rank = |ctx: &Ctx, n: usize| ctx.data.nodes[n].rank;
    assert_eq!(rank(&ctx, a.node.id), 0);
    assert_eq!(rank(&ctx, b.node.id), 1);
    assert_eq!(rank(&ctx, c.node.id), 2);
    assert_eq!(rank(&ctx, d.node.id), 3);
}

#[test]
fn lift_waits_for_all_inputs() {
    let mut ctx: Ctx = SodiumCtx::new();
    let a = ctx.new_cell_sink(1);
    let b = ctx.new_cell_sink(2);
    let c = ctx.new_cell_sink(3);
    let l3 = a.to_cell().lift3(&mut ctx, b.to_cell(), c.to_cell(), Op::Sum);
    assert_eq!(*l3.sample(&mut ctx), 6);
    a.send(&mut ctx, 10);
    assert_eq!(*l3.sample(&mut ctx), 6);
    ctx.transaction(|x: &mut Ctx| {
        a.send(x, 10);
        b.send(x, 20);
        c.send(x, 30);
    });
    assert_eq!(*l3.sample(&mut ctx), 60);
}

#[test]
fn apply_uses_the_function_cell() {
    let mut ctx: Ctx = SodiumCtx::new();
    let a = ctx.new_cell_sink(3);
    let f = ctx.new_cell_sink(10);
    let c = a.to_cell().apply(&mut ctx, f.to_cell(), Op::Prod);
    assert_eq!(*c.sample(&mut ctx), 30);
    ctx.start_transaction();
    a.send(&mut ctx, 4);
    f.send(&mut ctx, 5);
    ctx.end_transaction();
    assert_eq!(*c.sample(&mut ctx), 20);
}

#[test]
fn lift4_to_lift6_initial_values() {
    let mut ctx: Ctx = SodiumCtx::new();
    let c: Vec<Cell> = (1..=6).map(|i| ctx.new_cell(i)).collect();
    let l4 = c[0].lift4(&mut ctx, c[1], c[2], c[3], Op::Sum);
    let l5 = c[0].lift5(&mut ctx, c[1], c[2], c[3], c[4], Op::Sum);
    let l6 = c[0].lift6(&mut ctx, c[1], c[2], c[3], c[4], c[5], Op::Sum);
    assert_eq!(*l4.sample(&mut ctx), 10);
    assert_eq!(*l5.sample(&mut ctx), 15);
    assert_eq!(*l6.sample(&mut ctx), 21);
}

#[test]
fn stream_map_filter_and_hold() {
    let mut ctx: Ctx = SodiumCtx::new();
    let s = source(&mut ctx);
    let evens = s.to_stream().filter(&mut ctx, Op::Even);
    let tripled = evens.map(&mut ctx, Op::Mul(3));
    let held = tripled.hold(&mut ctx, 0);
    let l = tripled.listen(&mut ctx);
    for v in [1, 2, 3, 4] {
        s.send(&mut ctx, v);
    }
    assert_eq!(seen(&mut ctx, &l), vec![6, 12]);
    assert_eq!(*held.sample(&mut ctx), 12);
}

#[test]
fn stream_sink_send_fires_nothing() {
    let mut ctx: Ctx = SodiumCtx::new();
    let s = ctx.new_stream_sink();
    let held = s.to_stream().hold(&mut ctx, 7);
    let mapped = s.to_stream().map(&mut ctx, Op::Add(1));
    let l = s.to_stream().listen(&mut ctx);
    let lm = mapped.listen(&mut ctx);
    s.send(&mut ctx, 5);
    assert_eq!(*held.sample_no_trans(&ctx), 7);
    ctx.start_transaction();
    s.send(&mut ctx, 1);
    s.send(&mut ctx, 2);
    ctx.end_transaction();
    assert_eq!(*held.sample_no_trans(&ctx), 7);
    let events = ctx.take_events();
    assert!(events.iter().all(|(n, _)| *n != l.node.id && *n != lm.node.id));
}

#[test]
fn hold_of_a_source_holds_the_value_fired() {
    let mut ctx: Ctx = SodiumCtx::new();
    let s = source(&mut ctx);
    let held = s.to_stream().hold(&mut ctx, 7);
    assert_eq!(*held.sample_no_trans(&ctx), 7);
    s.send(&mut ctx, 5);
    assert_eq!(*held.sample_no_trans(&ctx), 5);
    ctx.start_transaction();
    s.send(&mut ctx, 1);
    s.send(&mut ctx, 2);
    assert_eq!(*held.sample_no_trans(&ctx), 5);
    ctx.end_transaction();
    assert_eq!(*held.sample_no_trans(&ctx), 2);
}

#[test]
fn stream_sent_twice_in_a_transaction_fires_the_last_value() {
    let mut ctx: Ctx = SodiumCtx::new();
    let s = source(&mut ctx);
    let held = s.to_stream().hold(&mut ctx, 0);
    let l = s.to_stream().listen(&mut ctx);
    ctx.start_transaction();
    s.send(&mut ctx, 1);
    s.send(&mut ctx, 2);
    ctx.end_transaction();
    assert_eq!(seen(&mut ctx, &l), vec![2, 2]);
    assert_eq!(*held.sample(&mut ctx), 2);
}

#[test]
fn filter_option_unwraps() {
    let mut ctx: Ctx = SodiumCtx::new();
    let s = source(&mut ctx);
    let f = s.to_stream().filter_option(&mut ctx);
    let l = f.listen(&mut ctx);
    for v in [-1, 2, 0, 5] {
        s.send(&mut ctx, v);
    }
    assert_eq!(seen(&mut ctx, &l), vec![2, 5]);
}

#[test]
fn snapshot_reads_the_value_before_the_transaction() {
    let mut ctx: Ctx = SodiumCtx::new();
    let s = source(&mut ctx);
    let c = ctx.new_cell_sink(100);
    let snap = s.to_stream().snapshot(&mut ctx, c.to_cell());
    let l = snap.listen(&mut ctx);
    ctx.start_transaction();
    c.send(&mut ctx, 200);
    s.send(&mut ctx, 1);
    ctx.end_transaction();
    s.send(&mut ctx, 2);
    assert_eq!(seen(&mut ctx, &l), vec![100, 200]);
}

#[test]
fn snapshot_with_functions() {
    let mut ctx: Ctx = SodiumCtx::new();
    let s = source(&mut ctx);
    let c: Vec<Cell> = (1..=5).map(|i| ctx.new_cell(i * 100)).collect();
    let s2 = s.to_stream().snapshot2(&mut ctx, c[0], Op::Sum);
    let s3 = s.to_stream().snapshot3(&mut ctx, c[0], c[1], Op::Sum);
    let s4 = s.to_stream().snapshot4(&mut ctx, c[0], c[1], c[2], Op::Sum);
    let s5 = s.to_stream().snapshot5(&mut ctx, c[0], c[1], c[2], c[3], Op::Sum);
    let s6 = s.to_stream().snapshot6(&mut ctx, c[0], c[1], c[2], c[3], c[4], Op::Sum);
    let ls: Vec<Listener> = [s2, s3, s4, s5, s6].iter().map(|x| x.listen(&mut ctx)).collect();
    s.send(&mut ctx, 1);
    let events = ctx.take_events();
    let got: Vec<i64> = ls
        .iter()
        .map(|l| events.iter().filter(|(n, _)| *n == l.node.id).map(|(_, v)| **v).collect::<Vec<i64>>()[0])
        .collect();
    assert_eq!(got, vec![101, 301, 601, 1001, 1501]);
}

#[test]
fn value_fires_the_current_value_and_updates_every_change() {
    let mut ctx: Ctx = SodiumCtx::new();
    let c = ctx.new_cell_sink(0);
    let u = Operational::updates(&mut ctx, c.to_cell()).listen(&mut ctx);
    let outside = Operational::value(&mut ctx, c.to_cell()).listen(&mut ctx);
    c.send(&mut ctx, 1);
    c.send(&mut ctx, 2);
    c.send(&mut ctx, 3);
    ctx.start_transaction();
    let v = Operational::value(&mut ctx, c.to_cell()).listen(&mut ctx);
    ctx.end_transaction();
    c.send(&mut ctx, 4);
    c.send(&mut ctx, 5);
    let events = ctx.take_events();
    let of = |l: &Listener| events.iter().filter(|(n, _)| *n == l.node.id).map(|(_, x)| **x).collect::<Vec<i64>>();
    assert_eq!(of(&u), vec![1, 2, 3, 4, 5]);
    assert_eq!(of(&outside), vec![1, 2, 3, 4, 5]);
    assert_eq!(of(&v), vec![3, 4, 5]);
}

#[test]
fn defer_and_split_fire_in_later_transactions() {
    let mut ctx: Ctx = SodiumCtx::new();
    let s = source(&mut ctx);
    let d = Operational::defer(&mut ctx, s.to_stream());
    let sp = Operational::split(&mut ctx, s.to_stream(), Op::Digits);
    let held = d.hold(&mut ctx, 0);
    let ld = d.listen(&mut ctx);
    let ls = sp.listen(&mut ctx);
    s.send(&mut ctx, 472);
    let events = ctx.take_events();
    let of = |l: &Listener| events.iter().filter(|(n, _)| *n == l.node.id).map(|(_, x)| **x).collect::<Vec<i64>>();
    assert_eq!(of(&ld), vec![472]);
    assert_eq!(of(&ls), vec![4, 7, 2]);
    assert_eq!(*held.sample(&mut ctx), 472);
}

#[test]
fn never_fires() {
    let mut ctx: Ctx = SodiumCtx::new();
    let n = Stream::new(&mut ctx);
    let l = n.listen(&mut ctx);
    let other = source(&mut ctx);
    other.send(&mut ctx, 1);
    assert_eq!(seen(&mut ctx, &l), Vec::<i64>::new());
    let n2 = ctx.new_stream();
    assert!(n2.node.id > n.node.id);
}

#[test]
fn constant_cell_keeps_its_value() {
    let mut ctx: Ctx = SodiumCtx::new();
    let c = Cell::new(&mut ctx, 11);
    let s = source(&mut ctx);
    s.send(&mut ctx, 1);
    assert_eq!(*c.sample(&mut ctx), 11);
    assert_eq!(c.to_dep().node, c.node);
}

#[test]
fn weak_node_upgrades_while_alive() {
    let mut ctx: Ctx = SodiumCtx::new();
    let c = ctx.new_cell_sink(1);
    let l = c.to_cell().listen(&mut ctx);
    let w: WeakNode = l.node.downgrade();
    assert_eq!(w.upgrade(&ctx).map(|n| n.id), Some(l.node.id));
    l.unlisten(&mut ctx);
    assert!(w.upgrade(&ctx).is_none());
    assert!(!ctx.data.nodes[c.node.id].dependents.contains(&l.node.id));
}

#[test]
fn mark_dirty_queues_the_nodes_reached() {
    let mut ctx: Ctx = SodiumCtx::new();
    let a = ctx.new_stream_sink();
    let b = a.to_stream().map(&mut ctx, Op::Add(1));
    let c = b.map(&mut ctx, Op::Add(1));
    let other = ctx.new_stream_sink();
    let d = b.filter(&mut ctx, Op::Even);
    ctx.start_transaction();
    let _ = Node { id: b.node.id }.mark_dirty(&mut ctx);
    let mut queued = ctx.data.to_be_updated.clone();
    queued.sort();
    assert_eq!(queued, vec![b.node.id, c.node.id, d.node.id]);
    assert!(!queued.contains(&other.node.id));
    ctx.end_transaction();
    assert!(ctx.data.to_be_updated.is_empty());
}

#[test]
fn node_update_recomputes() {
    let mut ctx: Ctx = SodiumCtx::new();
    let a = ctx.new_cell_sink(0);
    let b = a.to_cell().map(&mut ctx, Op::Mul(7));
    ctx.start_transaction();
    a.send(&mut ctx, 3);
    Node { id: b.node.id }.update(&mut ctx);
    assert_eq!(ctx.data.nodes[b.node.id].next.as_deref(), Some(&21));
    ctx.end_transaction();
    assert!(ctx.data.nodes[b.node.id].next.is_none());
    assert_eq!(*b.sample_no_trans(&ctx), 21);
}

#[test]
fn conversions() {
    let mut ctx: Ctx = SodiumCtx::new();
    let cs = ctx.new_cell_sink(1);
    let ss = ctx.new_stream_sink();
    assert_eq!(cs.to_cell(), IsCell::to_cell(cs));
    assert_eq!(IsCell::to_cell(&cs).node, cs.node);
    assert_eq!(IsCell::to_cell(cs.to_cell()).node, cs.node);
    assert_eq!(ss.to_stream(), IsStream::to_stream(ss));
    assert_eq!(IsStream::to_stream(&ss).node, ss.node);
    assert_eq!(Listener::new(cs.node).node, cs.node);
    let _: StreamSink = ss;
}

#[test]
fn memo_lazy_computes_once() {
    let count = std::cell::Cell::new(0);
    let mut m = MemoLazy::new(|| {
        count.set(count.get() + 1);
        5
    });
    assert_eq!(*m.get(), 5);
    assert_eq!(*m.get(), 5);
    assert_eq!(count.get(), 1);
}

#[test]
fn latch_resets_from_its_thunk() {
    let count = std::cell::Cell::new(0);
    let mut l = Latch::new(|| {
        count.set(count.get() + 1);
        count.get()
    });
    assert_eq!(*l.get(), 1);
    *l.get_mut() = 10;
    assert_eq!(*l.get(), 10);
    l.reset();
    assert_eq!(*l.get(), 2);
    let k = Latch::const_(String::from("x"));
    assert_eq!(k.get(), "x");
}
