use lib::cell_sink::CellSink;
use lib::lambda::IsLambda;
use lib::sodium_ctx::SodiumCtx;
use std::rc::Rc;

#[derive(Clone, Debug, PartialEq)]
enum Val {
    Int(i32),
    Text(String),
}

enum Fun {
    Format,
}

impl IsLambda<Val> for Fun {
    fn apply(&self, args: &Vec<Rc<Val>>) -> Val {
        match self {
            Fun::Format => match &*args[0] {
                Val::Int(a) => Val::Text(format!("{}", a)),
                Val::Text(s) => Val::Text(s.clone()),
            },
        }
    }

    fn test(&self, _a: &Val) -> bool {
        true
    }

    fn as_option(a: &Val) -> Option<Val> {
        Some(a.clone())
    }

    fn split(&self, a: &Val) -> Vec<Val> {
        vec![a.clone()]
    }
}

#[test]
fn map_c() {
    let mut sodium_ctx: SodiumCtx<Val, Fun> = SodiumCtx::new();
    let sodium_ctx = &mut sodium_ctx;
    {
        let c: CellSink = sodium_ctx.new_cell_sink(Val::Int(6));
        let c2 = c.to_cell();
        let mut out: Vec<String> = Vec::new();
        let l = c2.map(sodium_ctx, Fun::Format).listen(sodium_ctx);
        c.send(sodium_ctx, Val::Int(8));
        l.unlisten(sodium_ctx);
        for (listener, v) in sodium_ctx.take_events() {
            if listener == l.node.id {
                if let Val::Text(s) = &*v {
                    out.push(s.clone());
                }
            }
        }
        assert_eq!(vec![String::from("6"), String::from("8")], out);
    }
}
