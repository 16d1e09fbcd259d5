use vstd::prelude::*;
use crate::compile::{
    CompileError, compile_defs_to_instr, compile_expr_to_instr, compiles, def_code, def_compiles, def_size,
    defs_code, defs_error, defs_size, depth, expr_code, first_error, param_env, expr_depth, expr_size, fits_limits, size, SLOT_LIMIT,
};
use crate::context::{Context, bound, find, lemma_lookup_concat, lemma_lookup_push, lookup};
use crate::counter::{Counter, counter};
use crate::expressions::{Defenition, Expr, ReplExpr};
use crate::parse::{SExp, parse_repl_expr, repl_parses, views as name_views};
use crate::value::{format_viva_value, value_text};
use crate::instructions::{Ins, Instr, rsp_balanced, views};

verus! {

/// Whether `e` assigns the name `n` somewhere.
pub open spec fn assigns(e: Expr, n: Seq<char>) -> bool
    decreases e,
{
    match e {
        Expr::Number(_) => false,
        Expr::Boolean(_) => false,
        Expr::Id(_) => false,
        Expr::Let(bs, body) => let_assigns(bs@, n) || assigns(*body, n),
        Expr::UnOp(_, x) => assigns(*x, n),
        Expr::BinOp(_, a, b) => assigns(*a, n) || assigns(*b, n),
        Expr::If(c, t, f) => assigns(*c, n) || assigns(*t, n) || assigns(*f, n),
        Expr::Loop(x) => assigns(*x, n),
        Expr::Break(x) => assigns(*x, n),
        Expr::Assign(s, x) => s@ == n || assigns(*x, n),
        Expr::Block(es) => any_assigns(es@, n),
        Expr::Call(_, args) => any_assigns(args@, n),
    }
}

pub open spec fn let_assigns(bs: Seq<(String, Expr)>, n: Seq<char>) -> bool
    decreases bs,
{
    bs.len() > 0 && (let_assigns(bs.drop_last(), n) || assigns(bs.last().1, n))
}

pub open spec fn any_assigns(es: Seq<Expr>, n: Seq<char>) -> bool
    decreases es,
{
    es.len() > 0 && (any_assigns(es.drop_last(), n) || assigns(es.last(), n))
}

/// Every cell holds the current value of its `define`d name.
pub open spec fn cells_current(cells: Seq<(String, i64)>, defs: Seq<(String, i64)>) -> bool {
    forall|n: Seq<char>| bound(cells, n) ==> #[trigger] lookup(cells, n) == lookup(defs, n)
}

/// What collecting the cells of `e` into `acc` promises.
pub open spec fn collect_post(e: Expr, defs: Seq<(String, i64)>, before: Seq<(String, i64)>, after: Seq<(String, i64)>) -> bool {
    &&& cells_current(after, defs)
    &&& forall|n: Seq<char>| bound(before, n) ==> #[trigger] bound(after, n)
    &&& forall|n: Seq<char>| assigns(e, n) && bound(defs, n) ==> #[trigger] bound(after, n)
    &&& forall|n: Seq<char>| #[trigger] bound(after, n) ==> bound(before, n) || assigns(e, n)
}

proof fn lemma_collect_step(defs: Seq<(String, i64)>, a: Seq<(String, i64)>, b: Seq<(String, i64)>, c: Seq<(String, i64)>)
    requires
        forall|n: Seq<char>| bound(a, n) ==> #[trigger] bound(b, n),
        forall|n: Seq<char>| bound(b, n) ==> #[trigger] bound(c, n),
    ensures
        forall|n: Seq<char>| bound(a, n) ==> #[trigger] bound(c, n),
{
}

fn collect_cells(e: &Expr, defs: &Vec<(String, i64)>, acc: &mut Vec<(String, i64)>)
    requires
        cells_current(old(acc)@, defs@),
    ensures
        collect_post(*e, defs@, old(acc)@, final(acc)@),
    decreases *e,
{
    match e {
        Expr::Number(_) | Expr::Boolean(_) | Expr::Id(_) => {},
        Expr::Let(bs, body) => {
            let ghost acc0 = acc@;
            let mut i: usize = 0;
            while i < bs.len()
                invariant
                    *e == Expr::Let(*bs, *body),
                    i <= bs@.len(),
                    cells_current(acc@, defs@),
                    forall|n: Seq<char>| bound(acc0, n) ==> #[trigger] bound(acc@, n),
                    forall|n: Seq<char>| let_assigns(bs@.subrange(0, i as int), n) && bound(defs@, n) ==> #[trigger] bound(acc@, n),
                    forall|n: Seq<char>| #[trigger] bound(acc@, n) ==> bound(acc0, n) || let_assigns(bs@.subrange(0, i as int), n),
                decreases bs@.len() - i,
            {
                proof {
                    assert(decreases_to!(*e => (*e)->Let_0));
                    assert(decreases_to!((*e)->Let_0 => ((*e)->Let_0)@));
                    assert(decreases_to!(bs@ => bs@[i as int]));
                    assert(decreases_to!(bs@[i as int] => bs@[i as int].1));
                }
                let ghost mid = acc@;
                collect_cells(&bs[i].1, defs, acc);
                proof {
                    lemma_collect_step(defs@, acc0, mid, acc@);
                    let next = bs@.subrange(0, i + 1);
                    assert(next.drop_last() =~= bs@.subrange(0, i as int));
                    assert(next.last() == bs@[i as int]);
                    assert forall|n: Seq<char>| #[trigger] bound(acc@, n) implies bound(acc0, n) || let_assigns(next, n) by {
                        if !bound(mid, n) {
                            assert(assigns(bs@[i as int].1, n));
                        }
                    }
                }
                i = i + 1;
            }
            proof {
                assert(bs@.subrange(0, bs@.len() as int) =~= bs@);
            }
            let ghost mid = acc@;
            collect_cells(body, defs, acc);
            proof {
                lemma_collect_step(defs@, acc0, mid, acc@);
                assert forall|n: Seq<char>| #[trigger] bound(acc@, n) implies bound(acc0, n) || assigns(*e, n) by {
                    if !bound(mid, n) {
                        assert(assigns(**body, n));
                    }
                }
            }
        },
        Expr::UnOp(_, x) | Expr::Loop(x) | Expr::Break(x) => collect_cells(x, defs, acc),
        Expr::BinOp(_, a, b) => {
            let ghost acc0 = acc@;
            collect_cells(a, defs, acc);
            let ghost mid = acc@;
            collect_cells(b, defs, acc);
            proof {
                lemma_collect_step(defs@, acc0, mid, acc@);
                assert forall|n: Seq<char>| #[trigger] bound(acc@, n) implies bound(acc0, n) || assigns(*e, n) by {
                    if !bound(mid, n) {
                        assert(assigns(**b, n));
                    }
                }
            }
        },
        Expr::If(c, t, f) => {
            let ghost acc0 = acc@;
            collect_cells(c, defs, acc);
            let ghost m1 = acc@;
            collect_cells(t, defs, acc);
            let ghost m2 = acc@;
            collect_cells(f, defs, acc);
            proof {
                lemma_collect_step(defs@, acc0, m1, m2);
                lemma_collect_step(defs@, acc0, m2, acc@);
                lemma_collect_step(defs@, m1, m2, acc@);
                assert forall|n: Seq<char>| #[trigger] bound(acc@, n) implies bound(acc0, n) || assigns(*e, n) by {
                    if !bound(m2, n) {
                        assert(assigns(**f, n));
                    } else if !bound(m1, n) {
                        assert(assigns(**t, n));
                    }
                }
            }
        },
        Expr::Assign(s, x) => {
            let ghost acc0 = acc@;
            collect_cells(x, defs, acc);
            let ghost mid = acc@;
            match find(defs, s) {
                Some(v) => {
                    if find(acc, s).is_none() {
                        let name = s.clone();
                        acc.push((name, v));
                        proof {
                            assert forall|n: Seq<char>| bound(acc@, n) implies #[trigger] lookup(acc@, n) == lookup(defs@, n) by {
                                lemma_lookup_push(mid, (*s, v), n);
                            }
                            assert forall|n: Seq<char>| bound(mid, n) implies #[trigger] bound(acc@, n) by {
                                lemma_lookup_push(mid, (*s, v), n);
                            }
                            assert forall|n: Seq<char>| assigns(*e, n) && bound(defs@, n) implies #[trigger] bound(acc@, n) by {
                                lemma_lookup_push(mid, (*s, v), n);
                            }
                            assert forall|n: Seq<char>| #[trigger] bound(acc@, n) implies bound(acc0, n) || assigns(*e, n) by {
                                lemma_lookup_push(mid, (*s, v), n);
                                if n != s@ {
                                    assert(bound(mid, n));
                                    assert(bound(acc0, n) || assigns(**x, n));
                                }
                            }
                            lemma_collect_step(defs@, acc0, mid, acc@);
                        }
                    }
                },
                None => {},
            }
        },
        Expr::Block(es) | Expr::Call(_, es) => {
            let ghost acc0 = acc@;
            let mut i: usize = 0;
            while i < es.len()
                invariant
                    decreases_to!(*e => *es),
                    i <= es@.len(),
                    cells_current(acc@, defs@),
                    forall|n: Seq<char>| bound(acc0, n) ==> #[trigger] bound(acc@, n),
                    forall|n: Seq<char>| any_assigns(es@.subrange(0, i as int), n) && bound(defs@, n) ==> #[trigger] bound(acc@, n),
                    forall|n: Seq<char>| #[trigger] bound(acc@, n) ==> bound(acc0, n) || any_assigns(es@.subrange(0, i as int), n),
                decreases es@.len() - i,
            {
                proof {
                    assert(decreases_to!(*es => es@));
                    assert(decreases_to!(es@ => es@[i as int]));
                }
                let ghost mid = acc@;
                collect_cells(&es[i], defs, acc);
                proof {
                    lemma_collect_step(defs@, acc0, mid, acc@);
                    let next = es@.subrange(0, i + 1);
                    assert(next.drop_last() =~= es@.subrange(0, i as int));
                    assert(next.last() == es@[i as int]);
                    assert forall|n: Seq<char>| #[trigger] bound(acc@, n) implies bound(acc0, n) || any_assigns(next, n) by {
                        if !bound(mid, n) {
                            assert(assigns(es@[i as int], n));
                        }
                    }
                }
                i = i + 1;
            }
            proof {
                assert(es@.subrange(0, es@.len() as int) =~= es@);
            }
        },
    }
}


/// Whether `n` is one of `names`.
pub open spec fn has_name(names: Seq<String>, n: Seq<char>) -> bool {
    exists|i: int| 0 <= i < names.len() && names[i]@ == n
}

/// A top-level expression fits the counter and the stack slots.
pub open spec fn turn_fits(e: Expr, ids: u64) -> bool {
    &&& ids + size(e) < u64::MAX
    &&& 2 + depth(e) <= SLOT_LIMIT
}

/// The state that one interactive session keeps between forms: the
/// `define`d values, the registered function names, and the label counter.
pub struct Session {
    pub define_env: Vec<(String, i64)>,
    pub func_names: Vec<String>,
    pub ids: Counter,
}

impl Session {
    /// A session with nothing defined.
    pub fn new() -> (s: Session)
        ensures
            s.define_env@.len() == 0,
            s.func_names@.len() == 0,
            s.ids.value == 0,
    {
        Session { define_env: Vec::new(), func_names: Vec::new(), ids: counter() }
    }

    /// Whether a function of this name was registered.
    pub fn is_function(&self, name: &String) -> (r: bool)
        ensures
            r == has_name(self.func_names@, name@),
    {
        let mut i: usize = 0;
        while i < self.func_names.len()
            invariant
                i <= self.func_names@.len(),
                forall|k: int| 0 <= k < i ==> self.func_names@[k]@ != name@,
            decreases self.func_names@.len() - i,
        {
            if self.func_names[i] == *name {
                return true;
            }
            i = i + 1;
        }
        false
    }

    /// The `define`d names that `e` assigns, each with its current value:
    /// the cells that the code of `e` reads and writes them through.
    pub fn define_cells(&self, e: &Expr) -> (r: Vec<(String, i64)>)
        ensures
            collect_post(*e, self.define_env@, Seq::empty(), r@),
    {
        let mut acc: Vec<(String, i64)> = Vec::new();
        collect_cells(e, &self.define_env, &mut acc);
        acc
    }

    /// Compiles a top-level expression, with `ptrs` holding the address of
    /// the cell of each name in `define_cells(e)`.
    pub fn compile_turn(&mut self, e: &Expr, ptrs: &Vec<(String, i64)>) -> (r: Result<Vec<Instr>, CompileError>)
        ensures
            final(self).define_env == old(self).define_env,
            final(self).func_names == old(self).func_names,
            final(self).ids.value >= old(self).ids.value,
            !turn_fits(*e, old(self).ids.value) ==> r == Err::<Vec<Instr>, CompileError>(CompileError::TooLarge),
            turn_fits(*e, old(self).ids.value) ==> (r is Ok <==> compiles(*e, Seq::empty(), 2, ptrs@, old(self).define_env@, false)),
            r is Ok ==> rsp_balanced(r->Ok_0@),
            r is Ok ==> views(r->Ok_0@) == expr_code(*e, Seq::empty(), 2, ptrs@, old(self).define_env@, 0,
                old(self).ids.value as int),
            r is Ok ==> final(self).ids.value == old(self).ids.value + size(*e),
            final(self).ids.value <= old(self).ids.value + size(*e),
            r is Ok ==> first_error(*e, Seq::empty(), 2, ptrs@, old(self).define_env@, false) is None,
            r is Err && turn_fits(*e, old(self).ids.value) ==> first_error(*e, Seq::empty(), 2, ptrs@,
                old(self).define_env@, false) == Some(r->Err_0),
    {
        let ctx = Context::new(&self.define_env, ptrs);
        proof {
            assert(ctx.env@ =~= Seq::<(String, i32)>::empty());
        }
        if !fits_limits(e, &ctx, &self.ids) {
            return Err(CompileError::TooLarge);
        }
        compile_expr_to_instr(e, &ctx, &mut self.ids)
    }

    /// Rejects a `define` of a name that is already defined.
    pub fn check_define(&self, name: &String) -> (r: Result<(), CompileError>)
        ensures
            r is Err <==> bound(self.define_env@, name@),
            r is Err ==> r->Err_0 == CompileError::DuplicateBinding,
    {
        match find(&self.define_env, name) {
            Some(_) => Err(CompileError::DuplicateBinding),
            None => Ok(()),
        }
    }

    /// Records the value that a `define` computed.
    pub fn finish_define(&mut self, name: String, value: i64)
        ensures
            final(self).define_env@ == old(self).define_env@.push((name, value)),
            lookup(final(self).define_env@, name@) == Some(value),
            final(self).func_names == old(self).func_names,
            final(self).ids == old(self).ids,
    {
        self.define_env.push((name, value));
        proof {
            lemma_lookup_push(old(self).define_env@, (name, value), name@);
        }
    }

    /// Records what the cells of a turn held when its code returned.
    pub fn store_cells(&mut self, cells: Vec<(String, i64)>)
        ensures
            final(self).define_env@ == old(self).define_env@ + cells@,
            final(self).func_names == old(self).func_names,
            final(self).ids == old(self).ids,
    {
        let mut c = cells;
        self.define_env.append(&mut c);
    }

    /// Registers a function and compiles its definition. The name stays
    /// registered when the body does not compile.
    pub fn compile_function(&mut self, name: String, params: Vec<String>, body: Box<Expr>) -> (r: Result<Vec<Instr>, CompileError>)
        ensures
            r is Ok ==> final(self).func_names@ == old(self).func_names@.push(name),
            r is Err ==> final(self).func_names == old(self).func_names,
            final(self).define_env == old(self).define_env,
            final(self).ids.value >= old(self).ids.value,
            final(self).ids.value <= old(self).ids.value + size(*body),
            r is Ok ==> final(self).ids.value == old(self).ids.value + size(*body),
            r is Err && old(self).ids.value + size(*body) < u64::MAX && 1 + params@.len() + depth(*body) <= SLOT_LIMIT
                ==> first_error(*body, param_env(params@), (1 + params@.len()) as int, Seq::empty(),
                old(self).define_env@, false) == Some(r->Err_0),
            !(old(self).ids.value + size(*body) < u64::MAX && 1 + params@.len() + depth(*body) <= SLOT_LIMIT)
                ==> r == Err::<Vec<Instr>, CompileError>(CompileError::TooLarge),
            (old(self).ids.value + size(*body) < u64::MAX && 1 + params@.len() + depth(*body) <= SLOT_LIMIT)
                ==> (r is Ok <==> def_compiles(Defenition::Fun(name, params, body), Seq::empty(), old(self).define_env@)),
            r is Ok ==> rsp_balanced(r->Ok_0@),
            r is Ok ==> views(r->Ok_0@) == def_code(Defenition::Fun(name, params, body), Seq::empty(),
                old(self).define_env@, old(self).ids.value as int),
    {
        let s = expr_size(&body);
        let d = expr_depth(&body);
        let fits = s < u64::MAX && self.ids.value < u64::MAX - s && d <= SLOT_LIMIT
            && params.len() < SLOT_LIMIT as usize && 1 + params.len() as i32 <= SLOT_LIMIT - d;
        if !fits {
            return Err(CompileError::TooLarge);
        }
        let registered = name.clone();
        let ghost whole = Defenition::Fun(name, params, body);
        let defs = vec![Defenition::Fun(name, params, body)];
        let no_cells: Vec<(String, i64)> = Vec::new();
        let ctx = Context::new(&self.define_env, &no_cells);
        proof {
            assert(defs@[0] == whole);
            assert(defs@.drop_last() =~= Seq::<Defenition>::empty());
            assert(defs_size(defs@.drop_last()) == 0);
            assert(defs@.last() == whole);
            assert(defs_size(defs@) == def_size(whole));
            assert(defs_code(defs@.drop_last(), Seq::empty(), self.define_env@, self.ids.value as int) =~= Seq::<Ins>::empty());
            assert(no_cells@ =~= Seq::<(String, i64)>::empty());
            assert(defs_error(defs@.drop_last(), Seq::empty(), self.define_env@) is None);
        }
        let r = compile_defs_to_instr(&defs, &ctx, &mut self.ids);
        if r.is_ok() {
            self.func_names.push(registered);
        }
        proof {
            if r is Ok {
                assert(views(r->Ok_0@) =~= def_code(whole, Seq::empty(), old(self).define_env@, old(self).ids.value as int));
            }
        }
        r
    }
}

/// What the driver does with a form: show a message, append the code of a
/// function, or append and run the code of an expression (recording its
/// value under the name of a `define`, if any).
pub enum TurnAction {
    Show(String),
    Emit(Vec<Instr>),
    Run(Vec<Instr>, Option<String>),
}

/// `m` is the message of why a top-level expression does not compile: it
/// is too large, or its first error.
pub open spec fn shows_error(m: Seq<char>, e: Expr, ptrs: Seq<(String, i64)>, defs: Seq<(String, i64)>, ids: u64) -> bool {
    if !turn_fits(e, ids) {
        m == "program too large"@
    } else {
        &&& !compiles(e, Seq::empty(), 2, ptrs, defs, false)
        &&& first_error(e, Seq::empty(), 2, ptrs, defs, false) matches Some(err) && m == err.message_spec()
    }
}

/// `m` is the message of why a function definition does not compile: its
/// body is too large for its frame or the counter, or the first error of
/// its body.
pub open spec fn fun_shows_error(m: Seq<char>, params: Seq<String>, body: Expr, defs: Seq<(String, i64)>, ids: u64) -> bool {
    if !(ids + size(body) < u64::MAX && 1 + params.len() + depth(body) <= SLOT_LIMIT) {
        m == "program too large"@
    } else {
        &&& !compiles(body, param_env(params), (1 + params.len()) as int, Seq::empty(), defs, false)
        &&& first_error(body, param_env(params), (1 + params.len()) as int, Seq::empty(), defs, false) matches Some(err)
            && m == err.message_spec()
    }
}

/// The label ids that a form may take: those of the expression it compiles.
pub open spec fn form_size(form: ReplExpr) -> nat {
    match form {
        ReplExpr::Define(_, e) => size(*e),
        ReplExpr::Expr(e) => size(*e),
        ReplExpr::Fun(_, _, body) => size(*body),
    }
}

/// The expression that a form runs, if it runs one.
pub open spec fn form_expr(form: ReplExpr) -> Option<Expr> {
    match form {
        ReplExpr::Define(_, e) => Some(*e),
        ReplExpr::Expr(e) => Some(*e),
        ReplExpr::Fun(_, _, _) => None,
    }
}

impl Session {
    /// The form that a line denotes, given what the tokenizer made of it
    /// (`None` where it failed): any failure is reported as a parse error.
    pub fn read_form(&self, parsed: Option<SExp>) -> (r: Result<ReplExpr, String>)
        ensures
            parsed is None ==> r is Err && r->Err_0@ == "Invalid: parse error"@,
            parsed matches Some(s) ==> {
                &&& r is Ok ==> repl_parses(s, name_views(self.func_names@), r->Ok_0)
                &&& r is Err ==> r->Err_0@ == "Invalid: parse error"@
                    && forall|x: ReplExpr| !repl_parses(s, name_views(self.func_names@), x)
            },
    {
        match parsed {
            None => Err(String::from_str("Invalid: parse error")),
            Some(s) => match parse_repl_expr(&s, &self.func_names) {
                Ok(form) => Ok(form),
                Err(_) => Err(String::from_str("Invalid: parse error")),
            },
        }
    }

    /// The cells that the code of a form needs: those of the `define`d names
    /// that its expression assigns.
    pub fn turn_cells(&self, form: &ReplExpr) -> (r: Vec<(String, i64)>)
        ensures
            form_expr(*form) matches Some(e) ==> collect_post(e, self.define_env@, Seq::empty(), r@),
            form_expr(*form) is None ==> r@.len() == 0,
    {
        match form {
            ReplExpr::Define(_, e) => self.define_cells(e),
            ReplExpr::Expr(e) => self.define_cells(e),
            ReplExpr::Fun(_, _, _) => Vec::new(),
        }
    }

    /// Decides what a form does. A `define` of a defined name, and any form
    /// that does not compile, show a message and leave the definitions and
    /// the function names as they were; a function definition gives its
    /// code and registers its name; a `define` or an expression gives the
    /// code to run, compiled with `ptrs` as the addresses of its cells.
    pub fn begin_turn(&mut self, form: ReplExpr, ptrs: &Vec<(String, i64)>) -> (a: TurnAction)
        ensures
            final(self).define_env == old(self).define_env,
            final(self).ids.value >= old(self).ids.value,
            final(self).ids.value <= old(self).ids.value + form_size(form),
            a is Run ==> final(self).ids.value == old(self).ids.value + form_size(form),
            a is Emit ==> final(self).ids.value == old(self).ids.value + form_size(form),
            a is Show ==> final(self).func_names == old(self).func_names,
            (match form {
                ReplExpr::Define(n, e) => if bound(old(self).define_env@, n@) {
                    a is Show && a->Show_0@ == "Duplicate binding"@
                } else {
                    match a {
                        TurnAction::Run(code, name) => name == Some(n) && turn_fits(*e, old(self).ids.value)
                            && compiles(*e, Seq::empty(), 2, ptrs@, old(self).define_env@, false)
                            && views(code@) == expr_code(*e, Seq::empty(), 2, ptrs@, old(self).define_env@, 0,
                            old(self).ids.value as int),
                        TurnAction::Show(m) => shows_error(m@, *e, ptrs@, old(self).define_env@, old(self).ids.value),
                        _ => false,
                    }
                },
                ReplExpr::Expr(e) => match a {
                    TurnAction::Run(code, name) => name is None && turn_fits(*e, old(self).ids.value)
                        && compiles(*e, Seq::empty(), 2, ptrs@, old(self).define_env@, false)
                        && views(code@) == expr_code(*e, Seq::empty(), 2, ptrs@, old(self).define_env@, 0,
                        old(self).ids.value as int),
                    TurnAction::Show(m) => shows_error(m@, *e, ptrs@, old(self).define_env@, old(self).ids.value),
                    _ => false,
                },
                ReplExpr::Fun(n, ps, body) => match a {
                    TurnAction::Emit(code) => final(self).func_names@ == old(self).func_names@.push(n)
                        && views(code@) == def_code(Defenition::Fun(n, ps, body), Seq::empty(),
                        old(self).define_env@, old(self).ids.value as int),
                    TurnAction::Show(m) => fun_shows_error(m@, ps@, *body, old(self).define_env@, old(self).ids.value),
                    _ => false,
                },
            }),
    {
        match form {
            ReplExpr::Fun(name, params, body) => match self.compile_function(name, params, body) {
                Ok(code) => TurnAction::Emit(code),
                Err(err) => TurnAction::Show(err.message()),
            },
            ReplExpr::Define(name, e) => {
                if let Err(err) = self.check_define(&name) {
                    return TurnAction::Show(err.message());
                }
                match self.compile_turn(&e, ptrs) {
                    Ok(code) => TurnAction::Run(code, Some(name)),
                    Err(err) => TurnAction::Show(err.message()),
                }
            },
            ReplExpr::Expr(e) => match self.compile_turn(&e, ptrs) {
                Ok(code) => TurnAction::Run(code, None),
                Err(err) => TurnAction::Show(err.message()),
            },
        }
    }

    /// Finishes a turn whose code ran and returned `value`: stores what its
    /// cells held, then records a `define`; the text to show is the value,
    /// or nothing for a `define`.
    pub fn end_turn(&mut self, define: Option<String>, cells: Vec<(String, i64)>, value: i64) -> (out: Option<String>)
        ensures
            define matches Some(n) ==> final(self).define_env@ == (old(self).define_env@ + cells@).push((n, value))
                && out is None,
            define is None ==> final(self).define_env@ == old(self).define_env@ + cells@
                && out is Some && out->Some_0@ == value_text(value),
            final(self).func_names == old(self).func_names,
            final(self).ids == old(self).ids,
    {
        self.store_cells(cells);
        match define {
            Some(name) => {
                self.finish_define(name, value);
                None
            },
            None => Some(format_viva_value(value)),
        }
    }
}

/// Once a turn's cells are stored, the next read of a `define`d name that
/// the turn assigned yields the value its cell held: the read is the new
/// value as an immediate, unless that turn assigns the name too.
pub proof fn lemma_assigned_define_reads_back(
    defs: Seq<(String, i64)>,
    cells: Seq<(String, i64)>,
    ptrs: Seq<(String, i64)>,
    x: Seq<char>,
)
    requires
        bound(cells, x),
        !bound(ptrs, x),
        x != "input"@,
    ensures
        crate::compile::id_code(x, Seq::empty(), ptrs, defs + cells)
            == seq![crate::instructions::Ins::Mov(crate::instructions::Reg::Rax, lookup(cells, x)->Some_0)],
{
    lemma_lookup_concat(defs, cells, x);
    assert(lookup(Seq::<(String, i32)>::empty(), x) is None);
}


/// Once a name is `define`d, a second `define` of it is rejected.
pub proof fn lemma_define_twice_rejected(defs: Seq<(String, i64)>, name: String, value: i64)
    ensures
        bound(defs.push((name, value)), name@),
{
    lemma_lookup_push(defs, (name, value), name@);
}

/// Once a function name is registered, no `fun` form can define it again.
pub proof fn lemma_fun_twice_rejected(names: Seq<String>, n: String, s: crate::parse::SExp, x: crate::expressions::ReplExpr)
    requires
        crate::parse::is_fun_form(s),
        x matches crate::expressions::ReplExpr::Fun(m, _, _) && m@ == n@,
    ensures
        !crate::parse::repl_parses(s, crate::parse::views(names.push(n)), x),
{
    assert(crate::parse::views(names.push(n)).last() == n@);
}

} // verus!
