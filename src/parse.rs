use vstd::prelude::*;
use crate::expressions::{Defenition, Expr, Op1, Op2, Program, ReplExpr};

verus! {

/// An S-expression as the tokenizer hands it over: a symbol, an integer, a
/// floating-point atom (which this language never accepts), or a list.
#[derive(Debug, PartialEq)]
pub enum SExp {
    Sym(String),
    Int(i64),
    Float,
    List(Vec<SExp>),
}

/// Why a form was rejected.
#[derive(Debug, PartialEq, Eq)]
pub enum ParseError {
    Invalid,
    Keyword(String),
    DuplicateFunctionName,
    DuplicateParameterName,
}

impl ParseError {
    pub open spec fn message_spec(&self) -> Seq<char> {
        match self {
            ParseError::Invalid => "Invalid: parse error"@,
            ParseError::Keyword(k) => "'"@ + k@ + "' is a keyword"@,
            ParseError::DuplicateFunctionName => "Duplicate function name"@,
            ParseError::DuplicateParameterName => "Duplicate parameter name"@,
        }
    }

    pub fn message(&self) -> (r: String)
        ensures
            r@ == self.message_spec(),
    {
        match self {
            ParseError::Invalid => String::from_str("Invalid: parse error"),
            ParseError::Keyword(k) => {
                let mut s = String::from_str("'");
                s.append(k.as_str());
                s.append("' is a keyword");
                s
            },
            ParseError::DuplicateFunctionName => String::from_str("Duplicate function name"),
            ParseError::DuplicateParameterName => String::from_str("Duplicate parameter name"),
        }
    }
}

/// The reserved words of the language.
pub open spec fn keyword(s: Seq<char>) -> bool {
    s == "let"@ || s == "if"@ || s == "loop"@ || s == "break"@ || s == "set!"@ || s == "block"@
        || s == "add1"@ || s == "sub1"@ || s == "isnum"@ || s == "isbool"@ || s == "print"@
        || s == "define"@ || s == "fun"@ || s == "+"@ || s == "-"@ || s == "*"@ || s == "="@
        || s == ">"@ || s == ">="@ || s == "<"@ || s == "<="@ || s == "true"@ || s == "false"@
}

fn eq_lit(s: &String, lit: &str) -> (r: bool)
    ensures
        r == (s@ == lit@),
{
    *s == String::from_str(lit)
}

pub fn is_keyword(s: &String) -> (r: bool)
    ensures
        r == keyword(s@),
{
    eq_lit(s, "let") || eq_lit(s, "if") || eq_lit(s, "loop") || eq_lit(s, "break") || eq_lit(s, "set!")
        || eq_lit(s, "block") || eq_lit(s, "add1") || eq_lit(s, "sub1") || eq_lit(s, "isnum")
        || eq_lit(s, "isbool") || eq_lit(s, "print") || eq_lit(s, "define") || eq_lit(s, "fun")
        || eq_lit(s, "+") || eq_lit(s, "-") || eq_lit(s, "*") || eq_lit(s, "=") || eq_lit(s, ">")
        || eq_lit(s, ">=") || eq_lit(s, "<") || eq_lit(s, "<=") || eq_lit(s, "true") || eq_lit(s, "false")
}

/// The names of a list of strings.
pub open spec fn views(v: Seq<String>) -> Seq<Seq<char>> {
    v.map_values(|x: String| x@)
}

/// The symbol of an atom, if it is one.
pub open spec fn sym_of(s: SExp) -> Option<Seq<char>> {
    match s {
        SExp::Sym(t) => Some(t@),
        _ => None,
    }
}

/// The unary operator that a symbol names.
pub open spec fn op1_of(h: Seq<char>) -> Option<Op1> {
    if h == "add1"@ { Some(Op1::Add1) }
    else if h == "sub1"@ { Some(Op1::Sub1) }
    else if h == "isnum"@ { Some(Op1::IsNum) }
    else if h == "isbool"@ { Some(Op1::IsBool) }
    else if h == "print"@ { Some(Op1::Print) }
    else { None }
}

/// The binary operator that a symbol names.
pub open spec fn op2_of(h: Seq<char>) -> Option<Op2> {
    if h == "+"@ { Some(Op2::Plus) }
    else if h == "-"@ { Some(Op2::Minus) }
    else if h == "*"@ { Some(Op2::Times) }
    else if h == "="@ { Some(Op2::Equal) }
    else if h == ">"@ { Some(Op2::Greater) }
    else if h == ">="@ { Some(Op2::GreaterEqual) }
    else if h == "<"@ { Some(Op2::Less) }
    else if h == "<="@ { Some(Op2::LessEqual) }
    else { None }
}

/// `e` is the expression that the S-expression `s` denotes, where `names`
/// are the functions that a call may name.
pub open spec fn parses(s: SExp, names: Seq<Seq<char>>, e: Expr) -> bool
    decreases s,
{
    match s {
        SExp::Int(n) => e == Expr::Number(n),
        SExp::Float => false,
        SExp::Sym(t) => if t@ == "true"@ {
            e == Expr::Boolean(true)
        } else if t@ == "false"@ {
            e == Expr::Boolean(false)
        } else {
            !keyword(t@) && (match e {
                Expr::Id(x) => x@ == t@,
                _ => false,
            })
        },
        SExp::List(items) => {
            let xs = items@;
            if xs.len() == 0 || sym_of(xs[0]) is None {
                false
            } else {
                let h = sym_of(xs[0])->Some_0;
                if h == "let"@ {
                    xs.len() == 3 && match (xs[1], e) {
                        (SExp::List(bl), Expr::Let(bs, body)) => {
                            &&& bindings_parse(bl@, names, bs@)
                            &&& parses(xs[2], names, *body)
                        },
                        _ => false,
                    }
                } else if h == "if"@ {
                    xs.len() == 4 && match e {
                        Expr::If(c, t, f) => parses(xs[1], names, *c) && parses(xs[2], names, *t) && parses(xs[3], names, *f),
                        _ => false,
                    }
                } else if h == "loop"@ {
                    xs.len() == 2 && match e {
                        Expr::Loop(x) => parses(xs[1], names, *x),
                        _ => false,
                    }
                } else if h == "break"@ {
                    xs.len() == 2 && match e {
                        Expr::Break(x) => parses(xs[1], names, *x),
                        _ => false,
                    }
                } else if h == "set!"@ {
                    xs.len() == 3 && sym_of(xs[1]) is Some && !keyword(sym_of(xs[1])->Some_0) && match e {
                        Expr::Assign(n, x) => n@ == sym_of(xs[1])->Some_0 && parses(xs[2], names, *x),
                        _ => false,
                    }
                } else if h == "block"@ {
                    xs.len() >= 2 && match e {
                        Expr::Block(es) => all_parse(xs, 1, names, es@),
                        _ => false,
                    }
                } else if !keyword(h) && names.contains(h) {
                    match e {
                        Expr::Call(f, args) => f@ == h && all_parse(xs, 1, names, args@),
                        _ => false,
                    }
                } else if op1_of(h) is Some {
                    xs.len() == 2 && match e {
                        Expr::UnOp(op, x) => op == op1_of(h)->Some_0 && parses(xs[1], names, *x),
                        _ => false,
                    }
                } else if op2_of(h) is Some {
                    xs.len() == 3 && match e {
                        Expr::BinOp(op, a, b) => op == op2_of(h)->Some_0 && parses(xs[1], names, *a) && parses(xs[2], names, *b),
                        _ => false,
                    }
                } else {
                    false
                }
            }
        },
    }
}

/// The items of a list from `from` on denote `es`, one each.
pub open spec fn all_parse(xs: Seq<SExp>, from: int, names: Seq<Seq<char>>, es: Seq<Expr>) -> bool
    decreases xs,
{
    &&& 0 <= from
    &&& es.len() == xs.len() - from
    &&& forall|k: int| 0 <= k < es.len() ==> parses(#[trigger] xs[k + from], names, es[k])
}

/// Each binding of a `let` denotes the matching name and expression.
pub open spec fn bindings_parse(bl: Seq<SExp>, names: Seq<Seq<char>>, bs: Seq<(String, Expr)>) -> bool
    decreases bl,
{
    &&& bs.len() == bl.len()
    &&& forall|k: int| 0 <= k < bl.len() ==> binding_parses(#[trigger] bl[k], names, bs[k])
}

/// One `let` binding: a list of a non-keyword name and an expression.
pub open spec fn binding_parses(b: SExp, names: Seq<Seq<char>>, pair: (String, Expr)) -> bool
    decreases b,
{
    match b {
        SExp::List(p) => {
            &&& p@.len() == 2
            &&& sym_of(p@[0]) == Some(pair.0@)
            &&& !keyword(pair.0@)
            &&& parses(p@[1], names, pair.1)
        },
        _ => false,
    }
}


/// The head symbol of a list form.
fn head_symbol(items: &Vec<SExp>) -> (r: Option<&String>)
    ensures
        items@.len() == 0 ==> r is None,
        items@.len() > 0 ==> (match r {
            Some(h) => sym_of(items@[0]) == Some(h@) && items@[0] == SExp::Sym(*h),
            None => sym_of(items@[0]) is None,
        }),
{
    if items.len() == 0 {
        return None;
    }
    match &items[0] {
        SExp::Sym(h) => Some(h),
        _ => None,
    }
}

fn op1_named(h: &String) -> (r: Option<Op1>)
    ensures
        r == op1_of(h@),
{
    if eq_lit(h, "add1") { Some(Op1::Add1) }
    else if eq_lit(h, "sub1") { Some(Op1::Sub1) }
    else if eq_lit(h, "isnum") { Some(Op1::IsNum) }
    else if eq_lit(h, "isbool") { Some(Op1::IsBool) }
    else if eq_lit(h, "print") { Some(Op1::Print) }
    else { None }
}

fn op2_named(h: &String) -> (r: Option<Op2>)
    ensures
        r == op2_of(h@),
{
    if eq_lit(h, "+") { Some(Op2::Plus) }
    else if eq_lit(h, "-") { Some(Op2::Minus) }
    else if eq_lit(h, "*") { Some(Op2::Times) }
    else if eq_lit(h, "=") { Some(Op2::Equal) }
    else if eq_lit(h, ">") { Some(Op2::Greater) }
    else if eq_lit(h, ">=") { Some(Op2::GreaterEqual) }
    else if eq_lit(h, "<") { Some(Op2::Less) }
    else if eq_lit(h, "<=") { Some(Op2::LessEqual) }
    else { None }
}

fn name_listed(names: &Vec<String>, h: &String) -> (r: bool)
    ensures
        r == views(names@).contains(h@),
{
    let mut i: usize = 0;
    while i < names.len()
        invariant
            i <= views(names@).len(),
            forall|k: int| 0 <= k < i ==> names@[k]@ != h@,
        decreases views(names@).len() - i,
    {
        if names[i] == *h {
            proof { assert(views(names@)[i as int] == h@); }
            return true;
        }
        i = i + 1;
    }
    proof {
        if views(names@).contains(h@) {
            let k = choose|k: int| 0 <= k < views(names@).len() && views(names@)[k] == h@;
            assert(views(names@)[k] == names@[k]@);
        }
    }
    false
}

/// Turns an S-expression into an expression; `def_names` are the functions
/// that a call may name.
pub fn parse_expr(s: &SExp, def_names: &Vec<String>) -> (r: Result<Expr, ParseError>)
    ensures
        r is Ok ==> parses(*s, views(def_names@), r->Ok_0),
        r is Err ==> forall|e: Expr| !parses(*s, views(def_names@), e),
        r is Err ==> r->Err_0 is Invalid || r->Err_0 is Keyword,
        (*s matches SExp::Sym(t) ==> (r is Err ==> r->Err_0 == ParseError::Keyword(t))),
        *s is Float ==> r == Err::<Expr, ParseError>(ParseError::Invalid),
    decreases *s, 2int,
{
    match s {
        SExp::Int(n) => Ok(Expr::Number(*n)),
        SExp::Float => Err(ParseError::Invalid),
        SExp::Sym(t) => {
            if eq_lit(t, "true") {
                Ok(Expr::Boolean(true))
            } else if eq_lit(t, "false") {
                Ok(Expr::Boolean(false))
            } else if is_keyword(t) {
                Err(ParseError::Keyword(t.clone()))
            } else {
                Ok(Expr::Id(t.clone()))
            }
        },
        SExp::List(items) => parse_list(items, def_names, Ghost(*s)),
    }
}

fn parse_all(xs: &Vec<SExp>, from: usize, names: &Vec<String>, Ghost(whole): Ghost<SExp>) -> (r: Result<Vec<Expr>, ParseError>)
    requires
        whole == SExp::List(*xs),
        1 <= from <= xs@.len(),
    ensures
        r is Ok ==> all_parse(xs@, from as int, views(names@), r->Ok_0@),
        r is Err ==> forall|es: Seq<Expr>| !all_parse(xs@, from as int, views(names@), es),
        r is Err ==> r->Err_0 is Invalid || r->Err_0 is Keyword,
    decreases whole, 0int,
{
    let mut out: Vec<Expr> = Vec::new();
    let mut i: usize = from;
    while i < xs.len()
        invariant
            whole == SExp::List(*xs),
            from <= i <= xs@.len(),
            out@.len() == i - from,
            forall|k: int| 0 <= k < out@.len() ==> parses(#[trigger] xs@[k + from], views(names@), out@[k]),
        decreases xs@.len() - i,
    {
        proof {
            assert(decreases_to!(whole => whole->List_0));
            assert(decreases_to!(whole->List_0 => (whole->List_0)@));
            assert(decreases_to!(xs@ => xs@[i as int]));
        }
        match parse_expr(&xs[i], names) {
            Ok(e) => {
                let ghost before = out@;
                out.push(e);
                proof {
                    assert forall|k: int| 0 <= k < out@.len() implies parses(#[trigger] xs@[k + from], views(names@), out@[k]) by {
                        if k < out@.len() - 1 {
                            assert(out@[k] == before[k]);
                        }
                    }
                }
            },
            Err(err) => {
                proof {
                    assert forall|es: Seq<Expr>| !all_parse(xs@, from as int, views(names@), es) by {
                        if all_parse(xs@, from as int, views(names@), es) {
                            assert(parses(xs@[(i - from) + from], views(names@), es[i - from]));
                        }
                    }
                }
                return Err(err);
            },
        }
        i = i + 1;
    }
    Ok(out)
}


fn parse_bindings(bl: &Vec<SExp>, names: &Vec<String>, Ghost(whole): Ghost<SExp>) -> (r: Result<Vec<(String, Expr)>, ParseError>)
    requires
        whole == SExp::List(*bl),
    ensures
        r is Ok ==> bindings_parse(bl@, views(names@), r->Ok_0@),
        r is Err ==> forall|bs: Seq<(String, Expr)>| !bindings_parse(bl@, views(names@), bs),
        r is Err ==> r->Err_0 is Invalid || r->Err_0 is Keyword,
    decreases whole, 0int,
{
    let mut out: Vec<(String, Expr)> = Vec::new();
    let mut i: usize = 0;
    while i < bl.len()
        invariant
            whole == SExp::List(*bl),
            i <= bl@.len(),
            out@.len() == i,
            forall|k: int| 0 <= k < i ==> binding_parses(#[trigger] bl@[k], views(names@), out@[k]),
        decreases bl@.len() - i,
    {
        proof {
            assert(decreases_to!(whole => whole->List_0));
            assert(decreases_to!(whole->List_0 => (whole->List_0)@));
            assert(decreases_to!(bl@ => bl@[i as int]));
        }
        let b = &bl[i];
        match b {
            SExp::List(pair) => {
                if pair.len() != 2 {
                    proof { assert(forall|bs: Seq<(String, Expr)>| bindings_parse(bl@, views(names@), bs) ==> binding_parses(bl@[i as int], views(names@), bs[i as int])); }
                    return Err(ParseError::Invalid);
                }
                let name = match &pair[0] {
                    SExp::Sym(n) => n,
                    _ => {
                        proof { assert(forall|bs: Seq<(String, Expr)>| bindings_parse(bl@, views(names@), bs) ==> binding_parses(bl@[i as int], views(names@), bs[i as int])); }
                        return Err(ParseError::Invalid);
                    },
                };
                if is_keyword(name) {
                    proof { assert(forall|bs: Seq<(String, Expr)>| bindings_parse(bl@, views(names@), bs) ==> binding_parses(bl@[i as int], views(names@), bs[i as int])); }
                    return Err(ParseError::Keyword(name.clone()));
                }
                proof {
                    assert(decreases_to!(*b => (*b)->List_0));
                    assert(decreases_to!((*b)->List_0 => ((*b)->List_0)@));
                    assert(decreases_to!(pair@ => pair@[1]));
                }
                let e = match parse_expr(&pair[1], names) {
                    Ok(e) => e,
                    Err(err) => {
                        proof {
                            assert forall|bs: Seq<(String, Expr)>| !bindings_parse(bl@, views(names@), bs) by {
                                if bindings_parse(bl@, views(names@), bs) {
                                    assert(binding_parses(bl@[i as int], views(names@), bs[i as int]));
                                    assert(parses(pair@[1], views(names@), bs[i as int].1));
                                }
                            }
                        }
                        return Err(err);
                    },
                };
                let ghost before = out@;
                out.push((name.clone(), e));
                proof {
                    assert forall|k: int| 0 <= k < i + 1 implies binding_parses(#[trigger] bl@[k], views(names@), out@[k]) by {
                        if k < i {
                            assert(out@[k] == before[k]);
                        }
                    }
                }
            },
            _ => {
                proof { assert(forall|bs: Seq<(String, Expr)>| bindings_parse(bl@, views(names@), bs) ==> binding_parses(bl@[i as int], views(names@), bs[i as int])); }
                return Err(ParseError::Invalid);
            },
        }
        i = i + 1;
    }
    Ok(out)
}

fn parse_list(items: &Vec<SExp>, names: &Vec<String>, Ghost(whole): Ghost<SExp>) -> (r: Result<Expr, ParseError>)
    requires
        whole == SExp::List(*items),
    ensures
        r is Ok ==> parses(whole, views(names@), r->Ok_0),
        r is Err ==> forall|e: Expr| !parses(whole, views(names@), e),
        r is Err ==> r->Err_0 is Invalid || r->Err_0 is Keyword,
    decreases whole, 1int,
{
    let h = match head_symbol(items) {
        Some(h) => h,
        None => return Err(ParseError::Invalid),
    };
    let n = items.len();
    proof {
        assert(decreases_to!(whole => whole->List_0));
        assert(decreases_to!(whole->List_0 => (whole->List_0)@));
        assert(forall|k: int| 0 <= k < items@.len() ==> decreases_to!(items@ => #[trigger] items@[k]));
    }
    if eq_lit(h, "let") {
        if n != 3 {
            return Err(ParseError::Invalid);
        }
        match &items[1] {
            SExp::List(bl) => {
                let bs = match parse_bindings(bl, names, Ghost(items@[1])) {
                    Ok(bs) => bs,
                    Err(err) => {
                        proof {
                            assert forall|e: Expr| !parses(whole, views(names@), e) by {
                                if parses(whole, views(names@), e) {
                                    assert(bindings_parse(bl@, views(names@), e->Let_0@));
                                }
                            }
                        }
                        return Err(err);
                    },
                };
                let body = match parse_expr(&items[2], names) {
                    Ok(b) => b,
                    Err(err) => { proof { assert forall|e: Expr| !parses(whole, views(names@), e) by { if parses(whole, views(names@), e) { assert(parses(items@[2], views(names@), *e->Let_1)); } } } return Err(err) },
                };
                Ok(Expr::Let(bs, Box::new(body)))
            },
            _ => Err(ParseError::Invalid),
        }
    } else if eq_lit(h, "if") {
        if n != 4 {
            return Err(ParseError::Invalid);
        }
        let c = match parse_expr(&items[1], names) { Ok(x) => x, Err(err) => { proof { assert forall|e: Expr| !parses(whole, views(names@), e) by { if parses(whole, views(names@), e) { assert(parses(items@[1], views(names@), *e->If_0)); } } } return Err(err) } };
        let t = match parse_expr(&items[2], names) { Ok(x) => x, Err(err) => { proof { assert forall|e: Expr| !parses(whole, views(names@), e) by { if parses(whole, views(names@), e) { assert(parses(items@[2], views(names@), *e->If_1)); } } } return Err(err) } };
        let f = match parse_expr(&items[3], names) { Ok(x) => x, Err(err) => { proof { assert forall|e: Expr| !parses(whole, views(names@), e) by { if parses(whole, views(names@), e) { assert(parses(items@[3], views(names@), *e->If_2)); } } } return Err(err) } };
        Ok(Expr::If(Box::new(c), Box::new(t), Box::new(f)))
    } else if eq_lit(h, "loop") || eq_lit(h, "break") {
        if n != 2 {
            return Err(ParseError::Invalid);
        }
        let x = match parse_expr(&items[1], names) {
            Ok(x) => x,
            Err(err) => {
                proof {
                    assert forall|e: Expr| !parses(whole, views(names@), e) by {
                        if parses(whole, views(names@), e) {
                            if h@ == "loop"@ {
                                assert(parses(items@[1], views(names@), *e->Loop_0));
                            } else {
                                assert(parses(items@[1], views(names@), *e->Break_0));
                            }
                        }
                    }
                }
                return Err(err);
            },
        };
        if eq_lit(h, "loop") {
            Ok(Expr::Loop(Box::new(x)))
        } else {
            Ok(Expr::Break(Box::new(x)))
        }
    } else if eq_lit(h, "set!") {
        if n != 3 {
            return Err(ParseError::Invalid);
        }
        let target = match &items[1] {
            SExp::Sym(t) => t,
            _ => return Err(ParseError::Invalid),
        };
        if is_keyword(target) {
            return Err(ParseError::Keyword(target.clone()));
        }
        let x = match parse_expr(&items[2], names) { Ok(x) => x, Err(err) => { proof { assert forall|e: Expr| !parses(whole, views(names@), e) by { if parses(whole, views(names@), e) { assert(parses(items@[2], views(names@), *e->Assign_1)); } } } return Err(err) } };
        Ok(Expr::Assign(target.clone(), Box::new(x)))
    } else if eq_lit(h, "block") {
        if n < 2 {
            return Err(ParseError::Invalid);
        }
        let es = match parse_all(items, 1, names, Ghost(whole)) {
            Ok(es) => es,
            Err(err) => {
                proof {
                    assert forall|e: Expr| !parses(whole, views(names@), e) by {
                        if parses(whole, views(names@), e) {
                            assert(all_parse(items@, 1, views(names@), e->Block_0@));
                        }
                    }
                }
                return Err(err);
            },
        };
        Ok(Expr::Block(es))
    } else if !is_keyword(h) && name_listed(names, h) {
        let args = match parse_all(items, 1, names, Ghost(whole)) {
            Ok(es) => es,
            Err(err) => {
                proof {
                    assert forall|e: Expr| !parses(whole, views(names@), e) by {
                        if parses(whole, views(names@), e) {
                            assert(all_parse(items@, 1, views(names@), e->Call_1@));
                        }
                    }
                }
                return Err(err);
            },
        };
        Ok(Expr::Call(h.clone(), args))
    } else {
        match op1_named(h) {
            Some(op) => {
                if n != 2 {
                    return Err(ParseError::Invalid);
                }
                let x = match parse_expr(&items[1], names) { Ok(x) => x, Err(err) => { proof { assert forall|e: Expr| !parses(whole, views(names@), e) by { if parses(whole, views(names@), e) { assert(parses(items@[1], views(names@), *e->UnOp_1)); } } } return Err(err) } };
                Ok(Expr::UnOp(op, Box::new(x)))
            },
            None => match op2_named(h) {
                Some(op) => {
                    if n != 3 {
                        return Err(ParseError::Invalid);
                    }
                    let a = match parse_expr(&items[1], names) { Ok(x) => x, Err(err) => { proof { assert forall|e: Expr| !parses(whole, views(names@), e) by { if parses(whole, views(names@), e) { assert(parses(items@[1], views(names@), *e->BinOp_1)); } } } return Err(err) } };
                    let b = match parse_expr(&items[2], names) { Ok(x) => x, Err(err) => { proof { assert forall|e: Expr| !parses(whole, views(names@), e) by { if parses(whole, views(names@), e) { assert(parses(items@[2], views(names@), *e->BinOp_2)); } } } return Err(err) } };
                    Ok(Expr::BinOp(op, Box::new(a), Box::new(b)))
                },
                None => Err(ParseError::Invalid),
            },
        }
    }
}


/// `name` and `params` are what a function header `(name p1 ... pk)`
/// declares: non-keyword symbols, the parameters all different.
pub open spec fn header_parses(ps: Seq<SExp>, name: Seq<char>, params: Seq<String>) -> bool {
    &&& ps.len() >= 1
    &&& sym_of(ps[0]) == Some(name)
    &&& !keyword(name)
    &&& params.len() == ps.len() - 1
    &&& forall|k: int| 0 <= k < params.len() ==> sym_of(#[trigger] ps[k + 1]) == Some(params[k]@) && !keyword(params[k]@)
    &&& forall|a: int, b: int| 0 <= a < b < params.len() ==> params[a]@ != params[b]@
}

/// The first error among the parameters `ps[1..i]` of a header: an item
/// that is not a symbol, a keyword, or a name already used.
pub open spec fn params_error(ps: Seq<SExp>, i: int) -> Option<ParseError>
    decreases i,
{
    if i <= 1 || i > ps.len() {
        None
    } else {
        match params_error(ps, i - 1) {
            Some(err) => Some(err),
            None => match ps[i - 1] {
                SExp::Sym(t) => if keyword(t@) {
                    Some(ParseError::Keyword(t))
                } else if exists|j: int| 1 <= j < i - 1 && sym_of(ps[j]) == Some(t@) {
                    Some(ParseError::DuplicateParameterName)
                } else {
                    None
                },
                _ => Some(ParseError::Invalid),
            },
        }
    }
}

/// The first error of a function header `(name p1 ... pk)`, or `None`
/// where it declares a function.
pub open spec fn header_error(ps: Seq<SExp>) -> Option<ParseError> {
    if ps.len() == 0 {
        Some(ParseError::Invalid)
    } else {
        match ps[0] {
            SExp::Sym(n) => if keyword(n@) { Some(ParseError::Keyword(n)) } else { params_error(ps, ps.len() as int) },
            _ => Some(ParseError::Invalid),
        }
    }
}

proof fn lemma_params_error_prefix(ps: Seq<SExp>, i: int, j: int)
    requires
        1 <= i <= j <= ps.len(),
        params_error(ps, i) is Some,
    ensures
        params_error(ps, j) == params_error(ps, i),
    decreases j - i,
{
    if i < j {
        lemma_params_error_prefix(ps, i, j - 1);
    }
}

fn parse_fun_header(ps: &Vec<SExp>) -> (r: Result<(String, Vec<String>), ParseError>)
    ensures
        r is Ok ==> header_parses(ps@, r->Ok_0.0@, r->Ok_0.1@),
        r is Err ==> forall|n: Seq<char>, p: Seq<String>| !header_parses(ps@, n, p),
        r is Err ==> header_error(ps@) == Some(r->Err_0),
        r is Ok ==> header_error(ps@) is None,
{
    let fname = match head_symbol(ps) {
        Some(n) => n,
        None => return Err(ParseError::Invalid),
    };
    if is_keyword(fname) {
        return Err(ParseError::Keyword(fname.clone()));
    }
    proof {
        assert(ps@[0] == SExp::Sym(*fname));
    }
    let mut params: Vec<String> = Vec::new();
    let mut i: usize = 1;
    while i < ps.len()
        invariant
            1 <= i <= ps@.len(),
            sym_of(ps@[0]) == Some(fname@),
            params@.len() == i - 1,
            forall|k: int| 0 <= k < params@.len() ==> sym_of(#[trigger] ps@[k + 1]) == Some(params@[k]@) && !keyword(params@[k]@),
            forall|a: int, b: int| 0 <= a < b < params@.len() ==> params@[a]@ != params@[b]@,
            ps@[0] == SExp::Sym(*fname),
            !keyword(fname@),
            params_error(ps@, i as int) is None,
        decreases ps@.len() - i,
    {
        let p = match &ps[i] {
            SExp::Sym(p) => p,
            _ => {
                proof {
                    lemma_params_error_prefix(ps@, i + 1, ps@.len() as int);
                    assert forall|n: Seq<char>, q: Seq<String>| !header_parses(ps@, n, q) by {
                        if header_parses(ps@, n, q) {
                            assert(sym_of(ps@[(i - 1) + 1]) == Some(q[i - 1]@));
                        }
                    }
                }
                return Err(ParseError::Invalid);
            },
        };
        if is_keyword(p) {
            proof {
                assert(ps@[i as int] == SExp::Sym(*p));
                lemma_params_error_prefix(ps@, i + 1, ps@.len() as int);
                assert forall|n: Seq<char>, q: Seq<String>| !header_parses(ps@, n, q) by {
                    if header_parses(ps@, n, q) {
                        assert(sym_of(ps@[(i - 1) + 1]) == Some(q[i - 1]@));
                    }
                }
            }
            return Err(ParseError::Keyword(p.clone()));
        }
        if name_listed(&params, p) {
            proof {
                let a = choose|a: int| 0 <= a < views(params@).len() && views(params@)[a] == p@;
                assert(views(params@)[a] == params@[a]@);
                assert(ps@[i as int] == SExp::Sym(*p));
                assert(sym_of(ps@[a + 1]) == Some(p@));
                assert(params_error(ps@, i + 1) == Some(ParseError::DuplicateParameterName));
                lemma_params_error_prefix(ps@, i + 1, ps@.len() as int);
                assert forall|n: Seq<char>, q: Seq<String>| !header_parses(ps@, n, q) by {
                    if header_parses(ps@, n, q) {
                        assert(sym_of(ps@[(i - 1) + 1]) == Some(q[i - 1]@));
                        assert(sym_of(ps@[a + 1]) == Some(q[a]@));
                    }
                }
            }
            return Err(ParseError::DuplicateParameterName);
        }
        let ghost before = params@;
        params.push(p.clone());
        proof {
            assert(ps@[i as int] == SExp::Sym(*p));
            assert(!(exists|j: int| 1 <= j < i && sym_of(ps@[j]) == Some(p@))) by {
                if exists|j: int| 1 <= j < i && sym_of(ps@[j]) == Some(p@) {
                    let j = choose|j: int| 1 <= j < i && sym_of(ps@[j]) == Some(p@);
                    assert(sym_of(ps@[(j - 1) + 1]) == Some(before[j - 1]@));
                    assert(views(before)[j - 1] == before[j - 1]@);
                }
            }
            assert(params_error(ps@, i + 1) is None);
            assert forall|k: int| 0 <= k < params@.len() implies sym_of(#[trigger] ps@[k + 1]) == Some(params@[k]@) && !keyword(params@[k]@) by {
                if k < before.len() {
                    assert(params@[k] == before[k]);
                }
            }
            assert forall|a: int, b: int| 0 <= a < b < params@.len() implies params@[a]@ != params@[b]@ by {
                assert(!views(before).contains(p@));
                if a < before.len() {
                    assert(views(before)[a] == before[a]@);
                }
                if b < before.len() {
                    assert(params@[a] == before[a]);
                    assert(params@[b] == before[b]);
                } else {
                    assert(params@[a] == before[a]);
                }
            }
        }
        i = i + 1;
    }
    Ok((fname.clone(), params))
}

/// The shape `(define name e)`.
pub open spec fn is_define_form(s: SExp) -> bool {
    match s {
        SExp::List(xs) => xs@.len() == 3 && sym_of(xs@[0]) == Some("define"@) && sym_of(xs@[1]) is Some,
        _ => false,
    }
}

/// The shape `(fun (name params...) body)`.
pub open spec fn is_fun_form(s: SExp) -> bool {
    match s {
        SExp::List(xs) => xs@.len() == 3 && sym_of(xs@[0]) == Some("fun"@) && xs@[1] is List,
        _ => false,
    }
}

/// `r` is the interactive form that `s` denotes, where `names` are the
/// functions registered so far. A function's body may call the function
/// itself; a `define`d expression calls none.
pub open spec fn repl_parses(s: SExp, names: Seq<Seq<char>>, r: ReplExpr) -> bool {
    if is_define_form(s) {
        let xs = s->List_0@;
        match r {
            ReplExpr::Define(v, e) => v@ == sym_of(xs[1])->Some_0 && parses(xs[2], Seq::empty(), *e),
            _ => false,
        }
    } else if is_fun_form(s) {
        let xs = s->List_0@;
        match r {
            ReplExpr::Fun(n, ps, body) => {
                &&& header_parses(xs[1]->List_0@, n@, ps@)
                &&& !names.contains(n@)
                &&& parses(xs[2], names.push(n@), *body)
            },
            _ => false,
        }
    } else {
        match r {
            ReplExpr::Expr(e) => parses(s, names, *e),
            _ => false,
        }
    }
}

/// Turns an S-expression typed at the prompt into a form; `def_names` are
/// the functions registered so far.
pub fn parse_repl_expr(s: &SExp, def_names: &Vec<String>) -> (r: Result<ReplExpr, ParseError>)
    ensures
        r is Ok ==> repl_parses(*s, views(def_names@), r->Ok_0),
        r is Err ==> forall|x: ReplExpr| !repl_parses(*s, views(def_names@), x),
        (is_fun_form(*s) && (exists|n: Seq<char>, p: Seq<String>| header_parses(s->List_0@[1]->List_0@, n, p)
            && views(def_names@).contains(n))) ==> r == Err::<ReplExpr, ParseError>(ParseError::DuplicateFunctionName),
{
    if let SExp::List(xs) = s {
        if xs.len() == 3 {
            if let SExp::Sym(op) = &xs[0] {
                if eq_lit(op, "define") {
                    if let SExp::Sym(v) = &xs[1] {
                        let no_names: Vec<String> = Vec::new();
                        proof { assert(views(no_names@) =~= Seq::<Seq<char>>::empty()); }
                        return match parse_expr(&xs[2], &no_names) {
                            Ok(e) => Ok(ReplExpr::Define(v.clone(), Box::new(e))),
                            Err(err) => {
                                proof {
                                    assert forall|x: ReplExpr| !repl_parses(*s, views(def_names@), x) by {
                                        if repl_parses(*s, views(def_names@), x) {
                                            assert(parses(xs@[2], Seq::empty(), *x->Define_1));
                                        }
                                    }
                                }
                                Err(err)
                            },
                        };
                    }
                } else if eq_lit(op, "fun") {
                    if let SExp::List(ps) = &xs[1] {
                        let (fname, params) = match parse_fun_header(ps) {
                            Ok(h) => h,
                            Err(err) => {
                                proof {
                                    assert forall|x: ReplExpr| !repl_parses(*s, views(def_names@), x) by {
                                        if repl_parses(*s, views(def_names@), x) {
                                            assert(header_parses(ps@, x->Fun_0@, x->Fun_1@));
                                        }
                                    }
                                }
                                return Err(err);
                            },
                        };
                        if name_listed(def_names, &fname) {
                            proof {
                                assert forall|x: ReplExpr| !repl_parses(*s, views(def_names@), x) by {
                                    if repl_parses(*s, views(def_names@), x) {
                                        assert(sym_of(ps@[0]) == Some(x->Fun_0@));
                                    }
                                }
                            }
                            return Err(ParseError::DuplicateFunctionName);
                        }
                        let mut names = copy_names(def_names);
                        names.push(fname.clone());
                        proof { assert(views(names@) =~= views(def_names@).push(fname@)); }
                        let body = match parse_expr(&xs[2], &names) {
                            Ok(b) => b,
                            Err(err) => {
                                proof {
                                    assert forall|x: ReplExpr| !repl_parses(*s, views(def_names@), x) by {
                                        if repl_parses(*s, views(def_names@), x) {
                                            assert(sym_of(ps@[0]) == Some(x->Fun_0@));
                                            assert(views(def_names@).push(x->Fun_0@) =~= views(names@));
                                            assert(parses(xs@[2], views(names@), *x->Fun_2));
                                        }
                                    }
                                }
                                return Err(err);
                            },
                        };
                        return Ok(ReplExpr::Fun(fname, params, Box::new(body)));
                    }
                }
            }
        }
    }
    proof {
        reveal_strlit("define");
        reveal_strlit("fun");
        assert("define"@ != "fun"@) by {
            assert("define"@.len() != "fun"@.len());
        }
        assert(!is_define_form(*s));
        assert(!is_fun_form(*s));
    }
    match parse_expr(s, def_names) {
        Ok(e) => Ok(ReplExpr::Expr(Box::new(e))),
        Err(err) => Err(err),
    }
}

fn copy_names(names: &Vec<String>) -> (r: Vec<String>)
    ensures
        r@ == names@,
{
    let mut out: Vec<String> = Vec::new();
    let mut i: usize = 0;
    while i < names.len()
        invariant
            i <= names@.len(),
            out@ == names@.subrange(0, i as int),
        decreases names@.len() - i,
    {
        out.push(names[i].clone());
        assert(out@ =~= names@.subrange(0, i + 1));
        i = i + 1;
    }
    assert(out@ =~= names@);
    out
}


/// The names of function definitions.
pub open spec fn def_names_of(defs: Seq<Defenition>) -> Seq<Seq<char>> {
    defs.map_values(|d: Defenition| d->Fun_0@)
}

/// `item` is a `fun` form that denotes the definition `d`; its body may call
/// any of `names`.
pub open spec fn def_item_parses(item: SExp, names: Seq<Seq<char>>, d: Defenition) -> bool {
    is_fun_form(item) && header_parses(item->List_0@[1]->List_0@, d->Fun_0@, d->Fun_1@)
        && parses(item->List_0@[2], names, *d->Fun_2)
}

/// `p` is the program that `s` denotes: a lone expression, or a list of
/// `fun` forms with different names followed by the main expression, where
/// every body and the main expression may call every function.
pub open spec fn prog_parses(s: SExp, p: Program) -> bool {
    match s {
        SExp::List(items) => {
            let xs = items@;
            let n = xs.len() - 1;
            let names = def_names_of(p.defs@);
            if xs.len() == 1 {
                p.defs@.len() == 0 && parses(xs[0], Seq::empty(), p.main)
            } else {
                &&& xs.len() >= 2
                &&& p.defs@.len() == n
                &&& forall|a: int, b: int| 0 <= a < b < n ==> names[a] != names[b]
                &&& forall|k: int| 0 <= k < n ==> def_item_parses(#[trigger] xs[k], names, p.defs@[k])
                &&& parses(xs[n], names, p.main)
            }
        },
        _ => p.defs@.len() == 0 && parses(s, Seq::empty(), p.main),
    }
}

fn fun_parts(item: &SExp) -> (r: Option<(&Vec<SExp>, &SExp)>)
    ensures
        r is Some <==> is_fun_form(*item),
        r matches Some((ps, body)) ==> *ps == item->List_0@[1]->List_0 && *body == item->List_0@[2],
{
    proof {
        reveal_strlit("fun");
    }
    if let SExp::List(xs) = item {
        if xs.len() == 3 {
            if let SExp::Sym(op) = &xs[0] {
                if eq_lit(op, "fun") {
                    if let SExp::List(ps) = &xs[1] {
                        return Some((ps, &xs[2]));
                    }
                }
            }
        }
    }
    None
}

/// The name that a `fun` form declares.
pub open spec fn fun_form_name(item: SExp) -> Option<Seq<char>> {
    sym_of(item->List_0@[1]->List_0@[0])
}

/// A program of well-formed `fun` forms followed by a main expression, two
/// of which declare one name.
pub open spec fn clashing_funs(s: SExp) -> bool {
    &&& s is List
    &&& s->List_0@.len() >= 2
    &&& forall|k: int| 0 <= k < s->List_0@.len() - 1 ==> is_fun_form(#[trigger] s->List_0@[k])
        && header_error(s->List_0@[k]->List_0@[1]->List_0@) is None
    &&& exists|a: int, b: int| 0 <= a < b < s->List_0@.len() - 1
        && fun_form_name(s->List_0@[a]) == fun_form_name(s->List_0@[b])
}

/// Turns a whole program into its definitions and main expression.
pub fn parse_prog(s: &SExp) -> (r: Result<Program, ParseError>)
    ensures
        r is Ok ==> prog_parses(*s, r->Ok_0),
        r is Err ==> forall|p: Program| !prog_parses(*s, p),
        clashing_funs(*s) ==> r == Err::<Program, ParseError>(ParseError::DuplicateFunctionName),
{
    let items = match s {
        SExp::List(items) => items,
        _ => {
            let no_names: Vec<String> = Vec::new();
            proof { assert(views(no_names@) =~= Seq::<Seq<char>>::empty()); }
            let main = match parse_expr(s, &no_names) {
                Ok(e) => e,
                Err(err) => {
                    proof { assert(forall|p: Program| prog_parses(*s, p) ==> parses(*s, Seq::empty(), p.main)); }
                    return Err(err);
                },
            };
            return Ok(Program { defs: Vec::new(), main });
        },
    };
    if items.len() == 0 {
        return Err(ParseError::Invalid);
    }
    let n = items.len() - 1;
    if n == 0 {
        let no_names: Vec<String> = Vec::new();
        proof { assert(views(no_names@) =~= Seq::<Seq<char>>::empty()); }
        let main = match parse_expr(&items[0], &no_names) {
            Ok(e) => e,
            Err(err) => {
                proof { assert(forall|p: Program| prog_parses(*s, p) ==> parses(items@[0], Seq::empty(), p.main)); }
                return Err(err);
            },
        };
        return Ok(Program { defs: Vec::new(), main });
    }
    let mut names: Vec<String> = Vec::new();
    let mut i: usize = 0;
    while i < n
        invariant
            *s == SExp::List(*items),
            n == items@.len() - 1,
            n >= 1,
            i <= n,
            names@.len() == i,
            forall|k: int| 0 <= k < i ==> is_fun_form(#[trigger] items@[k])
                && sym_of(items@[k]->List_0@[1]->List_0@[0]) == Some(names@[k]@),
            forall|a: int, b: int| 0 <= a < b < i ==> names@[a]@ != names@[b]@,
        decreases n - i,
    {
        let (ps, _) = match fun_parts(&items[i]) {
            Some(parts) => parts,
            None => {
                proof {
                    assert(forall|p: Program| prog_parses(*s, p) ==> def_item_parses(items@[i as int], def_names_of(p.defs@), p.defs@[i as int]));
                    assert(clashing_funs(*s) ==> is_fun_form(items@[i as int]));
                }
                return Err(ParseError::Invalid);
            },
        };
        let (name, _) = match parse_fun_header(ps) {
            Ok(h) => h,
            Err(err) => {
                proof {
                    assert forall|p: Program| !prog_parses(*s, p) by {
                        if prog_parses(*s, p) {
                            assert(def_item_parses(items@[i as int], def_names_of(p.defs@), p.defs@[i as int]));
                        }
                    }
                    assert(clashing_funs(*s) ==> header_error(items@[i as int]->List_0@[1]->List_0@) is None);
                }
                return Err(err);
            },
        };
        if name_listed(&names, &name) {
            proof {
                let a = choose|a: int| 0 <= a < views(names@).len() && views(names@)[a] == name@;
                assert(views(names@)[a] == names@[a]@);
                assert forall|p: Program| !prog_parses(*s, p) by {
                    if prog_parses(*s, p) {
                        assert(def_item_parses(items@[i as int], def_names_of(p.defs@), p.defs@[i as int]));
                        assert(def_item_parses(items@[a], def_names_of(p.defs@), p.defs@[a]));
                        assert(def_names_of(p.defs@)[a] == def_names_of(p.defs@)[i as int]);
                    }
                }
            }
            return Err(ParseError::DuplicateFunctionName);
        }
        let ghost before = names@;
        names.push(name);
        proof {
            assert(!views(before).contains(names@[i as int]@));
            assert forall|a: int, b: int| 0 <= a < b < i + 1 implies names@[a]@ != names@[b]@ by {
                assert(names@[a] == before[a]);
                if b < i {
                    assert(names@[b] == before[b]);
                } else {
                    assert(views(before)[a] == before[a]@);
                }
            }
            assert forall|k: int| 0 <= k < i + 1 implies is_fun_form(#[trigger] items@[k])
                && sym_of(items@[k]->List_0@[1]->List_0@[0]) == Some(names@[k]@) by {
                if k < i {
                    assert(names@[k] == before[k]);
                }
            }
        }
        i = i + 1;
    }
    proof {
        assert(!clashing_funs(*s)) by {
            if clashing_funs(*s) {
                let (a, b) = choose|a: int, b: int| 0 <= a < b < items@.len() - 1
                    && fun_form_name(items@[a]) == fun_form_name(items@[b]);
                assert(sym_of(items@[a]->List_0@[1]->List_0@[0]) == Some(names@[a]@));
                assert(sym_of(items@[b]->List_0@[1]->List_0@[0]) == Some(names@[b]@));
            }
        }
        assert forall|p: Program| prog_parses(*s, p) implies def_names_of(p.defs@) =~= views(names@) by {
            assert forall|k: int| 0 <= k < n implies def_names_of(p.defs@)[k] == views(names@)[k] by {
                assert(def_item_parses(items@[k], def_names_of(p.defs@), p.defs@[k]));
            }
        }
    }
    let mut defs: Vec<Defenition> = Vec::new();
    let mut j: usize = 0;
    while j < n
        invariant
            *s == SExp::List(*items),
            n == items@.len() - 1,
            n >= 1,
            j <= n,
            names@.len() == n,
            defs@.len() == j,
            forall|k: int| 0 <= k < n ==> is_fun_form(#[trigger] items@[k])
                && sym_of(items@[k]->List_0@[1]->List_0@[0]) == Some(names@[k]@),
            forall|k: int| 0 <= k < j ==> (#[trigger] defs@[k])->Fun_0@ == names@[k]@
                && def_item_parses(items@[k], views(names@), defs@[k]),
            forall|p: Program| prog_parses(*s, p) ==> def_names_of(p.defs@) == views(names@),
            !clashing_funs(*s),
        decreases n - j,
    {
        let (ps, body) = match fun_parts(&items[j]) {
            Some(parts) => parts,
            None => {
                proof { assert(forall|p: Program| prog_parses(*s, p) ==> def_item_parses(items@[j as int], def_names_of(p.defs@), p.defs@[j as int])); }
                return Err(ParseError::Invalid);
            },
        };
        let (name, params) = match parse_fun_header(ps) {
            Ok(h) => h,
            Err(err) => {
                proof {
                    assert forall|p: Program| !prog_parses(*s, p) by {
                        if prog_parses(*s, p) {
                            assert(def_item_parses(items@[j as int], def_names_of(p.defs@), p.defs@[j as int]));
                        }
                    }
                }
                return Err(err);
            },
        };
        let b = match parse_expr(body, &names) {
            Ok(e) => e,
            Err(err) => {
                proof {
                    assert forall|p: Program| !prog_parses(*s, p) by {
                        if prog_parses(*s, p) {
                            assert(def_item_parses(items@[j as int], def_names_of(p.defs@), p.defs@[j as int]));
                        }
                    }
                }
                return Err(err);
            },
        };
        let ghost before = defs@;
        defs.push(Defenition::Fun(name, params, Box::new(b)));
        proof {
            assert forall|k: int| 0 <= k < j + 1 implies (#[trigger] defs@[k])->Fun_0@ == names@[k]@
                && def_item_parses(items@[k], views(names@), defs@[k]) by {
                if k < j {
                    assert(defs@[k] == before[k]);
                }
            }
        }
        j = j + 1;
    }
    let main = match parse_expr(&items[n], &names) {
        Ok(e) => e,
        Err(err) => {
            proof { assert(forall|p: Program| prog_parses(*s, p) ==> parses(items@[n as int], views(names@), p.main)); }
            return Err(err);
        },
    };
    let prog = Program { defs, main };
    proof {
        assert(def_names_of(prog.defs@) =~= views(names@)) by {
            assert forall|k: int| 0 <= k < n implies def_names_of(prog.defs@)[k] == views(names@)[k] by {
                assert(prog.defs@[k]->Fun_0@ == names@[k]@);
            }
        }
    }
    Ok(prog)
}

} // verus!
