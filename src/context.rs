use vstd::prelude::*;

verus! {

/// The value bound to `name` in an association list: its last entry wins,
/// so a later binding shadows an earlier one.
pub open spec fn lookup<V>(m: Seq<(String, V)>, name: Seq<char>) -> Option<V>
    decreases m.len(),
{
    if m.len() == 0 {
        None
    } else if m.last().0@ == name {
        Some(m.last().1)
    } else {
        lookup(m.drop_last(), name)
    }
}

/// Finds the last entry for `name`.
pub fn find<V: Copy>(m: &Vec<(String, V)>, name: &String) -> (r: Option<V>)
    ensures
        r == lookup(m@, name@),
{
    let mut i: usize = m.len();
    assert(m@.subrange(0, i as int) =~= m@);
    while i > 0
        invariant
            i <= m@.len(),
            lookup(m@, name@) == lookup(m@.subrange(0, i as int), name@),
        decreases i,
    {
        let ghost pre = m@.subrange(0, i as int);
        assert(pre.drop_last() =~= m@.subrange(0, i - 1));
        if m[i - 1].0 == *name {
            return Some(m[i - 1].1);
        }
        i = i - 1;
    }
    assert(m@.subrange(0, 0).len() == 0);
    None
}

/// Whether `name` is bound in the association list.
pub open spec fn bound<V>(m: Seq<(String, V)>, name: Seq<char>) -> bool {
    lookup(m, name) is Some
}

/// A copy of a local environment.
pub fn copy_env(env: &Vec<(String, i32)>) -> (r: Vec<(String, i32)>)
    ensures
        r@ == env@,
{
    let mut r: Vec<(String, i32)> = Vec::new();
    let mut i: usize = 0;
    while i < env.len()
        invariant
            i <= env@.len(),
            r@ == env@.subrange(0, i as int),
        decreases env@.len() - i,
    {
        let name = env[i].0.clone();
        r.push((name, env[i].1));
        assert(r@ =~= env@.subrange(0, i + 1));
        i = i + 1;
    }
    assert(r@ =~= env@);
    r
}

/// What the code generator knows while it walks an expression.
pub struct Context<'a> {
    /// The next free stack slot; slot `k` is the word at `rsp - 8 * k`.
    pub si: i32,
    /// Local names and their stack slots.
    pub env: Vec<(String, i32)>,
    /// The `define`d names and their tagged values.
    pub define_env: &'a Vec<(String, i64)>,
    /// The `define`d names that this expression assigns, and the address
    /// of the cell that holds each while the code runs.
    pub define_ptrs: &'a Vec<(String, i64)>,
    /// The id of the innermost enclosing loop, or 0 outside any loop.
    pub curr_break: u64,
}

impl<'a> Context<'a> {
    /// The context of a top-level expression: slots from 2, no locals, no
    /// loop.
    pub fn new(define_env: &'a Vec<(String, i64)>, define_ptrs: &'a Vec<(String, i64)>) -> (c: Self)
        ensures
            c.si == 2,
            c.env@.len() == 0,
            c.define_env == define_env,
            c.define_ptrs == define_ptrs,
            c.curr_break == 0,
    {
        Context { si: 2, env: Vec::new(), define_env, define_ptrs, curr_break: 0 }
    }

    /// The same context with another first free slot.
    pub fn with_si(self, si: i32) -> (c: Self)
        ensures
            c.si == si,
            c.env == self.env,
            c.define_env == self.define_env,
            c.define_ptrs == self.define_ptrs,
            c.curr_break == self.curr_break,
    {
        let mut c = self;
        c.si = si;
        c
    }
}


/// A lookup in an extended list sees the extension first.
pub proof fn lemma_lookup_concat<V>(m: Seq<(String, V)>, more: Seq<(String, V)>, name: Seq<char>)
    ensures
        lookup(m + more, name) == if bound(more, name) { lookup(more, name) } else { lookup(m, name) },
    decreases more.len(),
{
    if more.len() == 0 {
        assert(m + more =~= m);
    } else {
        assert((m + more).drop_last() =~= m + more.drop_last());
        assert((m + more).last() == more.last());
        lemma_lookup_concat(m, more.drop_last(), name);
    }
}

/// A lookup after one more entry.
pub proof fn lemma_lookup_push<V>(m: Seq<(String, V)>, entry: (String, V), name: Seq<char>)
    ensures
        lookup(m.push(entry), name) == if entry.0@ == name { Some(entry.1) } else { lookup(m, name) },
{
    assert(m.push(entry).drop_last() =~= m);
    assert(m.push(entry).last() == entry);
}

} // verus!
