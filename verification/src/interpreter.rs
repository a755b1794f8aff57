//! The evaluator: a scope-chain of name-to-value environments held in an
//! arena, a bounded call stack of arena indices, and the tree walk that
//! turns syntax into values.
//!
//! Closures capture the environment on top of the stack by its arena
//! index; calling one pushes a fresh copy of that environment, extended
//! with the parameter bindings, and pops it again even when evaluation
//! fails.  Exceeding the fixed stack depth is a reported error, never an
//! unchecked access.

use vstd::prelude::*;
use vstd::string::*;

use crate::node::{spec_node_of, Node, SpecNode};
use crate::builtins::spec_first_non_list;
use crate::objects::{
    is_error, is_truthy, lemma_obj_view_variants, objs_view, spec_obj_of, spec_obj_wf, spec_truthy,
    Object, SpecObject,
};

verus! {

/// The most call frames a program may have live at once.
pub const STACK_SIZE: usize = 1024;

/// One scope record: bindings from names to values; a later binding for
/// a name shadows an earlier one.
#[derive(Debug)]
pub struct Env {
    bindings: Vec<(String, Object)>,
}

/// The mathematical content of a scope: a finite map.
pub open spec fn assoc_map(s: Seq<(String, Object)>) -> Map<Seq<char>, SpecObject>
    decreases s.len(),
{
    if s.len() == 0 {
        Map::empty()
    } else {
        assoc_map(s.drop_last()).insert(s.last().0@, spec_obj_of(s.last().1))
    }
}

impl View for Env {
    type V = Map<Seq<char>, SpecObject>;

    closed spec fn view(&self) -> Map<Seq<char>, SpecObject> {
        assoc_map(self.bindings@)
    }
}

/// Every value a scope holds points into an arena of `n` environments.
pub open spec fn env_map_wf(m: Map<Seq<char>, SpecObject>, n: int) -> bool {
    forall|k: Seq<char>| m.contains_key(k) ==> spec_obj_wf(#[trigger] m[k], n)
}

proof fn lemma_assoc_wf(s: Seq<(String, Object)>, n: int)
    requires
        forall|i: int| 0 <= i < s.len() ==> spec_obj_wf(spec_obj_of(#[trigger] s[i].1), n),
    ensures
        env_map_wf(assoc_map(s), n),
    decreases s.len(),
{
    if s.len() > 0 {
        assert forall|i: int| 0 <= i < s.drop_last().len() implies spec_obj_wf(
            spec_obj_of(#[trigger] s.drop_last()[i].1),
            n,
        ) by {
            assert(s.drop_last()[i] == s[i]);
        }
        lemma_assoc_wf(s.drop_last(), n);
    }
}

impl Env {
    /// An empty scope.
    pub fn new() -> (r: Env)
        ensures
            r@ == Map::<Seq<char>, SpecObject>::empty(),
            forall|n: int| #[trigger] r.wf(n),
    {
        let r = Env { bindings: Vec::new() };
        proof {
            assert forall|n: int| #[trigger] r.wf(n) by {
                lemma_assoc_wf(r.bindings@, n);
            }
        }
        r
    }

    /// Whether every value in this scope points into an arena of `n`
    /// environments.
    pub closed spec fn wf(&self, n: int) -> bool {
        env_map_wf(self@, n)
    }

    /// Well-formedness survives arena growth.
    pub proof fn lemma_wf_mono(&self, n: int, m: int)
        requires
            self.wf(n),
            n <= m,
        ensures
            self.wf(m),
    {
        assert forall|k: Seq<char>| self@.contains_key(k) implies spec_obj_wf(
            #[trigger] self@[k],
            m,
        ) by {
            crate::objects::lemma_obj_wf_mono(self@[k], n, m);
        }
    }

    /// Look a name up in this scope.
    pub fn get(&self, name: &str) -> (r: Option<&Object>)
        ensures
            match r {
                Some(o) => self@.contains_key(name@) && o@ == self@[name@],
                None => !self@.contains_key(name@),
            },
    {
        let n = self.bindings.len();
        let mut i: usize = n;
        proof {
            assert(self.bindings@.take(n as int) =~= self.bindings@);
        }
        while i > 0
            invariant
                i <= n,
                n == self.bindings@.len(),
                assoc_map(self.bindings@).contains_key(name@) == assoc_map(
                    self.bindings@.take(i as int),
                ).contains_key(name@),
                assoc_map(self.bindings@).contains_key(name@) ==> assoc_map(self.bindings@)[name@]
                    == assoc_map(self.bindings@.take(i as int))[name@],
            decreases i,
        {
            proof {
                assert(self.bindings@.take(i as int).drop_last() =~= self.bindings@.take(
                    i as int - 1,
                ));
                assert(self.bindings@.take(i as int).last() == self.bindings@[i as int - 1]);
            }
            if crate::strutil::str_eq_str(self.bindings[i - 1].0.as_str(), name) {
                return Some(&self.bindings[i - 1].1);
            }
            i = i - 1;
        }
        proof {
            assert(self.bindings@.take(0) =~= Seq::<(String, Object)>::empty());
        }
        None
    }

    /// Bind `name` to `value` in this scope, shadowing any older binding.
    pub fn set(&mut self, name: String, value: Object)
        ensures
            final(self)@ == old(self)@.insert(name@, value@),
            forall|n: int|
                old(self).wf(n) && spec_obj_wf(value@, n) ==> #[trigger] final(self).wf(n),
    {
        let ghost old_bindings = self.bindings@;
        let ghost namev = name@;
        let ghost valuev = spec_obj_of(value);
        self.bindings.push((name, value));
        proof {
            assert(self.bindings@.drop_last() =~= old_bindings);
            assert(self.bindings@.last().0@ == namev);
            assert(self.bindings@.last().1@ == valuev);
            assert forall|n: int|
                old(self).wf(n) && spec_obj_wf(valuev, n) implies #[trigger] final(self).wf(
                n,
            ) by {
                assert forall|k: Seq<char>| final(self)@.contains_key(k) implies spec_obj_wf(
                    #[trigger] final(self)@[k],
                    n,
                ) by {
                    if k != namev {
                        assert(final(self)@[k] == old(self)@[k]);
                    }
                }
            }
        }
    }

    /// A copy of this scope with the same content.
    pub fn duplicate(&self) -> (r: Env)
        ensures
            r@ == self@,
            forall|n: int| self.wf(n) ==> #[trigger] r.wf(n),
    {
        let mut out: Vec<(String, Object)> = Vec::new();
        let n = self.bindings.len();
        let mut i: usize = 0;
        while i < n
            invariant
                i <= n,
                n == self.bindings@.len(),
                out@.len() == i,
                forall|m: int|
                    0 <= m < i ==> (#[trigger] out@[m]).0@ == self.bindings@[m].0@ && spec_obj_of(
                        out@[m].1,
                    ) == spec_obj_of(self.bindings@[m].1),
            decreases n - i,
        {
            let pair = (self.bindings[i].0.clone(), self.bindings[i].1.duplicate());
            out.push(pair);
            i = i + 1;
        }
        let r = Env { bindings: out };
        proof {
            lemma_assoc_congruent(r.bindings@, self.bindings@);
            assert forall|nn: int| self.wf(nn) implies #[trigger] r.wf(nn) by {}
        }
        r
    }
}

/// Two binding lists with the same names and value images make the same
/// map.
proof fn lemma_assoc_congruent(a: Seq<(String, Object)>, b: Seq<(String, Object)>)
    requires
        a.len() == b.len(),
        forall|i: int|
            0 <= i < a.len() ==> (#[trigger] a[i]).0@ == b[i].0@ && spec_obj_of(a[i].1)
                == spec_obj_of(b[i].1),
    ensures
        assoc_map(a) == assoc_map(b),
    decreases a.len(),
{
    if a.len() > 0 {
        assert forall|i: int|
            0 <= i < a.drop_last().len() implies (#[trigger] a.drop_last()[i]).0@
            == b.drop_last()[i].0@ && spec_obj_of(a.drop_last()[i].1) == spec_obj_of(
            b.drop_last()[i].1,
        ) by {
            assert(a.drop_last()[i] == a[i]);
            assert(b.drop_last()[i] == b[i]);
        }
        lemma_assoc_congruent(a.drop_last(), b.drop_last());
        assert(a.last().0@ == b.last().0@);
        assert(spec_obj_of(a.last().1) == spec_obj_of(b.last().1));
    }
}

/// The call stack: an arena of scope records and the stack of indices of
/// the scopes live in the current chain; index zero is the global scope.
#[derive(Debug)]
pub struct CallStack {
    arena: Vec<Env>,
    stack: Vec<usize>,
}

/// The mathematical content of a call stack.
pub ghost struct CallStackView {
    pub arena: Seq<Map<Seq<char>, SpecObject>>,
    pub stack: Seq<int>,
}

impl View for CallStack {
    type V = CallStackView;

    closed spec fn view(&self) -> CallStackView {
        CallStackView {
            arena: self.arena@.map_values(|e: Env| e@),
            stack: self.stack@.map_values(|i: usize| i as int),
        }
    }
}

/// Look a name up through a stack of scopes, innermost first; an unbound
/// name reads as null.
pub open spec fn spec_lookup(v: CallStackView, name: Seq<char>) -> SpecObject
    decreases v.stack.len(),
{
    if v.stack.len() == 0 {
        SpecObject::Null
    } else {
        let m = v.arena[v.stack.last()];
        if m.contains_key(name) {
            m[name]
        } else {
            spec_lookup(CallStackView { arena: v.arena, stack: v.stack.drop_last() }, name)
        }
    }
}

impl CallStack {
    /// Whether the stack is a live chain into the arena and every scope
    /// is closed over the arena.
    pub closed spec fn wf(&self) -> bool {
        &&& 1 <= self.stack@.len() <= STACK_SIZE
        &&& forall|i: int|
            0 <= i < self.stack@.len() ==> (#[trigger] self.stack@[i]) < self.arena@.len()
        &&& forall|i: int|
            0 <= i < self.arena@.len() ==> (#[trigger] self.arena@[i]).wf(self.arena@.len() as int)
    }

    /// A call stack whose only frame is the given global scope.
    pub fn new(initial: Env) -> (r: CallStack)
        requires
            forall|n: int| #[trigger] initial.wf(n),
        ensures
            r.wf(),
            r@.arena.len() == 1,
            r@.arena[0] == initial@,
            r@.stack == seq![0int],
    {
        let mut arena: Vec<Env> = Vec::new();
        arena.push(initial);
        let mut stack: Vec<usize> = Vec::new();
        stack.push(0);
        let r = CallStack { arena, stack };
        proof {
            assert(r@.stack =~= seq![0int]);
            assert(r@.arena.len() == 1);
        }
        r
    }

    /// The number of live frames.
    pub fn depth(&self) -> (r: usize)
        ensures
            r == self@.stack.len(),
    {
        self.stack.len()
    }

    /// Allocate `env` in the arena and push it as the innermost frame.
    pub fn push_env(&mut self, env: Env)
        requires
            old(self).wf(),
            old(self)@.stack.len() < STACK_SIZE,
            env.wf(old(self)@.arena.len() as int + 1),
        ensures
            final(self).wf(),
            final(self)@.arena == old(self)@.arena.push(env@),
            final(self)@.stack == old(self)@.stack.push(old(self)@.arena.len() as int),
    {
        let idx = self.arena.len();
        self.arena.push(env);
        self.stack.push(idx);
        proof {
            assert(final(self)@.arena =~= old(self)@.arena.push(env@));
            assert(final(self)@.stack =~= old(self)@.stack.push(idx as int));
            let n2 = self.arena@.len() as int;
            assert forall|i: int| 0 <= i < self.arena@.len() implies (
            #[trigger] self.arena@[i]).wf(n2) by {
                if i < n2 - 1 {
                    assert(self.arena@[i] == old(self).arena@[i]);
                    old(self).arena@[i].lemma_wf_mono(n2 - 1, n2);
                }
            }
        }
    }

    /// Drop the innermost frame; its record stays in the arena, so
    /// closures that captured it stay valid.
    pub fn pop_env(&mut self)
        requires
            old(self).wf(),
            old(self)@.stack.len() >= 2,
        ensures
            final(self).wf(),
            final(self)@.arena == old(self)@.arena,
            final(self)@.stack == old(self)@.stack.drop_last(),
    {
        self.stack.pop();
        proof {
            assert(final(self)@.stack =~= old(self)@.stack.drop_last());
            assert forall|i: int| 0 <= i < self.stack@.len() implies (
            #[trigger] self.stack@[i]) < self.arena@.len() by {
                assert(self.stack@[i] == old(self).stack@[i]);
            }
        }
    }

    /// Read the scope of the frame at position `i` of the stack.
    pub fn env_at(&self, i: usize) -> (r: &Env)
        requires
            self.wf(),
            i < self@.stack.len(),
        ensures
            r@ == self@.arena[self@.stack[i as int]],
            r.wf(self@.arena.len() as int),
    {
        let idx = self.stack[i];
        &self.arena[idx]
    }
}


impl CallStack {
    /// Read the scope at an arena index.
    pub fn arena_env(&self, idx: usize) -> (r: &Env)
        requires
            self.wf(),
            idx < self@.arena.len(),
        ensures
            r@ == self@.arena[idx as int],
            r.wf(self@.arena.len() as int),
    {
        &self.arena[idx]
    }

    /// Bind `name` to `value` in the innermost frame's scope.
    pub fn set_current(&mut self, name: String, value: Object)
        requires
            old(self).wf(),
            spec_obj_wf(value@, old(self)@.arena.len() as int),
        ensures
            final(self).wf(),
            final(self)@.stack == old(self)@.stack,
            final(self)@.arena == old(self)@.arena.update(
                old(self)@.stack.last(),
                old(self)@.arena[old(self)@.stack.last()].insert(name@, value@),
            ),
    {
        let idx = self.stack[self.stack.len() - 1];
        let ghost valuev = spec_obj_of(value);
        self.arena[idx].set(name, value);
        proof {
            assert(final(self)@.arena =~= old(self)@.arena.update(
                old(self)@.stack.last(),
                old(self)@.arena[old(self)@.stack.last()].insert(name@, valuev),
            ));
            assert(final(self)@.stack =~= old(self)@.stack);
            let n2 = self.arena@.len() as int;
            assert forall|i: int| 0 <= i < self.arena@.len() implies (
            #[trigger] self.arena@[i]).wf(n2) by {
                if i != idx as int {
                    assert(self.arena@[i] == old(self).arena@[i]);
                }
            }
        }
    }

    /// A deep copy of the whole call stack.
    pub fn duplicate(&self) -> (r: CallStack)
        requires
            self.wf(),
        ensures
            r@ == self@,
            r.wf(),
    {
        let mut arena: Vec<Env> = Vec::new();
        let n = self.arena.len();
        let mut i: usize = 0;
        while i < n
            invariant
                i <= n,
                n == self.arena@.len(),
                arena@.len() == i,
                forall|m: int| 0 <= m < i ==> (#[trigger] arena@[m])@ == self.arena@[m]@,
                forall|m: int, k: int|
                    0 <= m < i && (#[trigger] self.arena@[m].wf(k)) ==> #[trigger] arena@[m].wf(
                        k,
                    ),
        decreases n - i,
        {
            arena.push(self.arena[i].duplicate());
            i = i + 1;
        }
        let mut stack: Vec<usize> = Vec::new();
        let d = self.stack.len();
        let mut j: usize = 0;
        while j < d
            invariant
                j <= d,
                d == self.stack@.len(),
                stack@ == self.stack@.take(j as int),
            decreases d - j,
        {
            stack.push(self.stack[j]);
            j = j + 1;
            proof {
                assert(stack@ =~= self.stack@.take(j as int));
            }
        }
        proof {
            assert(stack@ =~= self.stack@);
        }
        let r = CallStack { arena, stack };
        proof {
            assert(r@.arena =~= self@.arena);
            assert(r@.stack =~= self@.stack);
            assert forall|i2: int| 0 <= i2 < r.arena@.len() implies (#[trigger] r.arena@[i2]).wf(
                r.arena@.len() as int,
            ) by {
                assert(self.arena@[i2].wf(self.arena@.len() as int));
            }
        }
        r
    }
}

/// Failure of evaluation on the host channel: structural conditions the
/// program cannot recover from, or an in-language error value escalated
/// by a sequencing position.
#[derive(Debug)]
pub enum EvalError {
    /// One more call frame would have exceeded the stack bound.
    StackDepthExceeded,
    /// A number literal did not spell a machine integer.
    NumberParse { lexeme: String },
    /// A `fn` literal carried a parameter that is not a word.
    NotAWord,
    /// The callee of an ordinary call was not callable; the field holds
    /// the callee's type name.
    CannotCall { callee_type: String },
    /// An error value reached a position that escalates it.
    ErrorValue { context: ErrorContext, value: Object },
}

/// Where an escalated error value stood.
#[derive(Clone, Copy, Debug, PartialEq, Eq, Structural)]
pub enum ErrorContext {
    DefineValue,
    IfCondition,
    IfResult,
    Callee,
    FunctionArgument,
    ListElement,
    Statement { line: usize, col: usize },
}

/// The parameter names of a `fn` literal whose arguments are all words.
pub open spec fn word_names(args: Seq<SpecNode>) -> Seq<Seq<char>> {
    args.map_values(|n: SpecNode| n->Word_0.value)
}

/// The height of a node, counting only children reachable by the walk.
pub open spec fn sn_height(n: SpecNode) -> nat
    decreases n,
{
    match n {
        SpecNode::Expression(v) => seq_height(v) + 1,
        SpecNode::List(v) => seq_height(v) + 1,
        _ => 1,
    }
}

/// One more than the greatest height among the nodes, zero when empty.
pub open spec fn seq_height(s: Seq<SpecNode>) -> nat
    decreases s,
{
    if s.len() == 0 {
        0
    } else {
        let rest = seq_height(s.drop_first());
        let h0 = sn_height(s[0]) + 1;
        if h0 > rest {
            h0
        } else {
            rest
        }
    }
}

/// Every node of a sequence sits strictly below the sequence's height.
pub proof fn lemma_seq_height(s: Seq<SpecNode>, i: int)
    requires
        0 <= i < s.len(),
    ensures
        sn_height(s[i]) < seq_height(s),
    decreases s.len(),
{
    if i > 0 {
        lemma_seq_height(s.drop_first(), i - 1);
        assert(s.drop_first()[i - 1] == s[i]);
    }
}

/// The height of a value, counting only list nesting.
pub open spec fn so_height(o: SpecObject) -> nat
    decreases o,
{
    match o {
        SpecObject::List(v) => so_seq_height(v) + 1,
        _ => 1,
    }
}

/// One more than the greatest height among the values, zero when empty.
pub open spec fn so_seq_height(s: Seq<SpecObject>) -> nat
    decreases s,
{
    if s.len() == 0 {
        0
    } else {
        let rest = so_seq_height(s.drop_first());
        let h0 = so_height(s[0]) + 1;
        if h0 > rest {
            h0
        } else {
            rest
        }
    }
}

/// Every value of a sequence sits strictly below the sequence's height.
pub proof fn lemma_so_seq_height(s: Seq<SpecObject>, i: int)
    requires
        0 <= i < s.len(),
    ensures
        so_height(s[i]) < so_seq_height(s),
    decreases s.len(),
{
    if i > 0 {
        lemma_so_seq_height(s.drop_first(), i - 1);
        assert(s.drop_first()[i - 1] == s[i]);
    }
}

/// The evaluator: the call stack, the number-literal cache, and the
/// stamp for the next closure.
#[derive(Debug)]
pub struct Program {
    env: CallStack,
    numbers: Vec<(String, Object)>,
    next_fn_id: u64,
}

impl View for Program {
    type V = CallStackView;

    closed spec fn view(&self) -> CallStackView {
        self.env@
    }
}

impl Program {
    /// The evaluator's mathematical state.
    pub closed spec fn st(&self) -> SpecState {
        SpecState { arena: self.env@.arena, stack: self.env@.stack, next_id: self.next_fn_id }
    }
}

impl Program {
    /// The evaluator's invariant: the call stack is well formed and the
    /// number cache holds exactly the integers its lexemes spell.
    pub closed spec fn wf(&self) -> bool {
        &&& self.env.wf()
        &&& forall|i: int|
            0 <= i < self.numbers@.len() ==> {
                let e = #[trigger] self.numbers@[i];
                &&& spec_obj_of(e.1) is Integer
                &&& crate::numfmt::spec_parse_int(e.0@) == Some(spec_obj_of(e.1)->Integer_0)
                &&& isize::MIN as int <= spec_obj_of(e.1)->Integer_0 <= isize::MAX as int
            }
    }

    /// A fresh evaluator over a global scope.
    pub fn new(global_env: Env) -> (r: Program)
        requires
            forall|n: int| #[trigger] global_env.wf(n),
        ensures
            r.wf(),
            r@.arena.len() == 1,
            r@.arena[0] == global_env@,
            r@.stack == seq![0int],
    {
        Program { env: CallStack::new(global_env), numbers: Vec::new(), next_fn_id: 0 }
    }

    /// A deep copy of this evaluator: the same scopes, number cache and
    /// closure stamp, so a run on the copy leaves the original untouched.
    pub fn duplicate(&self) -> (r: Program)
        requires
            self.wf(),
        ensures
            r.wf(),
            r@ == self@,
            r.st() == self.st(),
    {
        let env = self.env.duplicate();
        let mut numbers: Vec<(String, Object)> = Vec::new();
        let n = self.numbers.len();
        let mut i: usize = 0;
        while i < n
            invariant
                i <= n,
                n == self.numbers@.len(),
                numbers@.len() == i,
                self.wf(),
                forall|m: int|
                    0 <= m < i ==> (#[trigger] numbers@[m]).0@ == self.numbers@[m].0@
                        && spec_obj_of(numbers@[m].1) == spec_obj_of(self.numbers@[m].1),
            decreases n - i,
        {
            let pair = (self.numbers[i].0.clone(), self.numbers[i].1.duplicate());
            numbers.push(pair);
            i = i + 1;
        }
        let r = Program { env, numbers, next_fn_id: self.next_fn_id };
        proof {
            assert forall|k: int| 0 <= k < r.numbers@.len() implies {
                let e = #[trigger] r.numbers@[k];
                &&& spec_obj_of(e.1) is Integer
                &&& crate::numfmt::spec_parse_int(e.0@) == Some(spec_obj_of(e.1)->Integer_0)
                &&& isize::MIN as int <= spec_obj_of(e.1)->Integer_0 <= isize::MAX as int
            } by {
                assert(spec_obj_of(r.numbers@[k].1) == spec_obj_of(self.numbers@[k].1));
            }
        }
        r
    }

    /// A deep copy of the call stack, for hosts that inspect scopes.
    pub fn get_env(&self) -> (r: CallStack)
        requires
            self.wf(),
        ensures
            r@ == self@,
            r.wf(),
    {
        self.env.duplicate()
    }

    /// Bind a name in the innermost frame.
    fn set_value(&mut self, name: String, value: Object)
        requires
            old(self).wf(),
            spec_obj_wf(value@, old(self)@.arena.len() as int),
        ensures
            final(self).wf(),
            final(self)@.stack == old(self)@.stack,
            final(self)@.arena.len() == old(self)@.arena.len(),
            final(self)@.arena == old(self)@.arena.update(
                old(self)@.stack.last(),
                old(self)@.arena[old(self)@.stack.last()].insert(name@, value@),
            ),
            final(self).st() == st_set(old(self).st(), name@, value@),
    {
        let ghost namev = name@;
        let ghost valuev = value@;
        self.env.set_current(name, value);
        proof {
            assert(final(self).st() == st_set(old(self).st(), namev, valuev));
        }
    }

    /// The value of a name, innermost scope first; unbound names read as
    /// null.
    pub fn get_value(&self, name: &str) -> (r: Object)
        requires
            self.wf(),
        ensures
            r@ == spec_lookup(self@, name@),
            spec_obj_wf(r@, self@.arena.len() as int),
    {
        let d = self.env.depth();
        let mut i: usize = d;
        proof {
            assert(self@.stack.take(d as int) =~= self@.stack);
        }
        while i > 0
            invariant
                i <= d,
                d == self@.stack.len(),
                self.wf(),
                spec_lookup(self@, name@) == spec_lookup(
                    CallStackView { arena: self@.arena, stack: self@.stack.take(i as int) },
                    name@,
                ),
            decreases i,
        {
            let e = self.env.env_at(i - 1);
            proof {
                assert(self@.stack.take(i as int).last() == self@.stack[i as int - 1]);
                assert(self@.stack.take(i as int).drop_last() =~= self@.stack.take(i as int - 1));
            }
            match e.get(name) {
                Some(o) => {
                    let r = o.duplicate();
                    proof {
                        let m = self@.arena[self@.stack[i as int - 1]];
                        assert(env_map_wf(m, self@.arena.len() as int));
                        assert(spec_obj_wf(m[name@], self@.arena.len() as int));
                    }
                    return r;
                },
                None => {},
            }
            i = i - 1;
        }
        proof {
            assert(self@.stack.take(0) =~= Seq::<int>::empty());
        }
        Object::Null
    }
}


impl CallStack {
    /// The arena index of the innermost frame's scope.
    pub fn current_index(&self) -> (r: usize)
        requires
            self.wf(),
        ensures
            r as int == self@.stack.last(),
            (r as int) < self@.arena.len(),
    {
        self.stack[self.stack.len() - 1]
    }
}

/// The message of a `define` form with the wrong shape.
pub open spec fn msg_define_arity(got: int) -> Seq<char> {
    "Invalid amount of arguments to define got:"@ + crate::numfmt::spec_nat_chars(got)
        + " expected: 3"@
}

/// The message of a `define` whose target is not a word.
pub open spec fn msg_define_target(t: Seq<char>) -> Seq<char> {
    "Invalid token for define: "@ + t + " should be a word"@
}

/// The message of an `if` form with the wrong shape.
pub open spec fn msg_if_arity(got: int) -> Seq<char> {
    "Invalid amount of arguments to 'if' got: "@ + crate::numfmt::spec_nat_chars(got)
}

/// The message of a `do` form with the wrong shape.
pub open spec fn msg_do_arity(got: int) -> Seq<char> {
    "Invalid amount of arguments to 'do' got: "@ + crate::numfmt::spec_nat_chars(got)
}

/// The message of a call whose argument count misses the parameter
/// count.
pub open spec fn msg_fn_arity(got: int, expected: int) -> Seq<char> {
    "Invalid number of arguments passed into function got "@ + crate::numfmt::spec_nat_chars(got)
        + " expected "@ + crate::numfmt::spec_nat_chars(expected)
}

/// A short description of a host-channel failure.
pub open spec fn spec_eval_error_brief(e: EvalError) -> Seq<char> {
    spec_failure_brief(eval_error_view(e))
}

impl EvalError {
    /// A short description of this failure.
    pub fn brief(&self) -> (r: String)
        ensures
            r@ == spec_eval_error_brief(*self),
    {
        let mut m = String::new();
        match self {
            EvalError::StackDepthExceeded => {
                m.append("stack depth exceeded");
                proof {
                    assert(m@ =~= "stack depth exceeded"@);
                }
            },
            EvalError::NumberParse { .. } => {
                m.append("error parsing number literal");
                proof {
                    assert(m@ =~= "error parsing number literal"@);
                }
            },
            EvalError::NotAWord => {
                m.append("argument is not a word");
                proof {
                    assert(m@ =~= "argument is not a word"@);
                }
            },
            EvalError::CannotCall { .. } => {
                m.append("cannot call value");
                proof {
                    assert(m@ =~= "cannot call value"@);
                }
            },
            EvalError::ErrorValue { .. } => {
                m.append("error value in evaluation");
                proof {
                    assert(m@ =~= "error value in evaluation"@);
                }
            },
        }
        m
    }
}

impl Program {
    /// The number an integer literal denotes, interned: the first
    /// evaluation of a lexeme parses it, later ones reuse the cached
    /// value.
    fn number_literal(&mut self, token: &crate::lexer::Token) -> (r: Result<Object, EvalError>)
        requires
            old(self).wf(),
        ensures
            final(self).wf(),
            final(self)@ == old(self)@,
            final(self).st() == old(self).st(),
            match crate::numfmt::spec_parse_int(token.value@) {
                Some(v) => if isize::MIN <= v <= isize::MAX {
                    r matches Ok(o) && o@ == SpecObject::Integer(v)
                } else {
                    r matches Err(e) && e matches EvalError::NumberParse { lexeme } && lexeme@
                        == token.value@
                },
                None => r matches Err(e) && e matches EvalError::NumberParse { lexeme } && lexeme@
                    == token.value@,
            },
    {
        let n = self.numbers.len();
        let mut i: usize = 0;
        while i < n
            invariant
                i <= n,
                n == self.numbers@.len(),
                self.wf(),
            decreases n - i,
        {
            if crate::strutil::str_eq_str(self.numbers[i].0.as_str(), token.value.as_str()) {
                let r = self.numbers[i].1.duplicate();
                return Ok(r);
            }
            i = i + 1;
        }
        match crate::numfmt::parse_isize_str(token.value.as_str()) {
            Some(v) => {
                let ghost before = self.numbers@;
                self.numbers.push((token.value.clone(), Object::Integer(v)));
                proof {
                    assert forall|k: int| 0 <= k < self.numbers@.len() implies {
                        let e = #[trigger] self.numbers@[k];
                        &&& spec_obj_of(e.1) is Integer
                        &&& crate::numfmt::spec_parse_int(e.0@) == Some(
                            spec_obj_of(e.1)->Integer_0,
                        )
                        &&& isize::MIN as int <= spec_obj_of(e.1)->Integer_0 <= isize::MAX as int
                    } by {
                        if k < before.len() {
                            assert(self.numbers@[k] == before[k]);
                        }
                    }
                }
                Ok(Object::Integer(v))
            },
            None => Err(EvalError::NumberParse { lexeme: token.value.clone() }),
        }
    }

    /// Call a closure: push a copy of its captured scope extended with
    /// the parameter bindings, evaluate the body, and pop the frame even
    /// when evaluation failed.  One more frame than the stack bound is a
    /// reported error.
    pub fn run_function(
        &mut self,
        closure_env: usize,
        body: &Node,
        parameters: &Vec<String>,
        args: &Vec<Object>,
    ) -> (r: Result<Object, EvalError>)
        requires
            old(self).wf(),
            (closure_env as int) < old(self)@.arena.len(),
            forall|i: int|
                0 <= i < args@.len() ==> spec_obj_wf(
                    spec_obj_of(#[trigger] args@[i]),
                    old(self)@.arena.len() as int,
                ),
        ensures
            final(self).wf(),
            final(self)@.stack == old(self)@.stack,
            final(self)@.arena.len() >= old(self)@.arena.len(),
            r matches Ok(o) ==> spec_obj_wf(o@, final(self)@.arena.len() as int),
            old(self)@.stack.len() >= STACK_SIZE ==> (r matches Err(e) && e is StackDepthExceeded),
            ({
                let step = spec_run_function(
                    old(self).st(),
                    closure_env as int,
                    body@,
                    parameters@.map_values(|p: String| p@),
                    objs_view(args@),
                );
                res_view(r) == step.r && final(self).st() == step.st
            }),
        decreases STACK_SIZE - self@.stack.len(), 0int, 0int, 0int,
    {
        let ghost st0 = old(self).st();
        let ghost pview = parameters@.map_values(|p: String| p@);
        let ghost aview = objs_view(args@);
        if self.env.depth() >= STACK_SIZE {
            return Err(EvalError::StackDepthExceeded);
        }
        let captured = self.env.arena_env(closure_env);
        let mut env2 = captured.duplicate();
        proof {
            assert(env2.wf(self@.arena.len() as int));
            assert(env2@ == spec_bind(st0.arena[closure_env as int], pview, aview, 0));
        }
        let count = if parameters.len() < args.len() {
            parameters.len()
        } else {
            args.len()
        };
        let mut k: usize = 0;
        while k < count
            invariant
                k <= count,
                count <= parameters@.len(),
                count <= args@.len(),
                count == (if parameters@.len() < args@.len() {
                    parameters@.len() as int
                } else {
                    args@.len() as int
                }),
                st0 == old(self).st(),
                pview == parameters@.map_values(|p: String| p@),
                aview == objs_view(args@),
                env2.wf(self@.arena.len() as int),
                env2@ == spec_bind(st0.arena[closure_env as int], pview, aview, k as int),
                self.wf(),
                self@ == old(self)@,
                self.st() == old(self).st(),
                forall|i: int|
                    0 <= i < args@.len() ==> spec_obj_wf(
                        spec_obj_of(#[trigger] args@[i]),
                        old(self)@.arena.len() as int,
                    ),
            decreases count - k,
        {
            proof {
                assert(pview[k as int] == parameters@[k as int]@);
                assert(aview[k as int] == spec_obj_of(args@[k as int]));
            }
            env2.set(parameters[k].clone(), args[k].duplicate());
            k = k + 1;
        }
        proof {
            env2.lemma_wf_mono(self@.arena.len() as int, self@.arena.len() as int + 1);
        }
        let ghost env2v = env2@;
        self.env.push_env(env2);
        proof {
            let st2 = SpecState {
                arena: st0.arena.push(env2v),
                stack: st0.stack.push(st0.arena.len() as int),
                next_id: st0.next_id,
            };
            assert(self.st() == st2);
        }
        let result = self.eval(body);
        proof {
            assert(self@.stack.len() >= 2);
        }
        self.env.pop_env();
        proof {
            assert(final(self)@.stack =~= old(self)@.stack);
            if result is Ok {
                let o = result->Ok_0;
                crate::objects::lemma_obj_wf_mono(
                    o@,
                    self@.arena.len() as int,
                    self@.arena.len() as int,
                );
            }
            let step = spec_run_function(st0, closure_env as int, body@, pview, aview);
            assert(res_view(result) == step.r && final(self).st() == step.st);
        }
        result
    }

    /// Evaluate a program root: an `Expression` headed by a word is a
    /// call; a singleton unwraps; otherwise the children run in order as
    /// statements, and an error value among them is escalated with its
    /// statement's end position.
    pub fn eval(&mut self, root: &Node) -> (r: Result<Object, EvalError>)
        requires
            old(self).wf(),
        ensures
            final(self).wf(),
            final(self)@.stack == old(self)@.stack,
            final(self)@.arena.len() >= old(self)@.arena.len(),
            r matches Ok(o) ==> spec_obj_wf(o@, final(self)@.arena.len() as int),
            res_view(r) == spec_eval(old(self).st(), root@).r,
            final(self).st() == spec_eval(old(self).st(), root@).st,
        decreases STACK_SIZE - self@.stack.len(), sn_height(root@), 0int, 1int,
    {
        proof {
            crate::node::lemma_node_view_variants(*root);
        }
        let ghost st0 = old(self).st();
        match root {
            Node::Expression(expressions) => {
                proof {
                    assert(root@->Expression_0 =~= crate::node::nodes_view(expressions@));
                }
                let ghost es = root@->Expression_0;
                let len = expressions.len();
                if len > 0 && matches!(&expressions[0], Node::Word(_)) {
                    proof {
                        crate::node::lemma_node_view_variants(expressions@[0]);
                        assert(es[0] == expressions@[0]@);
                    }
                    return self.call_expression(expressions);
                }
                proof {
                    if len > 0 {
                        crate::node::lemma_node_view_variants(expressions@[0]);
                        assert(es[0] == expressions@[0]@);
                    }
                }
                if len == 1 {
                    proof {
                        lemma_seq_height_elem(expressions@, 0);
                    }
                    return self.parse_expression(&expressions[0]);
                }
                let mut last_result = Object::Null;
                let mut i: usize = 0;
                while i < len
                    invariant
                        i <= len,
                        len == expressions@.len(),
                        root@ is Expression,
                        st0 == old(self).st(),
                        es == root@->Expression_0,
                        es == crate::node::nodes_view(expressions@),
                        es.len() == len,
                        len != 1,
                        len == 0 || !(es[0] is Word),
                        seq_height(crate::node::nodes_view(expressions@)) < sn_height(root@),
                        self.wf(),
                        self@.stack == old(self)@.stack,
                        self@.arena.len() >= old(self)@.arena.len(),
                        spec_obj_wf(last_result@, self@.arena.len() as int),
                        spec_eval_seq(st0, es, 0, SpecObject::Null) == spec_eval_seq(
                            self.st(),
                            es,
                            i as int,
                            last_result@,
                        ),
                    decreases len - i,
                {
                    proof {
                        lemma_seq_height_elem(expressions@, i as int);
                        assert(es[i as int] == expressions@[i as int]@);
                    }
                    let ghost st_i = self.st();
                    let v = match self.parse_expression(&expressions[i]) {
                        Ok(v) => v,
                        Err(e) => {
                            return Err(e);
                        },
                    };
                    proof {
                        crate::objects::lemma_obj_view_variants(v);
                    }
                    if is_error(&v) {
                        let p = expressions[i].last_char();
                        proof {
                            assert(crate::node::pos_view(p) == crate::node::spec_last_char(
                                es[i as int],
                            ));
                        }
                        return Err(
                            EvalError::ErrorValue {
                                context: ErrorContext::Statement { line: p.line, col: p.col },
                                value: v,
                            },
                        );
                    }
                    proof {
                        assert(st_ok(st_i, self.st()));
                    }
                    last_result = v;
                    i = i + 1;
                }
                Ok(last_result)
            },
            _ => self.parse_expression(root),
        }
    }

    /// Evaluate one expression node against the current scope chain.
    pub fn parse_expression(&mut self, node: &Node) -> (r: Result<Object, EvalError>)
        requires
            old(self).wf(),
        ensures
            final(self).wf(),
            final(self)@.stack == old(self)@.stack,
            final(self)@.arena.len() >= old(self)@.arena.len(),
            r matches Ok(o) ==> spec_obj_wf(o@, final(self)@.arena.len() as int),
            node@ matches SpecNode::Word(t) ==> (r matches Ok(o) && o@ == spec_lookup(
                old(self)@,
                t.value,
            )),
            node@ matches SpecNode::BooleanLiteral(t) ==> (r matches Ok(o) && o@
                == SpecObject::Bool(t.value == "true"@)),
            node@ matches SpecNode::StringLiteral(t) ==> (r matches Ok(o) && o@
                == SpecObject::String(
                if t.value.len() >= 2 {
                    t.value.subrange(1, t.value.len() - 1)
                } else {
                    Seq::empty()
                },
            )),
            node@ matches SpecNode::NumberLiteral(t) ==> (match crate::numfmt::spec_parse_int(
                t.value,
            ) {
                Some(v) => if isize::MIN <= v <= isize::MAX {
                    r matches Ok(o) && o@ == SpecObject::Integer(v)
                } else {
                    r matches Err(e) && e is NumberParse
                },
                None => r matches Err(e) && e is NumberParse,
            }),
            node@ is Invalid ==> (r matches Ok(o) && o@ == SpecObject::Error(
                "Evaluating Invalid Node"@,
            )),
            node@ matches SpecNode::FunctionLiteral { arguments, body, .. } ==> (if forall|i: int|
                0 <= i < arguments.len() ==> (#[trigger] arguments[i]) is Word {
                r matches Ok(o) && o@ matches SpecObject::Function {
                    env,
                    parameters,
                    body: b,
                    ..
                } && env == old(self)@.stack.last() && parameters == word_names(arguments) && b
                    == *body
            } else {
                r matches Err(e) && e is NotAWord
            }),
            res_view(r) == spec_eval_expr(old(self).st(), node@).r,
            final(self).st() == spec_eval_expr(old(self).st(), node@).st,
        decreases STACK_SIZE - self@.stack.len(), sn_height(node@), 0int, 0int,
    {
        let ghost st0 = old(self).st();
        proof {
            crate::node::lemma_node_view_variants(*node);
            assert(chain_of(st0) == old(self)@);
        }
        match node {
            Node::Word(token) => Ok(self.get_value(token.value.as_str())),
            Node::BooleanLiteral(token) => {
                if crate::strutil::string_is(&token.value, "true") {
                    Ok(Object::Bool(true))
                } else {
                    Ok(Object::Bool(false))
                }
            },
            Node::StringLiteral(token) => {
                let nlen = token.value.as_str().unicode_len();
                if nlen >= 2 {
                    let ss = token.value.as_str().substring_char(1, nlen - 1).to_owned();
                    Ok(Object::String(ss))
                } else {
                    Ok(Object::String(String::new()))
                }
            },
            Node::NumberLiteral(token) => self.number_literal(token),
            Node::Invalid(_) => {
                let mut m = String::new();
                m.append("Evaluating Invalid Node");
                proof {
                    assert(m@ =~= "Evaluating Invalid Node"@);
                }
                Ok(Object::Error(m))
            },
            Node::Expression(vec) => {
                proof {
                    assert(node@->Expression_0 =~= crate::node::nodes_view(vec@));
                }
                self.call_expression(vec)
            },
            Node::List(vec) => {
                proof {
                    assert(node@->List_0 =~= crate::node::nodes_view(vec@));
                }
                let len = vec.len();
                let mut items: Vec<Object> = Vec::new();
                let mut i: usize = 0;
                let ghost nv = node@->List_0;
                proof {
                    assert(objs_view(items@) =~= Seq::<SpecObject>::empty());
                }
                while i < len
                    invariant
                        i <= len,
                        len == vec@.len(),
                        st0 == old(self).st(),
                        nv == node@->List_0,
                        nv == crate::node::nodes_view(vec@),
                        nv.len() == len,
                        node@->List_0 == crate::node::nodes_view(vec@),
                        node@ is List,
                        self.wf(),
                        self@.stack == old(self)@.stack,
                        self@.arena.len() >= old(self)@.arena.len(),
                        items@.len() == i,
                        spec_list_items(st0, nv, 0, Seq::empty()) == spec_list_items(
                            self.st(),
                            nv,
                            i as int,
                            objs_view(items@),
                        ),
                        forall|m: int|
                            0 <= m < items@.len() ==> spec_obj_wf(
                                spec_obj_of(#[trigger] items@[m]),
                                self@.arena.len() as int,
                            ),
                    decreases len - i,
                {
                    proof {
                        lemma_seq_height_elem(vec@, i as int);
                        assert(crate::node::nodes_view(vec@)[i as int] == vec@[i as int]@);
                    }
                    let ghost arena_before = self@.arena.len() as int;
                    let ghost st_i = self.st();
                    let v = match self.parse_expression(&vec[i]) {
                        Ok(v) => v,
                        Err(e) => {
                            return Err(e);
                        },
                    };
                    proof {
                        crate::objects::lemma_obj_view_variants(v);
                    }
                    if is_error(&v) {
                        return Err(
                            EvalError::ErrorValue { context: ErrorContext::ListElement, value: v },
                        );
                    }
                    proof {
                        assert(st_ok(st_i, self.st()));
                        assert(objs_view(items@.push(v)) =~= objs_view(items@).push(
                            spec_obj_of(v),
                        ));
                    }
                    proof {
                        assert forall|m: int| 0 <= m < items@.len() implies spec_obj_wf(
                            spec_obj_of(#[trigger] items@[m]),
                            self@.arena.len() as int,
                        ) by {
                            crate::objects::lemma_obj_wf_mono(
                                spec_obj_of(items@[m]),
                                arena_before,
                                self@.arena.len() as int,
                            );
                        }
                    }
                    items.push(v);
                    i = i + 1;
                }
                let ghost itemsv = items@;
                let r = Object::List(items);
                proof {
                    assert forall|m: int| 0 <= m < r@->List_0.len() implies spec_obj_wf(
                        #[trigger] r@->List_0[m],
                        self@.arena.len() as int,
                    ) by {}
                    assert(r@->List_0 =~= objs_view(itemsv));
                    assert(r@ == SpecObject::List(objs_view(itemsv)));
                }
                Ok(r)
            },
            Node::FunctionLiteral { token: _, arguments, body } => {
                proof {
                    assert(node@->FunctionLiteral_arguments =~= crate::node::nodes_view(
                        arguments@,
                    ));
                }
                let n = arguments.len();
                let mut names: Vec<String> = Vec::new();
                let mut i: usize = 0;
                while i < n
                    invariant
                        i <= n,
                        n == arguments@.len(),
                        names@.len() == i,
                        node@ is FunctionLiteral,
                        node@->FunctionLiteral_arguments == crate::node::nodes_view(arguments@),
                        forall|m: int|
                            0 <= m < i ==> (#[trigger] crate::node::nodes_view(arguments@)[m])
                                is Word,
                        forall|m: int|
                            0 <= m < i ==> (#[trigger] names@[m])@ == crate::node::nodes_view(
                                arguments@,
                            )[m]->Word_0.value,
                        self.wf(),
                        self@ == old(self)@,
                        self.st() == old(self).st(),
                        st0 == old(self).st(),
                    decreases n - i,
                {
                    proof {
                        crate::node::lemma_node_view_variants(arguments@[i as int]);
                        assert(crate::node::nodes_view(arguments@)[i as int] == arguments@[
                            i as int
                        ]@);
                    }
                    match &arguments[i] {
                        Node::Word(t) => {
                            names.push(t.value.clone());
                        },
                        _ => {
                            return Err(EvalError::NotAWord);
                        },
                    }
                    i = i + 1;
                }
                let id = self.next_fn_id;
                self.next_fn_id = self.next_fn_id.wrapping_add(1);
                let env_id = self.env.current_index();
                let r = Object::Function {
                    id,
                    env: env_id,
                    parameters: names,
                    body: body.duplicate(),
                };
                proof {
                    assert(r@->Function_parameters =~= word_names(
                        node@->FunctionLiteral_arguments,
                    ));
                    assert(r@->Function_body == *node@->FunctionLiteral_body);
                    assert(r@ == SpecObject::Function {
                        id: st0.next_id as nat,
                        env: st0.stack.last(),
                        parameters: word_names(node@->FunctionLiteral_arguments),
                        body: *node@->FunctionLiteral_body,
                    });
                    assert(self.st() == SpecState {
                        arena: st0.arena,
                        stack: st0.stack,
                        next_id: vstd::wrapping::u64_specs::wrapping_add(st0.next_id, 1),
                    });
                }
                Ok(r)
            },
        }
    }
}

/// The height bound for one child of a node list.
pub proof fn lemma_seq_height_elem(v: Seq<Node>, i: int)
    requires
        0 <= i < v.len(),
    ensures
        sn_height(v[i]@) < seq_height(crate::node::nodes_view(v)),
{
    lemma_seq_height(crate::node::nodes_view(v), i);
    assert(crate::node::nodes_view(v)[i] == v[i]@);
}


impl Program {
    /// Evaluate a call form: an empty form is null; `define`/`def`, `if`
    /// and `do` in head position are special forms; otherwise the head
    /// evaluates to a callee and the rest to its arguments.
    #[verifier::rlimit(100)]
    #[verifier::spinoff_prover]
    pub fn call_expression(&mut self, nodes: &Vec<Node>) -> (r: Result<Object, EvalError>)
        requires
            old(self).wf(),
        ensures
            final(self).wf(),
            final(self)@.stack == old(self)@.stack,
            final(self)@.arena.len() >= old(self)@.arena.len(),
            r matches Ok(o) ==> spec_obj_wf(o@, final(self)@.arena.len() as int),
            nodes@.len() == 0 ==> (r matches Ok(o) && o@ is Null),
            nodes@[0]@ matches SpecNode::Word(t) && nodes@.len() > 0 && (t.value == "define"@
                || t.value == "def"@) && nodes@.len() != 3 ==> (r matches Ok(o) && o@
                == SpecObject::Error(msg_define_arity(nodes@.len() as int))),
            nodes@[0]@ matches SpecNode::Word(t) && nodes@.len() == 3 && (t.value == "define"@
                || t.value == "def"@) && !(nodes@[1]@ is Word) ==> (r matches Ok(o) && o@
                == SpecObject::Error(
                msg_define_target(crate::node::spec_type_of(nodes@[1]@)),
            )),
            nodes@[0]@ matches SpecNode::Word(t) && nodes@.len() > 0 && t.value == "if"@
                && nodes@.len() != 3 && nodes@.len() != 4 ==> (r matches Ok(o) && o@
                == SpecObject::Error(msg_if_arity(nodes@.len() as int))),
            nodes@[0]@ matches SpecNode::Word(t) && nodes@.len() > 0 && t.value == "do"@
                && nodes@.len() != 2 ==> (r matches Ok(o) && o@ == SpecObject::Error(
                msg_do_arity(nodes@.len() as int),
            )),
            res_view(r) == spec_call(old(self).st(), crate::node::nodes_view(nodes@)).r,
            final(self).st() == spec_call(old(self).st(), crate::node::nodes_view(nodes@)).st,
        decreases STACK_SIZE - self@.stack.len(), seq_height(crate::node::nodes_view(nodes@)), 0int, 2int,
    {
        let ghost st0 = old(self).st();
        let ghost nsv = crate::node::nodes_view(nodes@);
        let len = nodes.len();
        if len == 0 {
            return Ok(Object::Null);
        }
        proof {
            crate::node::lemma_node_view_variants(nodes@[0]);
            assert(crate::node::nodes_view(nodes@)[0] == nodes@[0]@);
            assert(nsv[0] == nodes@[0]@);
            reveal_strlit("define");
            reveal_strlit("def");
            reveal_strlit("if");
            reveal_strlit("do");
        }
        match &nodes[0] {
            Node::Word(word) => {
            proof {
                reveal_strlit("define");
                reveal_strlit("def");
                reveal_strlit("if");
                reveal_strlit("do");
                assert(nodes@[0]@->Word_0.value == word.value@);
                assert("define"@.len() == 6 && "def"@.len() == 3 && "if"@.len() == 2 && "do"@.len()
                    == 2);
                assert("if"@[0] == 'i' && "do"@[0] == 'd');
                assert("define"@ != "do"@ && "def"@ != "do"@ && "if"@ != "do"@);
                assert("define"@ != "if"@ && "def"@ != "if"@ && "do"@ != "if"@);
                assert("define"@ != "def"@);
            }
            if crate::strutil::string_is(&word.value, "define") || crate::strutil::string_is(
                &word.value,
                "def",
            ) {
                if len != 3 {
                    let mut m = String::new();
                    m.append("Invalid amount of arguments to define got:");
                    let g = crate::numfmt::usize_to_string(len);
                    m.append(g.as_str());
                    m.append(" expected: 3");
                    proof {
                        assert(m@ =~= msg_define_arity(nodes@.len() as int));
                    }
                    return Ok(Object::Error(m));
                }
                proof {
                    crate::node::lemma_node_view_variants(nodes@[1]);
                }
                let name = match &nodes[1] {
                    Node::Word(token) => token,
                    other => {
                        let mut m = String::new();
                        m.append("Invalid token for define: ");
                        m.append(other.type_of());
                        m.append(" should be a word");
                        proof {
                            assert(m@ =~= msg_define_target(
                                crate::node::spec_type_of(nodes@[1]@),
                            ));
                        }
                        return Ok(Object::Error(m));
                    },
                };
                proof {
                    lemma_seq_height_elem(nodes@, 2);
                    assert(nsv[1] == nodes@[1]@);
                    assert(nsv[2] == nodes@[2]@);
                    assert(nsv[1]->Word_0.value == name.value@);
                }
                let value = match self.parse_expression(&nodes[2]) {
                    Ok(v) => v,
                    Err(e) => {
                        return Err(e);
                    },
                };
                proof {
                    crate::objects::lemma_obj_view_variants(value);
                }
                if is_error(&value) {
                    return Err(
                        EvalError::ErrorValue { context: ErrorContext::DefineValue, value },
                    );
                }
                let ghost s1st = self.st();
                let ghost valv = value@;
                proof {
                    assert(st_ok(st0, s1st));
                }
                self.set_value(name.value.clone(), value);
                proof {
                    assert(self.st() == st_set(s1st, nsv[1]->Word_0.value, valv));
                }
                return Ok(Object::Null);
            }
            if crate::strutil::string_is(&word.value, "if") {
                if len != 4 && len != 3 {
                    let mut m = String::new();
                    m.append("Invalid amount of arguments to 'if' got: ");
                    let g = crate::numfmt::usize_to_string(len);
                    m.append(g.as_str());
                    proof {
                        assert(m@ =~= msg_if_arity(nodes@.len() as int));
                    }
                    return Ok(Object::Error(m));
                }
                proof {
                    lemma_seq_height_elem(nodes@, 1);
                    assert(nsv[1] == nodes@[1]@);
                    assert(nsv[2] == nodes@[2]@);
                    if len == 4 {
                        assert(nsv[3] == nodes@[3]@);
                    }
                }
                let condition = match self.parse_expression(&nodes[1]) {
                    Ok(v) => v,
                    Err(e) => {
                        return Err(e);
                    },
                };
                proof {
                    crate::objects::lemma_obj_view_variants(condition);
                }
                if is_error(&condition) {
                    return Err(
                        EvalError::ErrorValue {
                            context: ErrorContext::IfCondition,
                            value: condition,
                        },
                    );
                }
                proof {
                    assert(st_ok(st0, self.st()));
                }
                let truthy = is_truthy(&condition);
                let branch = if truthy {
                    proof {
                        lemma_seq_height_elem(nodes@, 2);
                    }
                    self.parse_expression(&nodes[2])
                } else if len == 4 {
                    proof {
                        lemma_seq_height_elem(nodes@, 3);
                    }
                    self.parse_expression(&nodes[3])
                } else {
                    Ok(Object::Null)
                };
                proof {
                    if branch is Ok {
                        crate::objects::lemma_obj_view_variants(branch->Ok_0);
                    }
                }
                return match branch {
                    Ok(v) => if is_error(&v) {
                        Err(EvalError::ErrorValue { context: ErrorContext::IfResult, value: v })
                    } else {
                        Ok(v)
                    },
                    Err(e) => Err(e),
                };
            }
            if crate::strutil::string_is(&word.value, "do") {
                if len != 2 {
                    let mut m = String::new();
                    m.append("Invalid amount of arguments to 'do' got: ");
                    let g = crate::numfmt::usize_to_string(len);
                    m.append(g.as_str());
                    proof {
                        assert(m@ =~= msg_do_arity(nodes@.len() as int));
                    }
                    return Ok(Object::Error(m));
                }
                proof {
                    lemma_seq_height_elem(nodes@, 1);
                    assert(nsv[1] == nodes@[1]@);
                }
                return self.eval(&nodes[1]);
            }
            },
            _ => {},
        }
        if len == 1 && !matches!(&nodes[0], Node::Word(_)) {
            // a singleton form is a pass-through value
            proof {
                lemma_seq_height_elem(nodes@, 0);
                assert(nsv[0] == nodes@[0]@);
            }
            return self.parse_expression(&nodes[0]);
        }
        proof {
            crate::node::lemma_node_view_variants(nodes@[0]);
            lemma_seq_height_elem(nodes@, 0);
        }
        let first = match self.parse_expression(&nodes[0]) {
            Ok(v) => v,
            Err(e) => {
                return Err(e);
            },
        };
        proof {
            crate::objects::lemma_obj_view_variants(first);
        }
        if is_error(&first) {
            return Err(EvalError::ErrorValue { context: ErrorContext::Callee, value: first });
        }
        let ghost st1 = self.st();
        let mut argv: Vec<Object> = Vec::new();
        let mut i: usize = 1;
        let ghost arena_at_first = self@.arena.len() as int;
        proof {
            assert(spec_obj_wf(first@, arena_at_first));
            assert(st_ok(st0, st1));
            assert(objs_view(argv@) =~= Seq::<SpecObject>::empty());
        }
        while i < len
            invariant
                1 <= i <= len,
                len == nodes@.len(),
                st0 == old(self).st(),
                nsv == crate::node::nodes_view(nodes@),
                nsv.len() == len,
                nsv[0] == nodes@[0]@,
                len != 1 || nsv[0] is Word,
                nodes@[0]@ matches SpecNode::Word(t) ==> t.value != "define"@ && t.value != "def"@
                    && t.value != "if"@ && t.value != "do"@,
                st_ok(st0, st1),
                spec_eval_expr(st0, nsv[0]) == (EvalStep { r: Ok(first@), st: st1 }),
                !(first@ is Error),
                spec_call_args(st1, nsv, 1, Seq::empty()) == spec_call_args(
                    self.st(),
                    nsv,
                    i as int,
                    objs_view(argv@),
                ),
                self.wf(),
                self@.stack == old(self)@.stack,
                self@.arena.len() >= old(self)@.arena.len(),
                self@.arena.len() >= arena_at_first,
                spec_obj_wf(first@, arena_at_first),
                forall|m: int|
                    0 <= m < argv@.len() ==> spec_obj_wf(
                        spec_obj_of(#[trigger] argv@[m]),
                        self@.arena.len() as int,
                    ),
            decreases len - i,
        {
            proof {
                lemma_seq_height_elem(nodes@, i as int);
                assert(nsv[i as int] == nodes@[i as int]@);
            }
            let ghost arena_before = self@.arena.len() as int;
            let ghost st_i = self.st();
            let arg = match self.parse_expression(&nodes[i]) {
                Ok(v) => v,
                Err(e) => {
                    return Err(e);
                },
            };
            proof {
                crate::objects::lemma_obj_view_variants(arg);
            }
            if is_error(&arg) {
                return Err(
                    EvalError::ErrorValue { context: ErrorContext::FunctionArgument, value: arg },
                );
            }
            proof {
                assert(st_ok(st_i, self.st()));
                assert(objs_view(argv@.push(arg)) =~= objs_view(argv@).push(spec_obj_of(arg)));
                assert forall|m: int| 0 <= m < argv@.len() implies spec_obj_wf(
                    spec_obj_of(#[trigger] argv@[m]),
                    self@.arena.len() as int,
                ) by {
                    crate::objects::lemma_obj_wf_mono(
                        spec_obj_of(argv@[m]),
                        arena_before,
                        self@.arena.len() as int,
                    );
                }
            }
            argv.push(arg);
            i = i + 1;
        }
        let ghost st2 = self.st();
        let ghost argvv = objs_view(argv@);
        proof {
            crate::objects::lemma_obj_view_variants(first);
            crate::objects::lemma_obj_wf_mono(first@, arena_at_first, self@.arena.len() as int);
            assert(spec_call_args(st1, nsv, 1, Seq::empty()) == spec_call_args(
                st2,
                nsv,
                len as int,
                argvv,
            ));
            assert(spec_call_args(st2, nsv, len as int, argvv) == (
                Ok::<Seq<SpecObject>, SpecFailure>(argvv),
                st2,
            ));
            assert(st_ok(st0, st2));
        }
        let ghost firstv = first@;
        match first {
            Object::Builtin(kind) => {
                proof {
                    assert(firstv->Builtin_0 == kind);
                }
                let b = self.apply_builtin(kind, argv);
                Ok(b)
            },
            Object::Function { id: _, env, parameters, body } => {
                proof {
                    assert(firstv->Function_env == env as int);
                    assert(firstv->Function_body == body@);
                    assert(firstv->Function_parameters == parameters@.map_values(|p: String| p@));
                }
                if argv.len() != parameters.len() {
                    let mut m = String::new();
                    m.append("Invalid number of arguments passed into function got ");
                    let g = crate::numfmt::usize_to_string(argv.len());
                    m.append(g.as_str());
                    m.append(" expected ");
                    let e2 = crate::numfmt::usize_to_string(parameters.len());
                    m.append(e2.as_str());
                    proof {
                        assert(m@ =~= msg_fn_arity(argv@.len() as int, parameters@.len() as int));
                    }
                    return Ok(Object::Error(m));
                }
                self.run_function(env, &body, &parameters, &argv)
            },
            Object::Null => Ok(Object::Null),
            obj => {
                let mut m = String::new();
                m.append(obj.type_of());
                proof {
                    assert(m@ =~= crate::objects::spec_obj_type_of(obj@));
                }
                Err(EvalError::CannotCall { callee_type: m })
            },
        }
    }

    /// Dispatch a builtin.  The pure builtins return exactly what their
    /// specifications state; `map` and `reduce` re-enter the evaluator
    /// through `run_function`, turning any host failure into an error
    /// value.
    #[verifier::rlimit(60)]
    pub fn apply_builtin(&mut self, kind: crate::objects::BuiltinKind, args: Vec<Object>) -> (r:
        Object)
        requires
            old(self).wf(),
            forall|i: int|
                0 <= i < args@.len() ==> spec_obj_wf(
                    spec_obj_of(#[trigger] args@[i]),
                    old(self)@.arena.len() as int,
                ),
        ensures
            final(self).wf(),
            final(self)@.stack == old(self)@.stack,
            final(self)@.arena.len() >= old(self)@.arena.len(),
            spec_obj_wf(r@, final(self)@.arena.len() as int),
            kind is TypeOf ==> r@ == crate::builtins::spec_type_builtin(objs_view(args@)),
            kind is Len ==> r@ == crate::builtins::spec_len_builtin(objs_view(args@)),
            kind is Equals ==> r@ == crate::builtins::spec_equals_builtin(objs_view(args@)),
            kind is NotEquals ==> r@ == crate::builtins::spec_not_equals_builtin(objs_view(args@)),
            kind is LessThan ==> r@ == crate::builtins::spec_less_than_builtin(objs_view(args@)),
            kind is GreaterThan ==> r@ == crate::builtins::spec_greater_than_builtin(
                objs_view(args@),
            ),
            kind is Add ==> r@ == crate::builtins::spec_add(objs_view(args@)),
            kind is Subtract ==> r@ == crate::builtins::spec_subtract(objs_view(args@)),
            kind is Multiply ==> r@ == crate::builtins::spec_multiply(objs_view(args@)),
            kind is Divide ==> r@ == crate::builtins::spec_divide(objs_view(args@)),
            kind is Modulo ==> r@ == crate::builtins::spec_modulo(objs_view(args@)),
            kind is ParseInt ==> r@ == crate::builtins::spec_parse_int_builtin(objs_view(args@)),
            kind is Abs ==> r@ == crate::builtins::spec_abs(objs_view(args@)),
            kind is Nth ==> r@ == crate::builtins::spec_nth(objs_view(args@)),
            kind is Head ==> r@ == crate::builtins::spec_head(objs_view(args@)),
            kind is Tail ==> r@ == crate::builtins::spec_tail(objs_view(args@)),
            kind is Slice ==> r@ == crate::builtins::spec_slice(objs_view(args@)),
            kind is Sort ==> r@ == crate::builtins::spec_sort_builtin(objs_view(args@)),
            kind is Flat ==> r@ == crate::builtins::spec_flat(objs_view(args@)),
            kind is Concat ==> r@ == crate::builtins::spec_concat(objs_view(args@)),
            kind is Str ==> r@ == crate::builtins::spec_str_builtin(objs_view(args@)),
            kind is Lines ==> r@ == crate::builtins::spec_lines_builtin(objs_view(args@)),
            kind is Split ==> r@ == crate::builtins::spec_split_builtin(objs_view(args@)),
            r@ == spec_apply_builtin(old(self).st(), kind, objs_view(args@)).o,
            final(self).st() == spec_apply_builtin(old(self).st(), kind, objs_view(args@)).st,
        decreases STACK_SIZE - self@.stack.len(), 0int, so_seq_height(objs_view(args@)), 1int,
    {
        proof {
            builtin_args_facts(args@, old(self)@.arena.len() as int);
        }
        match kind {
            crate::objects::BuiltinKind::TypeOf => {
                let r = crate::builtins::type_builtin(&args);
                proof {
                    lemma_pure_result_wf_simple(r@);
                }
                r
            },
            crate::objects::BuiltinKind::Len => {
                let r = crate::builtins::len_builtin(&args);
                proof {
                    lemma_pure_result_wf_simple(r@);
                }
                r
            },
            crate::objects::BuiltinKind::Equals => {
                let r = crate::builtins::equals_builtin(&args);
                proof {
                    lemma_pure_result_wf_simple(r@);
                }
                r
            },
            crate::objects::BuiltinKind::NotEquals => {
                let r = crate::builtins::not_equals_builtin(&args);
                proof {
                    lemma_pure_result_wf_simple(r@);
                }
                r
            },
            crate::objects::BuiltinKind::LessThan => {
                let r = crate::builtins::less_than_builtin(&args);
                proof {
                    lemma_pure_result_wf_simple(r@);
                }
                r
            },
            crate::objects::BuiltinKind::GreaterThan => {
                let r = crate::builtins::greater_than_builtin(&args);
                proof {
                    lemma_pure_result_wf_simple(r@);
                }
                r
            },
            crate::objects::BuiltinKind::Add => {
                let r = crate::builtins::add(&args);
                proof {
                    lemma_pure_result_wf_simple(r@);
                }
                r
            },
            crate::objects::BuiltinKind::Subtract => {
                let r = crate::builtins::subtract(&args);
                proof {
                    lemma_pure_result_wf_simple(r@);
                }
                r
            },
            crate::objects::BuiltinKind::Multiply => {
                let r = crate::builtins::multiply(&args);
                proof {
                    lemma_pure_result_wf_simple(r@);
                }
                r
            },
            crate::objects::BuiltinKind::Divide => {
                let r = crate::builtins::divide(&args);
                proof {
                    lemma_pure_result_wf_simple(r@);
                }
                r
            },
            crate::objects::BuiltinKind::Modulo => {
                let r = crate::builtins::modulo(&args);
                proof {
                    lemma_pure_result_wf_simple(r@);
                }
                r
            },
            crate::objects::BuiltinKind::ParseInt => {
                let r = crate::builtins::parse_int(&args);
                proof {
                    lemma_pure_result_wf_simple(r@);
                }
                r
            },
            crate::objects::BuiltinKind::Abs => {
                let r = crate::builtins::abs(&args);
                proof {
                    lemma_pure_result_wf_simple(r@);
                }
                r
            },
            crate::objects::BuiltinKind::Str => {
                let r = crate::builtins::str_builtin(&args);
                proof {
                    lemma_pure_result_wf_simple(r@);
                }
                r
            },
            crate::objects::BuiltinKind::Nth => {
                let r = crate::builtins::nth(&args);
                proof {
                    let n = old(self)@.arena.len() as int;
                    let s = objs_view(args@);
                    if s.len() == 2 && s[0] is Integer && s[1] is List {
                        assert(spec_obj_wf(s[1], n));
                    }
                    lemma_pure_result_wf_simple(r@);
                }
                r
            },
            crate::objects::BuiltinKind::Head => {
                let r = crate::builtins::head(&args);
                proof {
                    let n = old(self)@.arena.len() as int;
                    let s = objs_view(args@);
                    if s.len() == 1 && s[0] is List {
                        assert(spec_obj_wf(s[0], n));
                    }
                    lemma_pure_result_wf_simple(r@);
                }
                r
            },
            crate::objects::BuiltinKind::Tail => {
                let r = crate::builtins::tail(&args);
                proof {
                    let n = old(self)@.arena.len() as int;
                    let s = objs_view(args@);
                    if s.len() == 1 && s[0] is List {
                        assert(spec_obj_wf(s[0], n));
                        assert forall|m: int| 0 <= m < r@->List_0.len() implies spec_obj_wf(
                            #[trigger] r@->List_0[m],
                            n,
                        ) by {
                            assert(r@->List_0[m] == s[0]->List_0[m + 1]);
                        }
                    }
                    lemma_pure_result_wf_simple(r@);
                }
                r
            },
            crate::objects::BuiltinKind::Slice => {
                let r = crate::builtins::slice(&args);
                proof {
                    let n = old(self)@.arena.len() as int;
                    let s = objs_view(args@);
                    if (s.len() == 2 || s.len() == 3) && s[0] is List && s[1] is Integer {
                        assert(spec_obj_wf(s[0], n));
                        assert forall|m: int| 0 <= m < r@->List_0.len() implies spec_obj_wf(
                            #[trigger] r@->List_0[m],
                            n,
                        ) by {
                            let pr = crate::builtins::spec_slice_range(
                                s[1]->Integer_0,
                                if s.len() == 3 && s[2] is Integer {
                                    Some(s[2]->Integer_0)
                                } else {
                                    None
                                },
                                s[0]->List_0.len() as int,
                            );
                            assert(r@->List_0[m] == s[0]->List_0[m + pr.0]);
                        }
                    }
                    lemma_pure_result_wf_simple(r@);
                }
                r
            },
            crate::objects::BuiltinKind::Sort => {
                let r = crate::builtins::sort(&args);
                proof {
                    let n = old(self)@.arena.len() as int;
                    let s = objs_view(args@);
                    if s.len() == 1 && s[0] is List {
                        assert(spec_obj_wf(s[0], n));
                        crate::laws::lemma_sort_objs_wf(s[0]->List_0, n);
                    }
                    lemma_pure_result_wf_simple(r@);
                }
                r
            },
            crate::objects::BuiltinKind::Flat => {
                let r = crate::builtins::flat(&args);
                proof {
                    let n = old(self)@.arena.len() as int;
                    let s = objs_view(args@);
                    if s.len() == 1 && s[0] is List {
                        assert(spec_obj_wf(s[0], n));
                        crate::builtins::lemma_flatten_list_wf(s[0]->List_0, n);
                    }
                    lemma_pure_result_wf_simple(r@);
                }
                r
            },
            crate::objects::BuiltinKind::Concat => {
                let r = crate::builtins::concat(&args);
                proof {
                    let n = old(self)@.arena.len() as int;
                    let s = objs_view(args@);
                    crate::builtins::lemma_first_non_list(s);
                    if spec_first_non_list(s) is None {
                        crate::builtins::lemma_concat_lists_wf(s, n);
                    }
                    lemma_pure_result_wf_simple(r@);
                }
                r
            },
            crate::objects::BuiltinKind::Lines => {
                let r = crate::builtins::lines(&args);
                proof {
                    lemma_pure_result_wf_simple(r@);
                    if r@ is List {
                        assert forall|m: int| 0 <= m < r@->List_0.len() implies spec_obj_wf(
                            #[trigger] r@->List_0[m],
                            old(self)@.arena.len() as int,
                        ) by {
                            lemma_strings_wf(r@->List_0, m, old(self)@.arena.len() as int);
                        }
                    }
                }
                r
            },
            crate::objects::BuiltinKind::Split => {
                let r = crate::builtins::split(&args);
                proof {
                    lemma_pure_result_wf_simple(r@);
                    if r@ is List {
                        assert forall|m: int| 0 <= m < r@->List_0.len() implies spec_obj_wf(
                            #[trigger] r@->List_0[m],
                            old(self)@.arena.len() as int,
                        ) by {
                            lemma_strings_wf(r@->List_0, m, old(self)@.arena.len() as int);
                        }
                    }
                }
                r
            },
            crate::objects::BuiltinKind::MapList => self.map_builtin(args),
            crate::objects::BuiltinKind::Reduce => self.reduce_builtin(args),
        }
    }
}

/// Arguments handed to a builtin are well formed, element by element.
proof fn builtin_args_facts(v: Seq<Object>, n: int)
    ensures
        objs_view(v).len() == v.len(),
        forall|i: int| 0 <= i < v.len() ==> #[trigger] objs_view(v)[i] == spec_obj_of(v[i]),
{
}

/// A list of strings is well formed against any arena.
proof fn lemma_strings_wf(s: Seq<SpecObject>, m: int, n: int)
    requires
        0 <= m < s.len(),
        s[m] is String || s[m] is Null || s[m] is Integer || s[m] is Bool || s[m] is Error,
    ensures
        spec_obj_wf(s[m], n),
{
}

/// Primitive results are well formed against any arena; list results
/// need their elements shown separately, which each dispatch arm does.
proof fn lemma_pure_result_wf_simple(o: SpecObject)
    ensures
        !(o is List) && !(o is Function) ==> forall|n: int| #[trigger] spec_obj_wf(o, n),
{
    assert forall|n: int| !(o is List) && !(o is Function) implies #[trigger] spec_obj_wf(
        o,
        n,
    ) by {}
}


impl Program {
    /// Map a closure or builtin over a list; a host failure inside one
    /// application becomes an error value for the whole call.
    fn map_builtin(&mut self, args: Vec<Object>) -> (r: Object)
        requires
            old(self).wf(),
            forall|i: int|
                0 <= i < args@.len() ==> spec_obj_wf(
                    spec_obj_of(#[trigger] args@[i]),
                    old(self)@.arena.len() as int,
                ),
        ensures
            final(self).wf(),
            final(self)@.stack == old(self)@.stack,
            final(self)@.arena.len() >= old(self)@.arena.len(),
            spec_obj_wf(r@, final(self)@.arena.len() as int),
            r@ == spec_apply_builtin(
                old(self).st(),
                crate::objects::BuiltinKind::MapList,
                objs_view(args@),
            ).o,
            final(self).st() == spec_apply_builtin(
                old(self).st(),
                crate::objects::BuiltinKind::MapList,
                objs_view(args@),
            ).st,
        decreases STACK_SIZE - self@.stack.len(), 0int, so_seq_height(objs_view(args@)), 0int,
    {
        let ghost st0 = old(self).st();
        let ghost av = objs_view(args@);
        proof {
            builtin_args_facts(args@, old(self)@.arena.len() as int);
        }
        if args.len() != 2 {
            let r = crate::builtins::new_args_len_error("map", &args, 2);
            proof {
                lemma_pure_result_wf_simple(r@);
                assert(self.st() == st0);
            }
            return r;
        }
        proof {
            crate::objects::lemma_obj_view_variants(args@[0]);
            crate::objects::lemma_obj_view_variants(args@[1]);
        }
        let ghost n0 = old(self)@.arena.len() as int;
        match &args[0] {
            Object::List(_) => {},
            _ => {
                let r = crate::builtins::new_type_error_with_pos("map", "list", 0);
                proof {
                    lemma_pure_result_wf_simple(r@);
                    assert(self.st() == st0);
                }
                return r;
            },
        }
        let is_fn = matches!(&args[1], Object::Function { .. });
        let is_bi = matches!(&args[1], Object::Builtin(_));
        if !is_fn && !is_bi {
            let r = crate::builtins::new_type_error_with_pos("map", "function", 1);
            proof {
                lemma_pure_result_wf_simple(r@);
                assert(self.st() == st0);
            }
            return r;
        }
        let l = match &args[0] {
            Object::List(v) => v,
            _ => vstd::pervasive::unreached(),
        };
        let mut out: Vec<Object> = Vec::new();
        let count = l.len();
        let mut k: usize = 0;
        proof {
            assert(objs_view(out@) =~= Seq::<SpecObject>::empty());
        }
        while k < count
            invariant
                k <= count,
                count == l@.len(),
                args@.len() == 2,
                args@[0] is List,
                l@ == args@[0]->List_0@,
                is_fn == args@[1] is Function,
                is_bi == args@[1] is Builtin,
                is_fn || is_bi,
                st0 == old(self).st(),
                av == objs_view(args@),
                av.len() == 2,
                av[0] == spec_obj_of(args@[0]),
                av[1] == spec_obj_of(args@[1]),
                av[0]->List_0.len() == l@.len(),
                forall|m: int|
                    0 <= m < l@.len() ==> #[trigger] av[0]->List_0[m] == spec_obj_of(l@[m]),
                spec_map_items(st0, av, 0, Seq::empty()) == spec_map_items(
                    self.st(),
                    av,
                    k as int,
                    objs_view(out@),
                ),
                self.wf(),
                self@.stack == old(self)@.stack,
                self@.arena.len() >= n0,
                n0 == old(self)@.arena.len() as int,
                forall|i: int|
                    0 <= i < args@.len() ==> spec_obj_wf(spec_obj_of(#[trigger] args@[i]), n0),
                forall|m: int|
                    0 <= m < out@.len() ==> spec_obj_wf(
                        spec_obj_of(#[trigger] out@[m]),
                        self@.arena.len() as int,
                    ),
            decreases count - k,
        {
            proof {
                builtin_args_facts(args@, n0);
                assert(spec_obj_of(args@[0])->List_0[k as int] == spec_obj_of(l@[k as int]));
                assert(spec_obj_wf(spec_obj_of(l@[k as int]), n0));
            }
            let mut one: Vec<Object> = Vec::new();
            one.push(l[k].duplicate());
            proof {
                assert(spec_obj_wf(spec_obj_of(one@[0]), n0));
                crate::objects::lemma_obj_wf_mono(
                    spec_obj_of(one@[0]),
                    n0,
                    self@.arena.len() as int,
                );
                assert(objs_view(one@) =~= seq![av[0]->List_0[k as int]]);
            }
            let ghost arena_before = self@.arena.len() as int;
            let ghost st_k = self.st();
            let v = if is_fn {
                let (env, parameters, body) = match &args[1] {
                    Object::Function { env, parameters, body, .. } => (*env, parameters, body),
                    _ => vstd::pervasive::unreached(),
                };
                proof {
                    assert(spec_obj_wf(spec_obj_of(args@[1]), n0));
                    assert((env as int) < n0);
                    assert(av[1]->Function_env == env as int);
                    assert(av[1]->Function_body == body@);
                    assert(av[1]->Function_parameters == parameters@.map_values(
                        |p: String| p@,
                    ));
                }
                match self.run_function(env, body, parameters, &one) {
                    Ok(v) => v,
                    Err(e) => {
                        let msg = e.brief();
                        proof {
                            let step = spec_map_items(st_k, av, k as int, objs_view(out@));
                            assert(step.o == SpecObject::Error(
                                spec_failure_brief(eval_error_view(e)),
                            ));
                            assert(step.st == self.st());
                        }
                        return Object::Error(msg);
                    },
                }
            } else {
                let k2 = match &args[1] {
                    Object::Builtin(b) => *b,
                    _ => vstd::pervasive::unreached(),
                };
                proof {
                    let s0 = spec_obj_of(args@[0])->List_0;
                    lemma_so_seq_height(s0, k as int);
                    assert(s0[k as int] == spec_obj_of(l@[k as int]));
                    assert(so_height(spec_obj_of(l@[k as int])) < so_seq_height(s0));
                    lemma_so_seq_height(objs_view(args@), 0);
                    assert(objs_view(args@)[0] == spec_obj_of(args@[0]));
                    assert(so_height(spec_obj_of(args@[0])) == so_seq_height(s0) + 1);
                    assert(objs_view(one@).drop_first() =~= Seq::<SpecObject>::empty());
                    assert(objs_view(one@)[0] == spec_obj_of(one@[0]));
                    assert(so_seq_height(Seq::<SpecObject>::empty()) == 0);
                    assert(so_seq_height(objs_view(one@)) == so_height(spec_obj_of(one@[0])) + 1);
                    assert(spec_obj_of(one@[0]) == spec_obj_of(l@[k as int]));
                    assert(so_seq_height(objs_view(one@)) < so_seq_height(objs_view(args@)));
                }
                proof {
                    assert(av[1]->Builtin_0 == k2);
                }
                let v = self.apply_builtin(k2, one);
                proof {
                    crate::objects::lemma_obj_view_variants(v);
                }
                match v {
                    Object::Error(inner) => {
                        let mut m = String::new();
                        m.append("map error: ");
                        m.append(inner.as_str());
                        proof {
                            assert(m@ =~= "map error: "@ + inner@);
                            let step = spec_map_items(st_k, av, k as int, objs_view(out@));
                            assert(step.o == SpecObject::Error("map error: "@ + inner@));
                            assert(step.st == self.st());
                        }
                        return Object::Error(m);
                    },
                    other => other,
                }
            };
            proof {
                assert forall|m: int| 0 <= m < out@.len() implies spec_obj_wf(
                    spec_obj_of(#[trigger] out@[m]),
                    self@.arena.len() as int,
                ) by {
                    crate::objects::lemma_obj_wf_mono(
                        spec_obj_of(out@[m]),
                        arena_before,
                        self@.arena.len() as int,
                    );
                }
            }
            proof {
                assert(st_ok(st_k, self.st()));
                assert(objs_view(out@.push(v)) =~= objs_view(out@).push(spec_obj_of(v)));
            }
            out.push(v);
            k = k + 1;
        }
        let ghost outv = out@;
        let r = Object::List(out);
        proof {
            assert forall|m: int| 0 <= m < r@->List_0.len() implies spec_obj_wf(
                #[trigger] r@->List_0[m],
                self@.arena.len() as int,
            ) by {}
            assert(r@->List_0 =~= objs_view(outv));
            assert(r@ == SpecObject::List(objs_view(outv)));
        }
        r
    }

    /// Fold a closure over a list, the accumulator threaded left to
    /// right; an error value from one step ends the fold with it.
    fn reduce_builtin(&mut self, args: Vec<Object>) -> (r: Object)
        requires
            old(self).wf(),
            forall|i: int|
                0 <= i < args@.len() ==> spec_obj_wf(
                    spec_obj_of(#[trigger] args@[i]),
                    old(self)@.arena.len() as int,
                ),
        ensures
            final(self).wf(),
            final(self)@.stack == old(self)@.stack,
            final(self)@.arena.len() >= old(self)@.arena.len(),
            spec_obj_wf(r@, final(self)@.arena.len() as int),
            r@ == spec_apply_builtin(
                old(self).st(),
                crate::objects::BuiltinKind::Reduce,
                objs_view(args@),
            ).o,
            final(self).st() == spec_apply_builtin(
                old(self).st(),
                crate::objects::BuiltinKind::Reduce,
                objs_view(args@),
            ).st,
        decreases STACK_SIZE - self@.stack.len(), 0int, so_seq_height(objs_view(args@)), 0int,
    {
        let ghost st0 = old(self).st();
        let ghost av = objs_view(args@);
        proof {
            builtin_args_facts(args@, old(self)@.arena.len() as int);
        }
        if args.len() != 2 && args.len() != 3 {
            let r = crate::builtins::new_args_len_error("reduce", &args, 2);
            proof {
                lemma_pure_result_wf_simple(r@);
                assert(self.st() == st0);
            }
            return r;
        }
        proof {
            crate::objects::lemma_obj_view_variants(args@[0]);
            crate::objects::lemma_obj_view_variants(args@[1]);
        }
        let ghost n0 = old(self)@.arena.len() as int;
        match &args[0] {
            Object::List(_) => {},
            _ => {
                let r = crate::builtins::new_type_error_with_pos("reduce", "list", 0);
                proof {
                    lemma_pure_result_wf_simple(r@);
                    assert(self.st() == st0);
                }
                return r;
            },
        }
        if !matches!(&args[1], Object::Function { .. }) {
            let r = crate::builtins::new_type_error_with_pos("reduce", "function", 1);
            proof {
                lemma_pure_result_wf_simple(r@);
                assert(self.st() == st0);
            }
            return r;
        }
        let l = match &args[0] {
            Object::List(v) => v,
            _ => vstd::pervasive::unreached(),
        };
        let mut acc = if args.len() == 3 {
            proof {
                crate::objects::lemma_obj_view_variants(args@[2]);
            }
            args[2].duplicate()
        } else {
            Object::Null
        };
        let count = l.len();
        let mut k: usize = 0;
        while k < count
            invariant
                k <= count,
                count == l@.len(),
                args@.len() == 2 || args@.len() == 3,
                args@[0] is List,
                l@ == args@[0]->List_0@,
                args@[1] is Function,
                st0 == old(self).st(),
                av == objs_view(args@),
                av.len() == args@.len(),
                av[0] == spec_obj_of(args@[0]),
                av[1] == spec_obj_of(args@[1]),
                av[0]->List_0.len() == l@.len(),
                forall|m: int|
                    0 <= m < l@.len() ==> #[trigger] av[0]->List_0[m] == spec_obj_of(l@[m]),
                spec_reduce_items(
                    st0,
                    av,
                    0,
                    if av.len() == 3 {
                        av[2]
                    } else {
                        SpecObject::Null
                    },
                ) == spec_reduce_items(self.st(), av, k as int, spec_obj_of(acc)),
                self.wf(),
                self@.stack == old(self)@.stack,
                self@.arena.len() >= n0,
                n0 == old(self)@.arena.len() as int,
                forall|i: int|
                    0 <= i < args@.len() ==> spec_obj_wf(spec_obj_of(#[trigger] args@[i]), n0),
                spec_obj_wf(spec_obj_of(acc), self@.arena.len() as int),
            decreases count - k,
        {
            proof {
                builtin_args_facts(args@, n0);
                assert(spec_obj_of(args@[0])->List_0[k as int] == spec_obj_of(l@[k as int]));
                assert(spec_obj_wf(spec_obj_of(l@[k as int]), n0));
                crate::objects::lemma_obj_wf_mono(
                    spec_obj_of(l@[k as int]),
                    n0,
                    self@.arena.len() as int,
                );
            }
            let mut two: Vec<Object> = Vec::new();
            two.push(acc.duplicate());
            two.push(l[k].duplicate());
            let (env, parameters, body) = match &args[1] {
                Object::Function { env, parameters, body, .. } => (*env, parameters, body),
                _ => vstd::pervasive::unreached(),
            };
            proof {
                assert(spec_obj_wf(spec_obj_of(args@[1]), n0));
                assert((env as int) < n0);
                assert(spec_obj_wf(spec_obj_of(two@[0]), self@.arena.len() as int));
                assert(spec_obj_wf(spec_obj_of(two@[1]), self@.arena.len() as int));
                assert(objs_view(two@) =~= seq![spec_obj_of(acc), av[0]->List_0[k as int]]);
                assert(av[1]->Function_env == env as int);
                assert(av[1]->Function_body == body@);
                assert(av[1]->Function_parameters == parameters@.map_values(|p: String| p@));
            }
            let ghost st_k = self.st();
            let ghost acc_pre = spec_obj_of(acc);
            let v = match self.run_function(env, body, parameters, &two) {
                Ok(v) => v,
                Err(e) => {
                    let msg = e.brief();
                    proof {
                        let step = spec_reduce_items(st_k, av, k as int, acc_pre);
                        assert(step.o == SpecObject::Error(
                            spec_failure_brief(eval_error_view(e)),
                        ));
                        assert(step.st == self.st());
                    }
                    return Object::Error(msg);
                },
            };
            proof {
                crate::objects::lemma_obj_view_variants(v);
            }
            if is_error(&v) {
                proof {
                    let step = spec_reduce_items(st_k, av, k as int, acc_pre);
                    assert(step.o == spec_obj_of(v));
                    assert(step.st == self.st());
                }
                return v;
            }
            proof {
                assert(st_ok(st_k, self.st()));
            }
            acc = v;
            k = k + 1;
        }
        acc
    }
}


/// A `String` holding a literal.
fn string_lit(s: &str) -> (r: String)
    ensures
        r@ == s@,
{
    let mut m = String::new();
    m.append(s);
    proof {
        assert(m@ =~= s@);
    }
    m
}

/// The scope `add_generic_builtins` produces from `m`: every builtin
/// bound under its name, the arithmetic, string and comparison builtins
/// also under a `std/`-prefixed alias.
pub open spec fn with_generic_builtins(m: Map<Seq<char>, SpecObject>) -> Map<Seq<char>, SpecObject> {
    m.insert("+"@,
    SpecObject::Builtin(crate::objects::BuiltinKind::Add)).insert("std/+"@,
    SpecObject::Builtin(crate::objects::BuiltinKind::Add)).insert("-"@,
    SpecObject::Builtin(crate::objects::BuiltinKind::Subtract)).insert("std/-"@,
    SpecObject::Builtin(crate::objects::BuiltinKind::Subtract)).insert("*"@,
    SpecObject::Builtin(crate::objects::BuiltinKind::Multiply)).insert("std/*"@,
    SpecObject::Builtin(crate::objects::BuiltinKind::Multiply)).insert("/"@,
    SpecObject::Builtin(crate::objects::BuiltinKind::Divide)).insert("std//"@,
    SpecObject::Builtin(crate::objects::BuiltinKind::Divide)).insert("%"@,
    SpecObject::Builtin(crate::objects::BuiltinKind::Modulo)).insert("std/%"@,
    SpecObject::Builtin(crate::objects::BuiltinKind::Modulo)).insert("parse_int"@,
    SpecObject::Builtin(crate::objects::BuiltinKind::ParseInt)).insert("std/parse_int"@,
    SpecObject::Builtin(crate::objects::BuiltinKind::ParseInt)).insert("abs"@,
    SpecObject::Builtin(crate::objects::BuiltinKind::Abs)).insert("std/abs"@,
    SpecObject::Builtin(crate::objects::BuiltinKind::Abs)).insert("nth"@,
    SpecObject::Builtin(crate::objects::BuiltinKind::Nth)).insert("head"@,
    SpecObject::Builtin(crate::objects::BuiltinKind::Head)).insert("tail"@,
    SpecObject::Builtin(crate::objects::BuiltinKind::Tail)).insert("slice"@,
    SpecObject::Builtin(crate::objects::BuiltinKind::Slice)).insert("sort"@,
    SpecObject::Builtin(crate::objects::BuiltinKind::Sort)).insert("map"@,
    SpecObject::Builtin(crate::objects::BuiltinKind::MapList)).insert("flat"@,
    SpecObject::Builtin(crate::objects::BuiltinKind::Flat)).insert("concat"@,
    SpecObject::Builtin(crate::objects::BuiltinKind::Concat)).insert("reduce"@,
    SpecObject::Builtin(crate::objects::BuiltinKind::Reduce)).insert("str"@,
    SpecObject::Builtin(crate::objects::BuiltinKind::Str)).insert("std/str"@,
    SpecObject::Builtin(crate::objects::BuiltinKind::Str)).insert("lines"@,
    SpecObject::Builtin(crate::objects::BuiltinKind::Lines)).insert("std/lines"@,
    SpecObject::Builtin(crate::objects::BuiltinKind::Lines)).insert("split"@,
    SpecObject::Builtin(crate::objects::BuiltinKind::Split)).insert("std/split"@,
    SpecObject::Builtin(crate::objects::BuiltinKind::Split)).insert("type"@,
    SpecObject::Builtin(crate::objects::BuiltinKind::TypeOf)).insert("std/type"@,
    SpecObject::Builtin(crate::objects::BuiltinKind::TypeOf)).insert("len"@,
    SpecObject::Builtin(crate::objects::BuiltinKind::Len)).insert("std/len"@,
    SpecObject::Builtin(crate::objects::BuiltinKind::Len)).insert("=="@,
    SpecObject::Builtin(crate::objects::BuiltinKind::Equals)).insert("std/=="@,
    SpecObject::Builtin(crate::objects::BuiltinKind::Equals)).insert("!="@,
    SpecObject::Builtin(crate::objects::BuiltinKind::NotEquals)).insert("std/!="@,
    SpecObject::Builtin(crate::objects::BuiltinKind::NotEquals)).insert("<"@,
    SpecObject::Builtin(crate::objects::BuiltinKind::LessThan)).insert("std/<"@,
    SpecObject::Builtin(crate::objects::BuiltinKind::LessThan)).insert(">"@,
    SpecObject::Builtin(crate::objects::BuiltinKind::GreaterThan)).insert("std/>"@,
    SpecObject::Builtin(crate::objects::BuiltinKind::GreaterThan))
}

/// Register every builtin function into `env`.
#[verifier::rlimit(100)]
pub fn add_generic_builtins(env: &mut Env)
    ensures
        final(env)@ == with_generic_builtins(old(env)@),
        forall|n: int| old(env).wf(n) ==> #[trigger] final(env).wf(n),
{
    env.set(string_lit("+"), Object::Builtin(crate::objects::BuiltinKind::Add));
    env.set(string_lit("std/+"), Object::Builtin(crate::objects::BuiltinKind::Add));
    env.set(string_lit("-"), Object::Builtin(crate::objects::BuiltinKind::Subtract));
    env.set(string_lit("std/-"), Object::Builtin(crate::objects::BuiltinKind::Subtract));
    env.set(string_lit("*"), Object::Builtin(crate::objects::BuiltinKind::Multiply));
    env.set(string_lit("std/*"), Object::Builtin(crate::objects::BuiltinKind::Multiply));
    env.set(string_lit("/"), Object::Builtin(crate::objects::BuiltinKind::Divide));
    env.set(string_lit("std//"), Object::Builtin(crate::objects::BuiltinKind::Divide));
    env.set(string_lit("%"), Object::Builtin(crate::objects::BuiltinKind::Modulo));
    env.set(string_lit("std/%"), Object::Builtin(crate::objects::BuiltinKind::Modulo));
    env.set(string_lit("parse_int"), Object::Builtin(crate::objects::BuiltinKind::ParseInt));
    env.set(string_lit("std/parse_int"), Object::Builtin(crate::objects::BuiltinKind::ParseInt));
    env.set(string_lit("abs"), Object::Builtin(crate::objects::BuiltinKind::Abs));
    env.set(string_lit("std/abs"), Object::Builtin(crate::objects::BuiltinKind::Abs));
    env.set(string_lit("nth"), Object::Builtin(crate::objects::BuiltinKind::Nth));
    env.set(string_lit("head"), Object::Builtin(crate::objects::BuiltinKind::Head));
    env.set(string_lit("tail"), Object::Builtin(crate::objects::BuiltinKind::Tail));
    env.set(string_lit("slice"), Object::Builtin(crate::objects::BuiltinKind::Slice));
    env.set(string_lit("sort"), Object::Builtin(crate::objects::BuiltinKind::Sort));
    env.set(string_lit("map"), Object::Builtin(crate::objects::BuiltinKind::MapList));
    env.set(string_lit("flat"), Object::Builtin(crate::objects::BuiltinKind::Flat));
    env.set(string_lit("concat"), Object::Builtin(crate::objects::BuiltinKind::Concat));
    env.set(string_lit("reduce"), Object::Builtin(crate::objects::BuiltinKind::Reduce));
    env.set(string_lit("str"), Object::Builtin(crate::objects::BuiltinKind::Str));
    env.set(string_lit("std/str"), Object::Builtin(crate::objects::BuiltinKind::Str));
    env.set(string_lit("lines"), Object::Builtin(crate::objects::BuiltinKind::Lines));
    env.set(string_lit("std/lines"), Object::Builtin(crate::objects::BuiltinKind::Lines));
    env.set(string_lit("split"), Object::Builtin(crate::objects::BuiltinKind::Split));
    env.set(string_lit("std/split"), Object::Builtin(crate::objects::BuiltinKind::Split));
    env.set(string_lit("type"), Object::Builtin(crate::objects::BuiltinKind::TypeOf));
    env.set(string_lit("std/type"), Object::Builtin(crate::objects::BuiltinKind::TypeOf));
    env.set(string_lit("len"), Object::Builtin(crate::objects::BuiltinKind::Len));
    env.set(string_lit("std/len"), Object::Builtin(crate::objects::BuiltinKind::Len));
    env.set(string_lit("=="), Object::Builtin(crate::objects::BuiltinKind::Equals));
    env.set(string_lit("std/=="), Object::Builtin(crate::objects::BuiltinKind::Equals));
    env.set(string_lit("!="), Object::Builtin(crate::objects::BuiltinKind::NotEquals));
    env.set(string_lit("std/!="), Object::Builtin(crate::objects::BuiltinKind::NotEquals));
    env.set(string_lit("<"), Object::Builtin(crate::objects::BuiltinKind::LessThan));
    env.set(string_lit("std/<"), Object::Builtin(crate::objects::BuiltinKind::LessThan));
    env.set(string_lit(">"), Object::Builtin(crate::objects::BuiltinKind::GreaterThan));
    env.set(string_lit("std/>"), Object::Builtin(crate::objects::BuiltinKind::GreaterThan));
}


/// The evaluator's mathematical state: the scope arena, the stack of
/// live arena indices, and the stamp for the next closure.
pub ghost struct SpecState {
    pub arena: Seq<Map<Seq<char>, SpecObject>>,
    pub stack: Seq<int>,
    pub next_id: u64,
}

/// The image of a host-channel failure.
pub ghost enum SpecFailure {
    StackDepthExceeded,
    NumberParse(Seq<char>),
    NotAWord,
    CannotCall(Seq<char>),
    ErrorValue(ErrorContext, SpecObject),
}

/// One step of the model: the outcome and the state after it.
pub ghost struct EvalStep {
    pub r: Result<SpecObject, SpecFailure>,
    pub st: SpecState,
}

/// One builtin application in the model: builtins always produce a
/// value, turning host failures inside them into error values.
pub ghost struct BuiltinStep {
    pub o: SpecObject,
    pub st: SpecState,
}

/// The image of a host-channel failure value.
pub open spec fn eval_error_view(e: EvalError) -> SpecFailure {
    match e {
        EvalError::StackDepthExceeded => SpecFailure::StackDepthExceeded,
        EvalError::NumberParse { lexeme } => SpecFailure::NumberParse(lexeme@),
        EvalError::NotAWord => SpecFailure::NotAWord,
        EvalError::CannotCall { callee_type } => SpecFailure::CannotCall(callee_type@),
        EvalError::ErrorValue { context, value } => SpecFailure::ErrorValue(context, value@),
    }
}

/// The image of an evaluation result.
pub open spec fn res_view(r: Result<Object, EvalError>) -> Result<SpecObject, SpecFailure> {
    match r {
        Ok(o) => Ok(spec_obj_of(o)),
        Err(e) => Err(eval_error_view(e)),
    }
}

/// The short description of a failure, used where a builtin absorbs one.
pub open spec fn spec_failure_brief(f: SpecFailure) -> Seq<char> {
    match f {
        SpecFailure::StackDepthExceeded => "stack depth exceeded"@,
        SpecFailure::NumberParse(_) => "error parsing number literal"@,
        SpecFailure::NotAWord => "argument is not a word"@,
        SpecFailure::CannotCall(_) => "cannot call value"@,
        SpecFailure::ErrorValue(_, _) => "error value in evaluation"@,
    }
}

/// The scope chain a state exposes to name lookup.
pub open spec fn chain_of(st: SpecState) -> CallStackView {
    CallStackView { arena: st.arena, stack: st.stack }
}

/// A callee's evaluation leaves the stack as it was and only grows the
/// arena: the condition under which the model composes two steps.
pub open spec fn st_ok(st0: SpecState, st1: SpecState) -> bool {
    st1.stack == st0.stack && st1.arena.len() >= st0.arena.len()
}

/// The state after binding a name in the innermost frame.
pub open spec fn st_set(st: SpecState, name: Seq<char>, v: SpecObject) -> SpecState {
    SpecState {
        arena: st.arena.update(st.stack.last(), st.arena[st.stack.last()].insert(name, v)),
        stack: st.stack,
        next_id: st.next_id,
    }
}

/// The captured scope extended with the first `k` parameter bindings.
pub open spec fn spec_bind(
    m: Map<Seq<char>, SpecObject>,
    params: Seq<Seq<char>>,
    args: Seq<SpecObject>,
    k: int,
) -> Map<Seq<char>, SpecObject>
    decreases k,
{
    if k <= 0 {
        m
    } else {
        spec_bind(m, params, args, k - 1).insert(params[k - 1], args[k - 1])
    }
}

/// The statement-position context of a node.
pub open spec fn spec_stmt_context(n: SpecNode) -> ErrorContext {
    ErrorContext::Statement {
        line: crate::node::spec_last_char(n).line as usize,
        col: crate::node::spec_last_char(n).col as usize,
    }
}

/// The model of `Program::eval`: a word-headed form is a call, a
/// singleton unwraps, anything else runs its children as statements.
pub open spec fn spec_eval(st: SpecState, n: SpecNode) -> EvalStep
    decreases STACK_SIZE - st.stack.len(), sn_height(n), 0int, 5int, 0int,
{
    match n {
        SpecNode::Expression(es) => {
            if es.len() > 0 && es[0] is Word {
                spec_call(st, es)
            } else if es.len() == 1 {
                spec_eval_expr(st, es[0])
            } else {
                spec_eval_seq(st, es, 0, SpecObject::Null)
            }
        },
        _ => spec_eval_expr(st, n),
    }
}

/// The model of the statement loop: children run in order, an error
/// value among them escalates with its statement's end position.
pub open spec fn spec_eval_seq(st: SpecState, es: Seq<SpecNode>, i: int, last: SpecObject) -> EvalStep
    decreases STACK_SIZE - st.stack.len(), seq_height(es), 0int, 6int, es.len() - i
    via spec_eval_seq_decreases

{
    if i < 0 || i >= es.len() {
        EvalStep { r: Ok(last), st }
    } else {
        let s1 = spec_eval_expr(st, es[i]);
        match s1.r {
            Err(e) => EvalStep { r: Err(e), st: s1.st },
            Ok(v) => if v is Error {
                EvalStep { r: Err(SpecFailure::ErrorValue(spec_stmt_context(es[i]), v)), st: s1.st }
            } else if st_ok(st, s1.st) {
                spec_eval_seq(s1.st, es, i + 1, v)
            } else {
                arbitrary()
            },
        }
    }
}

/// The model of `Program::parse_expression`: one node against the
/// current scope chain.
pub open spec fn spec_eval_expr(st: SpecState, n: SpecNode) -> EvalStep
    decreases STACK_SIZE - st.stack.len(), sn_height(n), 0int, 4int, 0int,
{
    match n {
        SpecNode::Word(t) => EvalStep { r: Ok(spec_lookup(chain_of(st), t.value)), st },
        SpecNode::BooleanLiteral(t) => EvalStep {
            r: Ok(SpecObject::Bool(t.value == "true"@)),
            st,
        },
        SpecNode::StringLiteral(t) => EvalStep {
            r: Ok(
                SpecObject::String(
                    if t.value.len() >= 2 {
                        t.value.subrange(1, t.value.len() - 1)
                    } else {
                        Seq::empty()
                    },
                ),
            ),
            st,
        },
        SpecNode::NumberLiteral(t) => match crate::numfmt::spec_parse_int(t.value) {
            Some(v) => if isize::MIN <= v <= isize::MAX {
                EvalStep { r: Ok(SpecObject::Integer(v)), st }
            } else {
                EvalStep { r: Err(SpecFailure::NumberParse(t.value)), st }
            },
            None => EvalStep { r: Err(SpecFailure::NumberParse(t.value)), st },
        },
        SpecNode::Invalid(_) => EvalStep {
            r: Ok(SpecObject::Error("Evaluating Invalid Node"@)),
            st,
        },
        SpecNode::Expression(v) => spec_call(st, v),
        SpecNode::List(v) => spec_list_items(st, v, 0, Seq::empty()),
        SpecNode::FunctionLiteral { arguments, body, .. } => {
            if forall|i: int| 0 <= i < arguments.len() ==> (#[trigger] arguments[i]) is Word {
                EvalStep {
                    r: Ok(
                        SpecObject::Function {
                            id: st.next_id as nat,
                            env: st.stack.last(),
                            parameters: word_names(arguments),
                            body: *body,
                        },
                    ),
                    st: SpecState {
                        arena: st.arena,
                        stack: st.stack,
                        next_id: vstd::wrapping::u64_specs::wrapping_add(st.next_id, 1),
                    },
                }
            } else {
                EvalStep { r: Err(SpecFailure::NotAWord), st }
            }
        },
    }
}

/// The model of the list-literal loop: elements in order, an error value
/// among them escalating.
pub open spec fn spec_list_items(
    st: SpecState,
    v: Seq<SpecNode>,
    i: int,
    acc: Seq<SpecObject>,
) -> EvalStep
    decreases STACK_SIZE - st.stack.len(), seq_height(v), 0int, 2int, v.len() - i
    via spec_list_items_decreases

{
    if i < 0 || i >= v.len() {
        EvalStep { r: Ok(SpecObject::List(acc)), st }
    } else {
        let s1 = spec_eval_expr(st, v[i]);
        match s1.r {
            Err(e) => EvalStep { r: Err(e), st: s1.st },
            Ok(val) => if val is Error {
                EvalStep {
                    r: Err(SpecFailure::ErrorValue(ErrorContext::ListElement, val)),
                    st: s1.st,
                }
            } else if st_ok(st, s1.st) {
                spec_list_items(s1.st, v, i + 1, acc.push(val))
            } else {
                arbitrary()
            },
        }
    }
}

/// The model of the argument loop of an ordinary call.
pub open spec fn spec_call_args(
    st: SpecState,
    ns: Seq<SpecNode>,
    i: int,
    acc: Seq<SpecObject>,
) -> (Result<Seq<SpecObject>, SpecFailure>, SpecState)
    decreases STACK_SIZE - st.stack.len(), seq_height(ns), 0int, 3int, ns.len() - i
    via spec_call_args_decreases

{
    if i < 1 || i >= ns.len() {
        (Ok(acc), st)
    } else {
        let s1 = spec_eval_expr(st, ns[i]);
        match s1.r {
            Err(e) => (Err(e), s1.st),
            Ok(v) => if v is Error {
                (Err(SpecFailure::ErrorValue(ErrorContext::FunctionArgument, v)), s1.st)
            } else if st_ok(st, s1.st) {
                spec_call_args(s1.st, ns, i + 1, acc.push(v))
            } else {
                arbitrary()
            },
        }
    }
}

/// The model of a `define` form.
pub open spec fn spec_define(st: SpecState, ns: Seq<SpecNode>) -> EvalStep
    decreases STACK_SIZE - st.stack.len(), seq_height(ns), 0int, 6int, 0int,
    via spec_define_decreases
{
    if ns.len() != 3 {
        EvalStep { r: Ok(SpecObject::Error(msg_define_arity(ns.len() as int))), st }
    } else if !(ns[1] is Word) {
        EvalStep {
            r: Ok(SpecObject::Error(msg_define_target(crate::node::spec_type_of(ns[1])))),
            st,
        }
    } else {
        let s1 = spec_eval_expr(st, ns[2]);
        match s1.r {
            Err(e) => EvalStep { r: Err(e), st: s1.st },
            Ok(v) => if v is Error {
                EvalStep {
                    r: Err(SpecFailure::ErrorValue(ErrorContext::DefineValue, v)),
                    st: s1.st,
                }
            } else if st_ok(st, s1.st) {
                EvalStep { r: Ok(SpecObject::Null), st: st_set(s1.st, ns[1]->Word_0.value, v) }
            } else {
                arbitrary()
            },
        }
    }
}

/// The model of an `if` form: the condition once, then exactly the
/// selected branch.
pub open spec fn spec_if(st: SpecState, ns: Seq<SpecNode>) -> EvalStep
    decreases STACK_SIZE - st.stack.len(), seq_height(ns), 0int, 6int, 0int,
    via spec_if_decreases
{
    if ns.len() != 4 && ns.len() != 3 {
        EvalStep { r: Ok(SpecObject::Error(msg_if_arity(ns.len() as int))), st }
    } else {
        let s1 = spec_eval_expr(st, ns[1]);
        match s1.r {
            Err(e) => EvalStep { r: Err(e), st: s1.st },
            Ok(c) => if c is Error {
                EvalStep {
                    r: Err(SpecFailure::ErrorValue(ErrorContext::IfCondition, c)),
                    st: s1.st,
                }
            } else if st_ok(st, s1.st) {
                let b = if spec_truthy(c) {
                    spec_eval_expr(s1.st, ns[2])
                } else if ns.len() == 4 {
                    spec_eval_expr(s1.st, ns[3])
                } else {
                    EvalStep { r: Ok(SpecObject::Null), st: s1.st }
                };
                match b.r {
                    Err(e) => EvalStep { r: Err(e), st: b.st },
                    Ok(v) => if v is Error {
                        EvalStep {
                            r: Err(SpecFailure::ErrorValue(ErrorContext::IfResult, v)),
                            st: b.st,
                        }
                    } else {
                        EvalStep { r: Ok(v), st: b.st }
                    },
                }
            } else {
                arbitrary()
            },
        }
    }
}

/// The model of a `do` form: its argument under statement semantics.
pub open spec fn spec_do(st: SpecState, ns: Seq<SpecNode>) -> EvalStep
    decreases STACK_SIZE - st.stack.len(), seq_height(ns), 0int, 6int, 0int,
    via spec_do_decreases
{
    if ns.len() != 2 {
        EvalStep { r: Ok(SpecObject::Error(msg_do_arity(ns.len() as int))), st }
    } else {
        spec_eval(st, ns[1])
    }
}

/// The model of `Program::call_expression`.
pub open spec fn spec_call(st: SpecState, ns: Seq<SpecNode>) -> EvalStep
    decreases STACK_SIZE - st.stack.len(), seq_height(ns), 0int, 7int, 0int,
{
    if ns.len() == 0 {
        EvalStep { r: Ok(SpecObject::Null), st }
    } else if ns[0] matches SpecNode::Word(t) && (t.value == "define"@ || t.value == "def"@) {
        spec_define(st, ns)
    } else if ns[0] matches SpecNode::Word(t) && t.value == "if"@ {
        spec_if(st, ns)
    } else if ns[0] matches SpecNode::Word(t) && t.value == "do"@ {
        spec_do(st, ns)
    } else if ns.len() == 1 && !(ns[0] is Word) {
        spec_eval_expr(st, ns[0])
    } else {
        let s1 = spec_eval_expr(st, ns[0]);
        match s1.r {
            Err(e) => EvalStep { r: Err(e), st: s1.st },
            Ok(first) => if first is Error {
                EvalStep {
                    r: Err(SpecFailure::ErrorValue(ErrorContext::Callee, first)),
                    st: s1.st,
                }
            } else if st_ok(st, s1.st) {
                let (ar, st2) = spec_call_args(s1.st, ns, 1, Seq::empty());
                match ar {
                    Err(e) => EvalStep { r: Err(e), st: st2 },
                    Ok(argv) => if st_ok(st, st2) {
                        match first {
                            SpecObject::Builtin(k) => {
                                let b = spec_apply_builtin(st2, k, argv);
                                EvalStep { r: Ok(b.o), st: b.st }
                            },
                            SpecObject::Function { env, parameters, body, .. } => {
                                if argv.len() != parameters.len() {
                                    EvalStep {
                                        r: Ok(
                                            SpecObject::Error(
                                                msg_fn_arity(
                                                    argv.len() as int,
                                                    parameters.len() as int,
                                                ),
                                            ),
                                        ),
                                        st: st2,
                                    }
                                } else {
                                    spec_run_function(st2, env, body, parameters, argv)
                                }
                            },
                            SpecObject::Null => EvalStep { r: Ok(SpecObject::Null), st: st2 },
                            other => EvalStep {
                                r: Err(
                                    SpecFailure::CannotCall(
                                        crate::objects::spec_obj_type_of(other),
                                    ),
                                ),
                                st: st2,
                            },
                        }
                    } else {
                        arbitrary()
                    },
                }
            } else {
                arbitrary()
            },
        }
    }
}

/// The model of `Program::run_function`: a fresh copy of the captured
/// scope, extended with the parameter bindings, pushed for the body and
/// popped afterwards; one frame past the bound is the depth failure.
pub open spec fn spec_run_function(
    st: SpecState,
    env: int,
    body: SpecNode,
    params: Seq<Seq<char>>,
    args: Seq<SpecObject>,
) -> EvalStep
    decreases STACK_SIZE - st.stack.len(), 0int, 0int, 2int, 0int,
{
    if st.stack.len() >= STACK_SIZE {
        EvalStep { r: Err(SpecFailure::StackDepthExceeded), st }
    } else {
        let count = if params.len() < args.len() {
            params.len() as int
        } else {
            args.len() as int
        };
        let env2 = spec_bind(st.arena[env], params, args, count);
        let st2 = SpecState {
            arena: st.arena.push(env2),
            stack: st.stack.push(st.arena.len() as int),
            next_id: st.next_id,
        };
        let s1 = spec_eval(st2, body);
        EvalStep {
            r: s1.r,
            st: SpecState {
                arena: s1.st.arena,
                stack: s1.st.stack.drop_last(),
                next_id: s1.st.next_id,
            },
        }
    }
}

/// The model of `Program::apply_builtin`: the pure builtins leave the
/// state alone; `map` and `reduce` re-enter the evaluator.
pub open spec fn spec_apply_builtin(
    st: SpecState,
    kind: crate::objects::BuiltinKind,
    args: Seq<SpecObject>,
) -> BuiltinStep
    decreases STACK_SIZE - st.stack.len(), 0int, so_seq_height(args), 3int, 0int,
{
    match kind {
        crate::objects::BuiltinKind::TypeOf => BuiltinStep {
            o: crate::builtins::spec_type_builtin(args),
            st,
        },
        crate::objects::BuiltinKind::Len => BuiltinStep {
            o: crate::builtins::spec_len_builtin(args),
            st,
        },
        crate::objects::BuiltinKind::Equals => BuiltinStep {
            o: crate::builtins::spec_equals_builtin(args),
            st,
        },
        crate::objects::BuiltinKind::NotEquals => BuiltinStep {
            o: crate::builtins::spec_not_equals_builtin(args),
            st,
        },
        crate::objects::BuiltinKind::LessThan => BuiltinStep {
            o: crate::builtins::spec_less_than_builtin(args),
            st,
        },
        crate::objects::BuiltinKind::GreaterThan => BuiltinStep {
            o: crate::builtins::spec_greater_than_builtin(args),
            st,
        },
        crate::objects::BuiltinKind::Add => BuiltinStep {
            o: crate::builtins::spec_add(args),
            st,
        },
        crate::objects::BuiltinKind::Subtract => BuiltinStep {
            o: crate::builtins::spec_subtract(args),
            st,
        },
        crate::objects::BuiltinKind::Multiply => BuiltinStep {
            o: crate::builtins::spec_multiply(args),
            st,
        },
        crate::objects::BuiltinKind::Divide => BuiltinStep {
            o: crate::builtins::spec_divide(args),
            st,
        },
        crate::objects::BuiltinKind::Modulo => BuiltinStep {
            o: crate::builtins::spec_modulo(args),
            st,
        },
        crate::objects::BuiltinKind::ParseInt => BuiltinStep {
            o: crate::builtins::spec_parse_int_builtin(args),
            st,
        },
        crate::objects::BuiltinKind::Abs => BuiltinStep {
            o: crate::builtins::spec_abs(args),
            st,
        },
        crate::objects::BuiltinKind::Nth => BuiltinStep {
            o: crate::builtins::spec_nth(args),
            st,
        },
        crate::objects::BuiltinKind::Head => BuiltinStep {
            o: crate::builtins::spec_head(args),
            st,
        },
        crate::objects::BuiltinKind::Tail => BuiltinStep {
            o: crate::builtins::spec_tail(args),
            st,
        },
        crate::objects::BuiltinKind::Slice => BuiltinStep {
            o: crate::builtins::spec_slice(args),
            st,
        },
        crate::objects::BuiltinKind::Sort => BuiltinStep {
            o: crate::builtins::spec_sort_builtin(args),
            st,
        },
        crate::objects::BuiltinKind::Flat => BuiltinStep {
            o: crate::builtins::spec_flat(args),
            st,
        },
        crate::objects::BuiltinKind::Concat => BuiltinStep {
            o: crate::builtins::spec_concat(args),
            st,
        },
        crate::objects::BuiltinKind::Str => BuiltinStep {
            o: crate::builtins::spec_str_builtin(args),
            st,
        },
        crate::objects::BuiltinKind::Lines => BuiltinStep {
            o: crate::builtins::spec_lines_builtin(args),
            st,
        },
        crate::objects::BuiltinKind::Split => BuiltinStep {
            o: crate::builtins::spec_split_builtin(args),
            st,
        },
        crate::objects::BuiltinKind::MapList => {
            if args.len() != 2 {
                BuiltinStep {
                    o: SpecObject::Error(crate::builtins::msg_args_len("map"@, 2, args.len() as int)),
                    st,
                }
            } else if !(args[0] is List) {
                BuiltinStep {
                    o: SpecObject::Error(
                        crate::builtins::msg_type_error_with_pos("map"@, "list"@, 0),
                    ),
                    st,
                }
            } else if !(args[1] is Function) && !(args[1] is Builtin) {
                BuiltinStep {
                    o: SpecObject::Error(
                        crate::builtins::msg_type_error_with_pos("map"@, "function"@, 1),
                    ),
                    st,
                }
            } else {
                spec_map_items(st, args, 0, Seq::empty())
            }
        },
        crate::objects::BuiltinKind::Reduce => {
            if args.len() != 2 && args.len() != 3 {
                BuiltinStep {
                    o: SpecObject::Error(
                        crate::builtins::msg_args_len("reduce"@, 2, args.len() as int),
                    ),
                    st,
                }
            } else if !(args[0] is List) {
                BuiltinStep {
                    o: SpecObject::Error(
                        crate::builtins::msg_type_error_with_pos("reduce"@, "list"@, 0),
                    ),
                    st,
                }
            } else if !(args[1] is Function) {
                BuiltinStep {
                    o: SpecObject::Error(
                        crate::builtins::msg_type_error_with_pos("reduce"@, "function"@, 1),
                    ),
                    st,
                }
            } else {
                spec_reduce_items(
                    st,
                    args,
                    0,
                    if args.len() == 3 {
                        args[2]
                    } else {
                        SpecObject::Null
                    },
                )
            }
        },
    }
}

/// The model of the `map` loop.
pub open spec fn spec_map_items(
    st: SpecState,
    args: Seq<SpecObject>,
    i: int,
    acc: Seq<SpecObject>,
) -> BuiltinStep
    decreases STACK_SIZE - st.stack.len(), 0int, so_seq_height(args), 1int, args[0]->List_0.len() - i,
    via spec_map_items_decreases
{
    if !(args.len() == 2 && args[0] is List) {
        arbitrary()
    } else {
        let l = args[0]->List_0;
        if i < 0 || i >= l.len() {
            BuiltinStep { o: SpecObject::List(acc), st }
        } else if args[1] is Function {
            let s1 = spec_run_function(
                st,
                args[1]->Function_env,
                args[1]->Function_body,
                args[1]->Function_parameters,
                seq![l[i]],
            );
            match s1.r {
                Err(e) => BuiltinStep { o: SpecObject::Error(spec_failure_brief(e)), st: s1.st },
                Ok(v) => if st_ok(st, s1.st) {
                    spec_map_items(s1.st, args, i + 1, acc.push(v))
                } else {
                    arbitrary()
                },
            }
        } else if args[1] is Builtin {
            let b = spec_apply_builtin(st, args[1]->Builtin_0, seq![l[i]]);
            if b.o is Error {
                BuiltinStep { o: SpecObject::Error("map error: "@ + b.o->Error_0), st: b.st }
            } else if st_ok(st, b.st) {
                spec_map_items(b.st, args, i + 1, acc.push(b.o))
            } else {
                arbitrary()
            }
        } else {
            arbitrary()
        }
    }
}

#[via_fn]
proof fn spec_map_items_decreases(st: SpecState, args: Seq<SpecObject>, i: int, acc: Seq<SpecObject>) {
    if args.len() == 2 && args[0] is List {
        let l = args[0]->List_0;
        if 0 <= i < l.len() {
            lemma_so_seq_height(l, i);
            lemma_so_seq_height(args, 0);
            assert(so_seq_height(seq![l[i]].drop_first()) == 0) by {
                assert(seq![l[i]].drop_first() =~= Seq::<SpecObject>::empty());
            }
            assert(so_seq_height(seq![l[i]]) == so_height(l[i]) + 1);
        }
    }
}

/// The model of the `reduce` loop.
pub open spec fn spec_reduce_items(
    st: SpecState,
    args: Seq<SpecObject>,
    i: int,
    acc: SpecObject,
) -> BuiltinStep
    decreases STACK_SIZE - st.stack.len(), 0int, so_seq_height(args), 1int, args[0]->List_0.len() - i,
    via spec_reduce_items_decreases
{
    if !(args.len() >= 2 && args[0] is List && args[1] is Function) {
        arbitrary()
    } else {
        let l = args[0]->List_0;
        if i < 0 || i >= l.len() {
            BuiltinStep { o: acc, st }
        } else {
            let s1 = spec_run_function(
                st,
                args[1]->Function_env,
                args[1]->Function_body,
                args[1]->Function_parameters,
                seq![acc, l[i]],
            );
            match s1.r {
                Err(e) => BuiltinStep { o: SpecObject::Error(spec_failure_brief(e)), st: s1.st },
                Ok(v) => if v is Error {
                    BuiltinStep { o: v, st: s1.st }
                } else if st_ok(st, s1.st) {
                    spec_reduce_items(s1.st, args, i + 1, v)
                } else {
                    arbitrary()
                },
            }
        }
    }
}

#[via_fn]
proof fn spec_reduce_items_decreases(st: SpecState, args: Seq<SpecObject>, i: int, acc: SpecObject) {
    if args.len() >= 2 && args[0] is List && args[1] is Function {
        lemma_so_seq_height(args, 0);
    }
}


#[via_fn]
proof fn spec_eval_seq_decreases(st: SpecState, es: Seq<SpecNode>, i: int, last: SpecObject) {
    if 0 <= i < es.len() {
        lemma_seq_height(es, i);
    }
}

#[via_fn]
proof fn spec_list_items_decreases(st: SpecState, v: Seq<SpecNode>, i: int, acc: Seq<SpecObject>) {
    if 0 <= i < v.len() {
        lemma_seq_height(v, i);
    }
}

#[via_fn]
proof fn spec_call_args_decreases(st: SpecState, ns: Seq<SpecNode>, i: int, acc: Seq<SpecObject>) {
    if 0 <= i < ns.len() {
        lemma_seq_height(ns, i);
    }
}

#[via_fn]
proof fn spec_define_decreases(st: SpecState, ns: Seq<SpecNode>) {
    if ns.len() == 3 {
        lemma_seq_height(ns, 2);
    }
}

#[via_fn]
proof fn spec_if_decreases(st: SpecState, ns: Seq<SpecNode>) {
    if ns.len() == 3 || ns.len() == 4 {
        lemma_seq_height(ns, 1);
        lemma_seq_height(ns, 2);
        if ns.len() == 4 {
            lemma_seq_height(ns, 3);
        }
    }
}

#[via_fn]
proof fn spec_do_decreases(st: SpecState, ns: Seq<SpecNode>) {
    if ns.len() == 2 {
        lemma_seq_height(ns, 1);
    }
}

} // verus!







