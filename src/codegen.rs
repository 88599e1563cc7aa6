use vstd::prelude::*;
use crate::ast::BinOp;

verus! {

/// A signed integer comparison, as the code generator emits it.
#[derive(Debug, Clone, Copy, PartialEq, Eq, Structural)]
pub enum IntCond {
    Equal,
    NotEqual,
    SignedLessThan,
    SignedLessThanOrEqual,
    SignedGreaterThan,
    SignedGreaterThanOrEqual,
}

/// A two's-complement arithmetic instruction on 64-bit integers.
#[derive(Debug, Clone, Copy, PartialEq, Eq, Structural)]
pub enum ArithOp {
    Iadd,
    Isub,
    Imul,
    Sdiv,
    Srem,
}

/// How a binary operator is lowered: one arithmetic instruction; a comparison widened to
/// 64 bits; or both operands compared with zero, combined, and widened.
#[derive(Debug, Clone, Copy, PartialEq, Eq, Structural)]
pub enum Lowering {
    Arith(ArithOp),
    Compare(IntCond),
    LogicAnd,
    LogicOr,
}

pub open spec fn lowering_of(op: BinOp) -> Lowering {
    match op {
        BinOp::Add => Lowering::Arith(ArithOp::Iadd),
        BinOp::Sub => Lowering::Arith(ArithOp::Isub),
        BinOp::Mul => Lowering::Arith(ArithOp::Imul),
        BinOp::Div => Lowering::Arith(ArithOp::Sdiv),
        BinOp::Mod => Lowering::Arith(ArithOp::Srem),
        BinOp::Lt => Lowering::Compare(IntCond::SignedLessThan),
        BinOp::Le => Lowering::Compare(IntCond::SignedLessThanOrEqual),
        BinOp::Gt => Lowering::Compare(IntCond::SignedGreaterThan),
        BinOp::Ge => Lowering::Compare(IntCond::SignedGreaterThanOrEqual),
        BinOp::Eq => Lowering::Compare(IntCond::Equal),
        BinOp::Ne => Lowering::Compare(IntCond::NotEqual),
        BinOp::And => Lowering::LogicAnd,
        BinOp::Or => Lowering::LogicOr,
    }
}

pub open spec fn holds(c: IntCond, a: i64, b: i64) -> bool {
    match c {
        IntCond::Equal => a == b,
        IntCond::NotEqual => a != b,
        IntCond::SignedLessThan => a < b,
        IntCond::SignedLessThanOrEqual => a <= b,
        IntCond::SignedGreaterThan => a > b,
        IntCond::SignedGreaterThanOrEqual => a >= b,
    }
}

/// The value that a lowered comparison or logical operator leaves, as a 64-bit integer.
pub open spec fn boolean_value(l: Lowering, a: i64, b: i64) -> int {
    match l {
        Lowering::Compare(c) => if holds(c, a, b) { 1 } else { 0 },
        Lowering::LogicAnd => if a != 0 && b != 0 { 1 } else { 0 },
        Lowering::LogicOr => if a != 0 || b != 0 { 1 } else { 0 },
        Lowering::Arith(_) => 0,
    }
}

/// The instruction sequence chosen for a binary operator.
pub fn lower_binop(op: BinOp) -> (r: Lowering)
    ensures
        r == lowering_of(op),
{
    match op {
        BinOp::Add => Lowering::Arith(ArithOp::Iadd),
        BinOp::Sub => Lowering::Arith(ArithOp::Isub),
        BinOp::Mul => Lowering::Arith(ArithOp::Imul),
        BinOp::Div => Lowering::Arith(ArithOp::Sdiv),
        BinOp::Mod => Lowering::Arith(ArithOp::Srem),
        BinOp::Lt => Lowering::Compare(IntCond::SignedLessThan),
        BinOp::Le => Lowering::Compare(IntCond::SignedLessThanOrEqual),
        BinOp::Gt => Lowering::Compare(IntCond::SignedGreaterThan),
        BinOp::Ge => Lowering::Compare(IntCond::SignedGreaterThanOrEqual),
        BinOp::Eq => Lowering::Compare(IntCond::Equal),
        BinOp::Ne => Lowering::Compare(IntCond::NotEqual),
        BinOp::And => Lowering::LogicAnd,
        BinOp::Or => Lowering::LogicOr,
    }
}

/// The per-function map from source variable names to backend variable numbers, with the
/// counter that hands out fresh numbers.
pub struct VarTable {
    names: Vec<String>,
    ids: Vec<usize>,
    next: usize,
}

/// The number bound to `name` by the last of `names[..n]` that holds it.
pub open spec fn binding_of(names: Seq<Seq<char>>, ids: Seq<usize>, name: Seq<char>, n: int) -> Option<
    usize,
>
    decreases n,
{
    if n <= 0 {
        None
    } else if names[n - 1] == name {
        Some(ids[n - 1])
    } else {
        binding_of(names, ids, name, n - 1)
    }
}

impl VarTable {
    pub closed spec fn wf(&self) -> bool {
        &&& self.names.len() == self.ids.len()
        &&& forall|k: int| 0 <= k < self.ids.len() ==> #[trigger] self.ids@[k] < self.next
    }

    /// The number that the next declaration gets.
    pub closed spec fn next_id(&self) -> nat {
        self.next as nat
    }

    /// The names of the declarations in force, oldest first.
    pub closed spec fn names_view(&self) -> Seq<Seq<char>> {
        self.names@.map_values(|n: String| n@)
    }

    /// The numbers those declarations were given, in the same order.
    pub closed spec fn ids_view(&self) -> Seq<usize> {
        self.ids@
    }

    /// How many declarations are in force.
    pub open spec fn depth(&self) -> nat {
        self.names_view().len()
    }

    /// The number bound to `name` by the first `m` declarations in force.
    pub open spec fn binding_at(&self, name: Seq<char>, m: int) -> Option<usize> {
        binding_of(self.names_view(), self.ids_view(), name, m)
    }

    /// The number bound to `name`, if any.
    pub open spec fn binding(&self, name: Seq<char>) -> Option<usize> {
        self.binding_at(name, self.depth() as int)
    }

    /// The number that the next declaration will get.
    pub fn count(&self) -> (r: usize)
        ensures
            r == self.next_id(),
    {
        self.next
    }

    /// A mark of the declarations now in force, to return to when a block ends.
    pub fn scope_mark(&self) -> (r: usize)
        ensures
            r == self.depth(),
    {
        self.names.len()
    }

    /// Forgets the declarations made since `mark`: each name is bound again as it was then.
    /// Numbers handed out stay used.
    pub fn leave_scope(&mut self, mark: usize)
        requires
            old(self).wf(),
            mark <= old(self).depth(),
        ensures
            final(self).wf(),
            final(self).depth() == mark,
            final(self).next_id() == old(self).next_id(),
            final(self).names_view() == old(self).names_view().take(mark as int),
            final(self).ids_view() == old(self).ids_view().take(mark as int),
            forall|n: Seq<char>| #[trigger] final(self).binding(n) == old(self).binding_at(n, mark as int),
            forall|n: Seq<char>, m: int|
                0 <= m <= mark ==> #[trigger] final(self).binding_at(n, m) == old(self).binding_at(n, m),
    {
        let ghost old_names = self.names@.map_values(|n: String| n@);
        let ghost old_ids = self.ids@;
        self.names.truncate(mark);
        self.ids.truncate(mark);
        assert(self.names_view() =~= old_names.take(mark as int));
        assert(self.ids_view() =~= old_ids.take(mark as int));
        proof {
            let names = self.names@.map_values(|n: String| n@);
            assert forall|n: Seq<char>| #[trigger] self.binding(n) == old(self).binding_at(n, mark as int) by {
                lemma_binding_prefix(names, self.ids@, old_names, old_ids, n, mark as int);
            }
            assert forall|n: Seq<char>, m: int| 0 <= m <= mark implies #[trigger] self.binding_at(n, m)
                == old(self).binding_at(n, m) by {
                lemma_binding_prefix(names, self.ids@, old_names, old_ids, n, m);
            }
        }
    }

    pub fn new() -> (r: Self)
        ensures
            r.wf(),
            r.next_id() == 0,
            r.depth() == 0,
            r.names_view() == Seq::<Seq<char>>::empty(),
            r.ids_view() == Seq::<usize>::empty(),
            forall|n: Seq<char>| r.binding(n) is None,
    {
        let r = VarTable { names: Vec::new(), ids: Vec::new(), next: 0 };
        assert(r.names_view() =~= Seq::<Seq<char>>::empty());
        r
    }

    /// Binds `name` to a fresh number, above every number handed out before, and returns it;
    /// an earlier binding of the same name is shadowed.
    pub fn declare(&mut self, name: String) -> (r: usize)
        requires
            old(self).wf(),
            old(self).next_id() < usize::MAX,
        ensures
            final(self).wf(),
            r == old(self).next_id(),
            final(self).next_id() == old(self).next_id() + 1,
            final(self).depth() == old(self).depth() + 1,
            final(self).names_view() == old(self).names_view().push(name@),
            final(self).ids_view() == old(self).ids_view().push(r),
            final(self).binding(name@) == Some(r),
            forall|n: Seq<char>| n != name@ ==> final(self).binding(n) == old(self).binding(n),
            forall|n: Seq<char>, m: int|
                0 <= m <= old(self).depth() ==> #[trigger] final(self).binding_at(n, m) == old(self).binding_at(n, m),
    {
        let ghost old_names = self.names@.map_values(|n: String| n@);
        let ghost nm = name@;
        let id = self.next;
        self.names.push(name);
        self.ids.push(id);
        self.next = self.next + 1;
        assert(self.names_view() =~= old_names.push(nm));
        proof {
            let names = self.names@.map_values(|n: String| n@);
            assert(names.len() == old_names.len() + 1);
            assert(names[names.len() - 1] == nm);
            assert forall|n: Seq<char>| n != nm implies self.binding(n) == old(self).binding(n) by {
                assert forall|k: int| 0 <= k < old_names.len() implies names[k] == old_names[k] by {}
                lemma_binding_prefix(names, self.ids@, old_names, old(self).ids@, n, old_names.len() as int);
            }
            assert forall|n: Seq<char>, m: int| 0 <= m <= old(self).depth() implies #[trigger] self.binding_at(n, m)
                == old(self).binding_at(n, m) by {
                assert forall|k: int| 0 <= k < old_names.len() implies names[k] == old_names[k] by {}
                lemma_binding_prefix(names, self.ids@, old_names, old(self).ids@, n, m);
            }
        }
        id
    }

    /// The number bound to `name`, if it has been declared.
    pub fn lookup(&self, name: &String) -> (r: Option<usize>)
        requires
            self.wf(),
        ensures
            r == self.binding(name@),
            r is Some ==> r->0 < self.next_id(),
            self.names_view().len() == self.ids_view().len(),
    {
        let ghost names = self.names@.map_values(|n: String| n@);
        let mut i: usize = self.names.len();
        while i > 0
            invariant
                i <= self.names.len(),
                self.wf(),
                names == self.names@.map_values(|n: String| n@),
                binding_of(names, self.ids@, name@, self.names.len() as int) == binding_of(
                    names,
                    self.ids@,
                    name@,
                    i as int,
                ),
            decreases i,
        {
            if self.names[i - 1] == *name {
                return Some(self.ids[i - 1]);
            }
            i = i - 1;
        }
        None
    }
}

/// Two tables that agree on their first `n` entries bind every name alike there.
proof fn lemma_binding_prefix(
    a: Seq<Seq<char>>,
    ai: Seq<usize>,
    b: Seq<Seq<char>>,
    bi: Seq<usize>,
    name: Seq<char>,
    n: int,
)
    requires
        0 <= n <= a.len(),
        n <= b.len(),
        n <= ai.len(),
        n <= bi.len(),
        forall|k: int| 0 <= k < n ==> a[k] == b[k] && ai[k] == bi[k],
    ensures
        binding_of(a, ai, name, n) == binding_of(b, bi, name, n),
    decreases n,
{
    if n > 0 {
        lemma_binding_prefix(a, ai, b, bi, name, n - 1);
    }
}

} // verus!
