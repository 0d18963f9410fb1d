//! Virtual machine: executes a chunk's instructions against an operand
//! stack, a persistent global binding table, and the native procedure
//! registry. The model is [`run_ops`] / [`run_chunk`]; the executable
//! [`Vm`] is proved to follow it, including exactly when each error
//! occurs — in particular, calling a name that is neither a native
//! procedure nor a global binding always fails.
use vstd::prelude::*;
use vstd::string::*;
use crate::compiler::{chunks_view, ops_view, Chunk, ChunkView, Op, OpView};
use crate::native::{execute_native, lookup_native, native_of, spec_native, NativeFn};
use crate::value::{opt_val_view, vals_view, Value, ValueView};

verus! {

/// Mathematical model of a VM failure.
pub enum VmErrorView {
    UnboundIdentifier(Seq<char>),
    UnknownCallee(Seq<char>),
    NotCallable(Seq<char>),
    ArityMismatch,
    TypeMismatch,
    StackUnderflow,
    ExpectedValue,
    ExpectedReference,
    UnknownChunk(int),
}

/// An execution failure; none aborts the process.
#[derive(Debug, PartialEq, Eq)]
pub enum VmError {
    /// `LoadVariable` resolved a name with no global binding.
    UnboundIdentifier(String),
    /// `Call` named something that is neither native nor globally bound.
    UnknownCallee(String),
    /// `Call` named a global bound to a plain value.
    NotCallable(String),
    /// A native procedure got the wrong number of arguments.
    ArityMismatch,
    /// A native procedure got operands of the wrong kind, or the sum
    /// overflowed.
    TypeMismatch,
    /// An instruction popped an empty stack, or a pushed chunk left no
    /// result.
    StackUnderflow,
    /// A pending reference stood where a value was needed.
    ExpectedValue,
    /// A value stood where a pending reference was needed.
    ExpectedReference,
    /// A `Push` named a chunk outside the table or not after the current
    /// one.
    UnknownChunk(usize),
}

impl View for VmError {
    type V = VmErrorView;

    open spec fn view(&self) -> VmErrorView {
        match self {
            VmError::UnboundIdentifier(n) => VmErrorView::UnboundIdentifier(n@),
            VmError::UnknownCallee(n) => VmErrorView::UnknownCallee(n@),
            VmError::NotCallable(n) => VmErrorView::NotCallable(n@),
            VmError::ArityMismatch => VmErrorView::ArityMismatch,
            VmError::TypeMismatch => VmErrorView::TypeMismatch,
            VmError::StackUnderflow => VmErrorView::StackUnderflow,
            VmError::ExpectedValue => VmErrorView::ExpectedValue,
            VmError::ExpectedReference => VmErrorView::ExpectedReference,
            VmError::UnknownChunk(t) => VmErrorView::UnknownChunk(*t as int),
        }
    }
}

/// Model of one operand-stack slot: a computed value, or a name staged by
/// `Lookup` that only the next `LoadVariable` or `Call` may consume.
pub enum SlotView {
    Val(ValueView),
    Pending(Seq<char>),
}

/// An operand-stack slot.
#[derive(Debug, PartialEq)]
pub enum Slot {
    Val(Value),
    Pending(String),
}

impl View for Slot {
    type V = SlotView;

    open spec fn view(&self) -> SlotView {
        match self {
            Slot::Val(v) => SlotView::Val(v@),
            Slot::Pending(n) => SlotView::Pending(n@),
        }
    }
}

/// The views of a stack.
pub open spec fn slots_view(s: Seq<Slot>) -> Seq<SlotView> {
    s.map_values(|x: Slot| x@)
}

/// An optional printed value as an output extension.
pub open spec fn opt_to_seq(o: Option<ValueView>) -> Seq<ValueView> {
    match o {
        None => Seq::empty(),
        Some(v) => seq![v],
    }
}

/// The global binding table that a binding list denotes: later bindings
/// win.
pub open spec fn assoc_map(gs: Seq<(String, Value)>) -> Map<Seq<char>, ValueView>
    decreases gs.len(),
{
    if gs.len() == 0 {
        Map::empty()
    } else {
        assoc_map(gs.drop_last()).insert(gs.last().0@, gs.last().1@)
    }
}

// ----- the model of execution -----

/// Runs the instructions `code[k..]` of the chunk at position `id` of
/// `table`, from the given stack, globals and output. `Push(t)` runs
/// chunk `t` (which must lie strictly after `id` and inside the table)
/// and pushes its single resulting value; `Lookup` stages a pending name;
/// `LoadVariable` resolves it against the globals; `Define` pops one
/// value and binds it (create-or-overwrite); `Call` pops the staged name
/// and its arguments (first-pushed deepest) and dispatches: a native is
/// invoked, a name bound to a plain value is not callable, and any other
/// name is an unknown callee.
pub open spec fn run_ops(
    table: Seq<ChunkView>,
    id: int,
    code: Seq<OpView>,
    k: int,
    stack: Seq<SlotView>,
    g: Map<Seq<char>, ValueView>,
    out: Seq<ValueView>,
) -> Result<(Seq<SlotView>, Map<Seq<char>, ValueView>, Seq<ValueView>), VmErrorView>
    decreases table.len() - id, 1int, code.len() - k,
{
    if !(0 <= k && k < code.len()) {
        Ok((stack, g, out))
    } else {
        match code[k] {
            OpView::LoadImmediate(v) => run_ops(
                table,
                id,
                code,
                k + 1,
                stack.push(SlotView::Val(v)),
                g,
                out,
            ),
            OpView::Lookup(n) => run_ops(
                table,
                id,
                code,
                k + 1,
                stack.push(SlotView::Pending(n)),
                g,
                out,
            ),
            OpView::LoadVariable => {
                if stack.len() == 0 {
                    Err(VmErrorView::StackUnderflow)
                } else {
                    match stack.last() {
                        SlotView::Pending(n) => {
                            if g.contains_key(n) {
                                run_ops(
                                    table,
                                    id,
                                    code,
                                    k + 1,
                                    stack.drop_last().push(SlotView::Val(g[n])),
                                    g,
                                    out,
                                )
                            } else {
                                Err(VmErrorView::UnboundIdentifier(n))
                            }
                        },
                        SlotView::Val(_) => Err(VmErrorView::ExpectedReference),
                    }
                }
            },
            OpView::Define(n) => {
                if stack.len() == 0 {
                    Err(VmErrorView::StackUnderflow)
                } else {
                    match stack.last() {
                        SlotView::Val(v) => run_ops(
                            table,
                            id,
                            code,
                            k + 1,
                            stack.drop_last(),
                            g.insert(n, v),
                            out,
                        ),
                        SlotView::Pending(_) => Err(VmErrorView::ExpectedValue),
                    }
                }
            },
            OpView::Push(t) => {
                if !(id < t && t < table.len()) {
                    Err(VmErrorView::UnknownChunk(t))
                } else {
                    match run_chunk(table, t, g, out) {
                        Err(e) => Err(e),
                        Ok(res) => match res.0 {
                            Some(SlotView::Val(v)) => run_ops(
                                table,
                                id,
                                code,
                                k + 1,
                                stack.push(SlotView::Val(v)),
                                res.1,
                                res.2,
                            ),
                            Some(SlotView::Pending(_)) => Err(VmErrorView::ExpectedValue),
                            None => Err(VmErrorView::StackUnderflow),
                        },
                    }
                }
            },
            OpView::Call(arity) => {
                if stack.len() == 0 {
                    Err(VmErrorView::StackUnderflow)
                } else {
                    match stack.last() {
                        SlotView::Val(_) => Err(VmErrorView::ExpectedReference),
                        SlotView::Pending(n) => {
                            let rest = stack.drop_last();
                            if !(0 <= arity && arity <= rest.len()) {
                                Err(VmErrorView::StackUnderflow)
                            } else {
                                let argslots = rest.subrange(
                                    rest.len() - arity,
                                    rest.len() as int,
                                );
                                if !(forall|x: int|
                                    0 <= x < argslots.len() ==> (#[trigger] argslots[x])
                                        is Val) {
                                    Err(VmErrorView::ExpectedValue)
                                } else {
                                    let argvals = argslots.map_values(
                                        |s: SlotView| s->Val_0,
                                    );
                                    match native_of(n) {
                                        Some(f) => match spec_native(f, argvals) {
                                            Err(e) => Err(e),
                                            Ok(vr) => run_ops(
                                                table,
                                                id,
                                                code,
                                                k + 1,
                                                rest.subrange(0, rest.len() - arity).push(
                                                    SlotView::Val(vr.0),
                                                ),
                                                g,
                                                out + opt_to_seq(vr.1),
                                            ),
                                        },
                                        None => {
                                            if g.contains_key(n) {
                                                Err(VmErrorView::NotCallable(n))
                                            } else {
                                                Err(VmErrorView::UnknownCallee(n))
                                            }
                                        },
                                    }
                                }
                            }
                        },
                    }
                }
            },
        }
    }
}

/// Runs the chunk at position `t` of `table` to completion on a fresh
/// stack; its result is the slot left on top, if any.
pub open spec fn run_chunk(
    table: Seq<ChunkView>,
    t: int,
    g: Map<Seq<char>, ValueView>,
    out: Seq<ValueView>,
) -> Result<(Option<SlotView>, Map<Seq<char>, ValueView>, Seq<ValueView>), VmErrorView>
    decreases table.len() - t, 2int, 0int,
{
    if !(0 <= t && t < table.len()) {
        Err(VmErrorView::UnknownChunk(t))
    } else {
        match run_ops(table, t, table[t].code, 0, Seq::empty(), g, out) {
            Err(e) => Err(e),
            Ok(r) => Ok(
                (
                    if r.0.len() == 0 {
                        None
                    } else {
                        Some(r.0.last())
                    },
                    r.1,
                    r.2,
                ),
            ),
        }
    }
}

/// What executing one chunk does to the VM's persistent state: the
/// globals and the output after it, or the first error.
pub open spec fn exec_chunk(
    table: Seq<ChunkView>,
    c: ChunkView,
    g: Map<Seq<char>, ValueView>,
    out: Seq<ValueView>,
) -> Result<(Map<Seq<char>, ValueView>, Seq<ValueView>), VmErrorView> {
    match run_ops(table, c.id, c.code, 0, Seq::empty(), g, out) {
        Err(e) => Err(e),
        Ok(r) => Ok((r.1, r.2)),
    }
}

// ----- the executable machine -----

/// One virtual machine instance: its global binding table and the values
/// printed so far, both living for the instance's lifetime. The caller
/// decides what to do with the output buffer.
#[derive(Debug)]
pub struct Vm {
    globals: Vec<(String, Value)>,
    output: Vec<Value>,
}

impl Vm {
    /// The global binding table as a map; later `Define`s win.
    pub closed spec fn globals_map(&self) -> Map<Seq<char>, ValueView> {
        assoc_map(self.globals@)
    }

    /// The values printed so far, in order.
    pub closed spec fn output_v(&self) -> Seq<ValueView> {
        vals_view(self.output@)
    }

    pub fn new() -> (r: Self)
        ensures
            r.globals_map() == Map::<Seq<char>, ValueView>::empty(),
            r.output_v() == Seq::<ValueView>::empty(),
    {
        let r = Vm { globals: Vec::new(), output: Vec::new() };
        proof {
            assert(vals_view(r.output@) =~= Seq::<ValueView>::empty());
        }
        r
    }

    /// The values printed so far; the embedding caller renders them.
    pub fn take_output(&mut self) -> (r: Vec<Value>)
        ensures
            vals_view(r@) == old(self).output_v(),
            final(self).output_v() == Seq::<ValueView>::empty(),
            final(self).globals_map() == old(self).globals_map(),
    {
        let mut out: Vec<Value> = Vec::new();
        core::mem::swap(&mut out, &mut self.output);
        proof {
            assert(vals_view(self.output@) =~= Seq::<ValueView>::empty());
        }
        out
    }

    /// The value bound to a name, if any: the latest binding wins.
    pub fn get_global(&self, name: &String) -> (r: Option<Value>)
        ensures
            match r {
                Some(v) => self.globals_map().contains_key(name@) && v@ == self.globals_map().index(
                    name@,
                ),
                None => !self.globals_map().contains_key(name@),
            },
    {
        self.lookup_global(name)
    }

    /// Resolves a name against the globals: the latest binding wins.
    fn lookup_global(&self, name: &String) -> (r: Option<Value>)
        ensures
            match r {
                Some(v) => self.globals_map().contains_key(name@) && v@ == self.globals_map().index(
                    name@,
                ),
                None => !self.globals_map().contains_key(name@),
            },
    {
        let ghost gs = self.globals@;
        let mut i = self.globals.len();
        proof {
            assert(gs.subrange(0, gs.len() as int) =~= gs);
        }
        while i > 0
            invariant
                i <= self.globals.len(),
                gs == self.globals@,
                ({
                    let full = assoc_map(gs);
                    let pre = assoc_map(gs.subrange(0, i as int));
                    &&& full.contains_key(name@) == pre.contains_key(name@)
                    &&& pre.contains_key(name@) ==> full[name@] == pre[name@]
                }),
            decreases i,
        {
            proof {
                assert(gs.subrange(0, i as int).drop_last() =~= gs.subrange(0, i as int - 1));
                assert(gs.subrange(0, i as int).last() == gs[i as int - 1]);
            }
            let entry = &self.globals[i - 1];
            if entry.0 == *name {
                return Some(entry.1.clone());
            }
            i = i - 1;
        }
        proof {
            assert(gs.subrange(0, 0) =~= Seq::<(String, Value)>::empty());
        }
        None
    }

    /// Binds a value to a name, creating or overwriting.
    fn define_global(&mut self, name: String, value: Value)
        ensures
            final(self).globals_map() == old(self).globals_map().insert(name@, value@),
            final(self).output_v() == old(self).output_v(),
    {
        let ghost old_gs = self.globals@;
        let ghost nv = name@;
        let ghost vv = value@;
        self.globals.push((name, value));
        proof {
            assert(self.globals@.drop_last() =~= old_gs);
            assert(self.globals@.last().0@ == nv && self.globals@.last().1@ == vv);
        }
    }

    /// Executes one compiled chunk against this machine's persistent
    /// state, exactly as the model [`exec_chunk`] says: on success the
    /// globals and the output are the model's, and each failure is the
    /// model's error.
    pub fn execute(&mut self, chunk: &Chunk, table: &Vec<Chunk>) -> (r: Result<(), VmError>)
        ensures
            ({
                let m = exec_chunk(
                    chunks_view(table@),
                    chunk@,
                    old(self).globals_map(),
                    old(self).output_v(),
                );
                match r {
                    Ok(u) => m matches Ok(s) && final(self).globals_map() == s.0
                        && final(self).output_v() == s.1,
                    Err(e) => m == Err::<
                        (Map<Seq<char>, ValueView>, Seq<ValueView>),
                        VmErrorView,
                    >(e@),
                }
            }),
    {
        match self.run_instructions(table, chunk.id, &chunk.code) {
            Ok(_) => Ok(()),
            Err(e) => Err(e),
        }
    }

    /// Runs one chunk of the table on a fresh stack and hands back the
    /// resulting top slot, as the model [`run_chunk`] says.
    fn run_table_chunk(&mut self, table: &Vec<Chunk>, t: usize) -> (r: Result<
        Option<Slot>,
        VmError,
    >)
        requires
            (t as int) < table@.len(),
        ensures
            ({
                let m = run_chunk(
                    chunks_view(table@),
                    t as int,
                    old(self).globals_map(),
                    old(self).output_v(),
                );
                match r {
                    Ok(res) => m matches Ok(s) && s.0 == match res {
                        None => None::<SlotView>,
                        Some(slot) => Some(slot@),
                    } && final(self).globals_map() == s.1 && final(self).output_v() == s.2,
                    Err(e) => m == Err::<
                        (Option<SlotView>, Map<Seq<char>, ValueView>, Seq<ValueView>),
                        VmErrorView,
                    >(e@),
                }
            }),
        decreases table@.len() - t, 2int,
    {
        let chunk = &table[t];
        proof {
            assert(chunks_view(table@)[t as int] == table@[t as int]@);
        }
        match self.run_instructions(table, t, &chunk.code) {
            Err(e) => Err(e),
            Ok(mut stack) => {
                let top = stack.pop();
                Ok(top)
            },
        }
    }

    /// Runs an instruction sequence as the chunk at position `id`, on a
    /// fresh stack, following the model [`run_ops`] step by step; returns
    /// the final stack.
    #[verifier::loop_isolation(false)]
    fn run_instructions(&mut self, table: &Vec<Chunk>, id: usize, code: &Vec<Op>) -> (r: Result<
        Vec<Slot>,
        VmError,
    >)
        ensures
            ({
                let m = run_ops(
                    chunks_view(table@),
                    id as int,
                    ops_view(code@),
                    0,
                    Seq::empty(),
                    old(self).globals_map(),
                    old(self).output_v(),
                );
                match r {
                    Ok(st) => m == Ok::<
                        (Seq<SlotView>, Map<Seq<char>, ValueView>, Seq<ValueView>),
                        VmErrorView,
                    >((slots_view(st@), final(self).globals_map(), final(self).output_v())),
                    Err(e) => m == Err::<
                        (Seq<SlotView>, Map<Seq<char>, ValueView>, Seq<ValueView>),
                        VmErrorView,
                    >(e@),
                }
            }),
        decreases table@.len() - id, 1int,
    {
        let ghost tablev = chunks_view(table@);
        let ghost codev = ops_view(code@);
        let ghost m_full = run_ops(
            tablev,
            id as int,
            codev,
            0,
            Seq::empty(),
            old(self).globals_map(),
            old(self).output_v(),
        );
        let mut stack: Vec<Slot> = Vec::new();
        let mut k: usize = 0;
        proof {
            assert(slots_view(stack@) =~= Seq::<SlotView>::empty());
        }
        while k < code.len()
            invariant
                k <= code.len(),
                tablev == chunks_view(table@),
                codev == ops_view(code@),
                m_full == run_ops(
                    tablev,
                    id as int,
                    codev,
                    k as int,
                    slots_view(stack@),
                    self.globals_map(),
                    self.output_v(),
                ),
            decreases code.len() - k,
        {
            proof {
                assert(codev[k as int] == code@[k as int]@);
            }
            let ghost pre_stack = stack@;
            match &code[k] {
                Op::LoadImmediate(v) => {
                    stack.push(Slot::Val(v.clone()));
                    proof {
                        assert(slots_view(stack@) =~= slots_view(pre_stack).push(
                            SlotView::Val(v@),
                        ));
                    }
                },
                Op::Lookup(n) => {
                    stack.push(Slot::Pending(n.clone()));
                    proof {
                        assert(slots_view(stack@) =~= slots_view(pre_stack).push(
                            SlotView::Pending(n@),
                        ));
                    }
                },
                Op::LoadVariable => {
                    proof {
                        if pre_stack.len() > 0 {
                            assert(slots_view(pre_stack).last() == pre_stack.last()@);
                        }
                    }
                    match stack.pop() {
                        None => {
                            return Err(VmError::StackUnderflow);
                        },
                        Some(Slot::Pending(n)) => {
                            match self.lookup_global(&n) {
                                Some(v) => {
                                    stack.push(Slot::Val(v));
                                    proof {
                                        assert(slots_view(stack@) =~= slots_view(
                                            pre_stack,
                                        ).drop_last().push(
                                            SlotView::Val(self.globals_map()[n@]),
                                        ));
                                    }
                                },
                                None => {
                                    return Err(VmError::UnboundIdentifier(n));
                                },
                            }
                        },
                        Some(Slot::Val(_)) => {
                            return Err(VmError::ExpectedReference);
                        },
                    }
                },
                Op::Define(n) => {
                    proof {
                        if pre_stack.len() > 0 {
                            assert(slots_view(pre_stack).last() == pre_stack.last()@);
                        }
                    }
                    match stack.pop() {
                        None => {
                            return Err(VmError::StackUnderflow);
                        },
                        Some(Slot::Val(v)) => {
                            self.define_global(n.clone(), v);
                            proof {
                                assert(slots_view(stack@) =~= slots_view(pre_stack).drop_last());
                            }
                        },
                        Some(Slot::Pending(_)) => {
                            return Err(VmError::ExpectedValue);
                        },
                    }
                },
                Op::Push(target) => {
                    let t = *target;
                    if t <= id || t >= table.len() {
                        return Err(VmError::UnknownChunk(t));
                    }
                    match self.run_table_chunk(table, t) {
                        Err(e) => {
                            return Err(e);
                        },
                        Ok(Some(Slot::Val(v))) => {
                            stack.push(Slot::Val(v));
                            proof {
                                assert(slots_view(stack@) =~= slots_view(pre_stack).push(
                                    stack@.last()@,
                                ));
                            }
                        },
                        Ok(Some(Slot::Pending(_))) => {
                            return Err(VmError::ExpectedValue);
                        },
                        Ok(None) => {
                            return Err(VmError::StackUnderflow);
                        },
                    }
                },
                Op::Call(ar) => {
                    let arity = *ar;
                    proof {
                        if pre_stack.len() > 0 {
                            assert(slots_view(pre_stack).last() == pre_stack.last()@);
                        }
                    }
                    match stack.pop() {
                        None => {
                            return Err(VmError::StackUnderflow);
                        },
                        Some(Slot::Val(_)) => {
                            return Err(VmError::ExpectedReference);
                        },
                        Some(Slot::Pending(n)) => {
                            let ghost rest = slots_view(pre_stack).drop_last();
                            proof {
                                assert(slots_view(stack@) =~= rest);
                            }
                            if stack.len() < arity {
                                return Err(VmError::StackUnderflow);
                            }
                            let base = stack.len() - arity;
                            let ghost argslots = rest.subrange(
                                rest.len() - arity as int,
                                rest.len() as int,
                            );
                            let mut args: Vec<Value> = Vec::new();
                            let mut x: usize = 0;
                            proof {
                                assert(vals_view(args@) =~= Seq::<ValueView>::empty());
                            }
                            while x < arity
                                invariant
                                    x <= arity,
                                    arity <= stack@.len(),
                                    base == stack@.len() - arity,
                                    rest == slots_view(stack@),
                                    argslots == rest.subrange(
                                        rest.len() - arity as int,
                                        rest.len() as int,
                                    ),
                                    forall|y: int|
                                        0 <= y < x ==> (#[trigger] argslots[y]) is Val,
                                    vals_view(args@) == argslots.subrange(0, x as int).map_values(
                                        |s: SlotView| s->Val_0,
                                    ),
                                decreases arity - x,
                            {
                                proof {
                                    assert(argslots[x as int] == stack@[base + x]@);
                                }
                                let ghost pre_args = args@;
                                match &stack[base + x] {
                                    Slot::Val(v) => {
                                        args.push(v.clone());
                                        proof {
                                            assert(argslots.subrange(0, x as int + 1).map_values(
                                                |s: SlotView| s->Val_0,
                                            ) =~= vals_view(pre_args).push(v@));
                                            assert(vals_view(args@) =~= vals_view(pre_args).push(
                                                v@,
                                            ));
                                        }
                                    },
                                    Slot::Pending(_) => {
                                        return Err(VmError::ExpectedValue);
                                    },
                                }
                                x = x + 1;
                            }
                            proof {
                                assert(argslots.subrange(0, arity as int) =~= argslots);
                                assert(forall|y: int|
                                    0 <= y < argslots.len() ==> (#[trigger] argslots[y]) is Val);
                            }
                            stack.truncate(base);
                            proof {
                                assert(slots_view(stack@) =~= rest.subrange(
                                    0,
                                    rest.len() - arity as int,
                                ));
                            }
                            match lookup_native(&n) {
                                Some(f) => {
                                    match execute_native(f, &args) {
                                        Err(e) => {
                                            return Err(e);
                                        },
                                        Ok((v, emit)) => {
                                            stack.push(Slot::Val(v));
                                            let ghost pre_out = self.output@;
                                            match emit {
                                                Some(pv) => {
                                                    self.output.push(pv);
                                                    proof {
                                                        assert(vals_view(self.output@)
                                                            =~= vals_view(pre_out).push(
                                                            self.output@.last()@,
                                                        ));
                                                        assert(vals_view(self.output@)
                                                            =~= self.output_v());
                                                    }
                                                },
                                                None => {},
                                            }
                                            proof {
                                                assert(self.output_v() =~= vals_view(pre_out)
                                                    + opt_to_seq(
                                                    spec_native(
                                                        f,
                                                        argslots.map_values(
                                                            |s: SlotView| s->Val_0,
                                                        ),
                                                    )->Ok_0.1,
                                                ));
                                                assert(slots_view(stack@) =~= rest.subrange(
                                                    0,
                                                    rest.len() - arity as int,
                                                ).push(SlotView::Val(v@)));
                                            }
                                        },
                                    }
                                },
                                None => {
                                    match self.lookup_global(&n) {
                                        Some(_) => {
                                            return Err(VmError::NotCallable(n));
                                        },
                                        None => {
                                            return Err(VmError::UnknownCallee(n));
                                        },
                                    }
                                },
                            }
                        },
                    }
                },
            }
            k = k + 1;
        }
        Ok(stack)
    }
}

} // verus!
