//! Compiler: lowers each top-level expression into flat bytecode chunks,
//! referenced by dense numeric ids. The model is [`compile_expr`] /
//! [`compile_program`]; the executable [`Compiler`] is proved to produce
//! exactly the model's chunk table, and that table is proved well-formed:
//! ids are dense and every `Push` names a strictly later chunk.
use vstd::prelude::*;
use crate::ast::{expr_view, exprs_view, Ast, Expression, ExpressionView};
use crate::value::{Value, ValueView};

verus! {

/// Compilation succeeds for every expression the parser produces, as the
/// entry point's contract states; the variant exists for callers that
/// hand the compiler trees built by other means.
#[derive(Debug, PartialEq, Eq, Clone, Copy)]
pub enum CompileError {
    MalformedExpression,
}

pub type ChunkId = usize;

/// Mathematical model of one instruction.
pub enum OpView {
    Push(int),
    LoadImmediate(ValueView),
    LoadVariable,
    Define(Seq<char>),
    Lookup(Seq<char>),
    Call(int),
}

/// One bytecode instruction: push the result of another chunk, load a
/// literal, resolve a pending name, bind a global, stage a name, or call
/// a procedure with an arity.
#[derive(Debug, PartialEq)]
pub enum Op {
    Push(ChunkId),
    LoadImmediate(Value),
    LoadVariable,
    Define(String),
    Lookup(String),
    Call(usize),
}

impl View for Op {
    type V = OpView;

    open spec fn view(&self) -> OpView {
        match self {
            Op::Push(t) => OpView::Push(*t as int),
            Op::LoadImmediate(v) => OpView::LoadImmediate(v@),
            Op::LoadVariable => OpView::LoadVariable,
            Op::Define(name) => OpView::Define(name@),
            Op::Lookup(name) => OpView::Lookup(name@),
            Op::Call(arity) => OpView::Call(*arity as int),
        }
    }
}

/// Mathematical model of a chunk.
pub struct ChunkView {
    pub id: int,
    pub code: Seq<OpView>,
}

/// A flat, independently addressable unit of compiled bytecode.
#[derive(Debug, PartialEq)]
pub struct Chunk {
    pub id: usize,
    pub code: Vec<Op>,
}

/// The views of an instruction sequence.
pub open spec fn ops_view(os: Seq<Op>) -> Seq<OpView> {
    os.map_values(|o: Op| o@)
}

impl View for Chunk {
    type V = ChunkView;

    open spec fn view(&self) -> ChunkView {
        ChunkView { id: self.id as int, code: ops_view(self.code@) }
    }
}

/// The views of a chunk sequence.
pub open spec fn chunks_view(cs: Seq<Chunk>) -> Seq<ChunkView> {
    cs.map_values(|c: Chunk| c@)
}

impl Chunk {
    fn new(id: usize) -> (r: Self)
        ensures
            r@.id == id,
            r@.code == Seq::<OpView>::empty(),
    {
        let r = Chunk { id, code: Vec::new() };
        proof {
            assert(ops_view(r.code@) =~= Seq::<OpView>::empty());
        }
        r
    }

    fn emit(&mut self, op: Op)
        ensures
            final(self)@.id == old(self)@.id,
            final(self)@.code == old(self)@.code.push(op@),
    {
        let ghost old_code = self.code@;
        self.code.push(op);
        proof {
            assert(ops_view(self.code@) =~= ops_view(old_code).push(op@));
        }
    }
}

// ----- the model of compilation -----

/// Compiles one expression into the chunk table `cs`: a fresh chunk id is
/// allocated first (the table's next index), children are compiled into
/// their own later chunks, and the allocated chunk's code is then filled
/// in. Returns the grown table and the allocated id.
pub open spec fn compile_expr(cs: Seq<ChunkView>, e: ExpressionView) -> (Seq<ChunkView>, int)
    decreases e, 1int, 0int,
{
    let id = cs.len() as int;
    let cs1 = cs.push(ChunkView { id: id, code: Seq::empty() });
    match e {
        ExpressionView::Empty => (cs1, id),
        ExpressionView::StaticValue(v) => (
            cs1.update(id, ChunkView { id: id, code: seq![OpView::LoadImmediate(v)] }),
            id,
        ),
        ExpressionView::Variable(name) => (
            cs1.update(
                id,
                ChunkView { id: id, code: seq![OpView::Lookup(name), OpView::LoadVariable] },
            ),
            id,
        ),
        ExpressionView::Definition(name, body) => {
            let r = compile_expr(cs1, *body);
            (
                r.0.update(
                    id,
                    ChunkView {
                        id: id,
                        code: seq![OpView::Push(r.1), OpView::Define(name)],
                    },
                ),
                id,
            )
        },
        ExpressionView::Call(name, args) => {
            let r = compile_args(cs1, args, 0);
            (
                r.0.update(
                    id,
                    ChunkView {
                        id: id,
                        code: r.1.map_values(|b: int| OpView::Push(b)) + seq![
                            OpView::Lookup(name),
                            OpView::Call(args.len() as int),
                        ],
                    },
                ),
                id,
            )
        },
    }
}

/// Compiles the arguments of a call from index `k` on, left to right,
/// each into its own chunk; returns the grown table and the argument
/// chunk ids in argument order.
pub open spec fn compile_args(cs: Seq<ChunkView>, args: Seq<ExpressionView>, k: int) -> (
    Seq<ChunkView>,
    Seq<int>,
)
    decreases args, 0int, args.len() - k,
{
    if 0 <= k && k < args.len() {
        let r = compile_expr(cs, args[k]);
        let rest = compile_args(r.0, args, k + 1);
        (rest.0, seq![r.1] + rest.1)
    } else {
        (cs, Seq::empty())
    }
}

/// Compiles the top-level expressions from index `k` on into `cs`.
pub open spec fn compile_program_from(cs: Seq<ChunkView>, es: Seq<ExpressionView>, k: int) -> Seq<
    ChunkView,
>
    decreases es.len() - k,
{
    if 0 <= k && k < es.len() {
        compile_program_from(compile_expr(cs, es[k]).0, es, k + 1)
    } else {
        cs
    }
}

/// The chunk table of a whole program.
pub open spec fn compile_program(es: Seq<ExpressionView>) -> Seq<ChunkView> {
    compile_program_from(Seq::empty(), es, 0)
}

/// Every `Push` of a chunk names a strictly later chunk of a table of
/// length `len`.
pub open spec fn chunk_wf(c: ChunkView, len: int) -> bool {
    forall|x: int|
        0 <= x < c.code.len() ==> ((#[trigger] c.code[x]) matches OpView::Push(t) ==> c.id < t
            < len)
}

/// Chunk ids are dense (each chunk sits at its own id) and every chunk's
/// `Push` targets lie inside the table, strictly after the chunk itself.
pub open spec fn table_wf(cs: Seq<ChunkView>) -> bool {
    forall|i: int|
        0 <= i < cs.len() ==> (#[trigger] cs[i]).id == i && chunk_wf(cs[i], cs.len() as int)
}

pub proof fn lemma_compile_expr_wf(cs: Seq<ChunkView>, e: ExpressionView)
    ensures
        ({
            let r = compile_expr(cs, e);
            &&& r.1 == cs.len()
            &&& r.0.len() > cs.len()
            &&& r.0.subrange(0, cs.len() as int) == cs
            &&& forall|i: int|
                cs.len() <= i < r.0.len() ==> (#[trigger] r.0[i]).id == i && chunk_wf(
                    r.0[i],
                    r.0.len() as int,
                )
        }),
    decreases e, 1int, 0int,
{
    let id = cs.len() as int;
    let cs1 = cs.push(ChunkView { id: id, code: Seq::empty() });
    assert(cs1.subrange(0, cs.len() as int) =~= cs);
    match e {
        ExpressionView::Empty => {},
        ExpressionView::StaticValue(v) => {
            let r = compile_expr(cs, e);
            assert(r.0.subrange(0, cs.len() as int) =~= cs);
        },
        ExpressionView::Variable(name) => {
            let r = compile_expr(cs, e);
            assert(r.0.subrange(0, cs.len() as int) =~= cs);
        },
        ExpressionView::Definition(name, body) => {
            lemma_compile_expr_wf(cs1, *body);
            let rb = compile_expr(cs1, *body);
            let r = compile_expr(cs, e);
            assert(rb.0[id] == cs1[id]);
            assert(r.0.subrange(0, cs.len() as int) =~= cs);
        },
        ExpressionView::Call(name, args) => {
            lemma_compile_args_wf(cs1, args, 0);
            let ra = compile_args(cs1, args, 0);
            let r = compile_expr(cs, e);
            assert(r.0.subrange(0, cs.len() as int) =~= cs);
            let code = ra.1.map_values(|b: int| OpView::Push(b)) + seq![
                OpView::Lookup(name),
                OpView::Call(args.len() as int),
            ];
            assert forall|x: int|
                0 <= x < code.len() implies ((#[trigger] code[x]) matches OpView::Push(t) ==> id < t
                < r.0.len()) by {
                if x < ra.1.len() {
                    assert(code[x] == OpView::Push(ra.1[x]));
                }
            }
        },
    }
}

pub proof fn lemma_compile_args_wf(cs: Seq<ChunkView>, args: Seq<ExpressionView>, k: int)
    ensures
        ({
            let r = compile_args(cs, args, k);
            &&& r.0.len() >= cs.len()
            &&& r.0.subrange(0, cs.len() as int) == cs
            &&& forall|x: int| 0 <= x < r.1.len() ==> cs.len() <= #[trigger] r.1[x] < r.0.len()
            &&& forall|i: int|
                cs.len() <= i < r.0.len() ==> (#[trigger] r.0[i]).id == i && chunk_wf(
                    r.0[i],
                    r.0.len() as int,
                )
        }),
    decreases args, 0int, args.len() - k,
{
    if 0 <= k && k < args.len() {
        lemma_compile_expr_wf(cs, args[k]);
        let r1 = compile_expr(cs, args[k]);
        lemma_compile_args_wf(r1.0, args, k + 1);
        let rest = compile_args(r1.0, args, k + 1);
        assert(rest.0.subrange(0, cs.len() as int) =~= cs) by {
            assert(forall|i: int|
                0 <= i < cs.len() ==> rest.0[i] == rest.0.subrange(0, r1.0.len() as int)[i]);
        }
        assert forall|i: int|
            cs.len() <= i < rest.0.len() implies (#[trigger] rest.0[i]).id == i && chunk_wf(
            rest.0[i],
            rest.0.len() as int,
        ) by {
            if i < r1.0.len() {
                assert(rest.0[i] == rest.0.subrange(0, r1.0.len() as int)[i]);
                assert(rest.0[i] == r1.0[i]);
            }
        }
    } else {
        assert(compile_args(cs, args, k).0.subrange(0, cs.len() as int) =~= cs);
    }
}

pub proof fn lemma_compile_program_wf(cs: Seq<ChunkView>, es: Seq<ExpressionView>, k: int)
    requires
        forall|i: int|
            0 <= i < cs.len() ==> (#[trigger] cs[i]).id == i && chunk_wf(cs[i], cs.len() as int),
    ensures
        ({
            let r = compile_program_from(cs, es, k);
            &&& r.len() >= cs.len()
            &&& table_wf(r)
        }),
    decreases es.len() - k,
{
    if 0 <= k && k < es.len() {
        lemma_compile_expr_wf(cs, es[k]);
        let r1 = compile_expr(cs, es[k]);
        assert forall|i: int|
            0 <= i < r1.0.len() implies (#[trigger] r1.0[i]).id == i && chunk_wf(
            r1.0[i],
            r1.0.len() as int,
        ) by {
            if i < cs.len() {
                assert(r1.0[i] == r1.0.subrange(0, cs.len() as int)[i]);
                assert(r1.0[i] == cs[i]);
            }
        }
        lemma_compile_program_wf(r1.0, es, k + 1);
    }
}

// ----- the executable compiler -----

/// Lowers a program's expressions into a chunk table; built fresh per
/// compilation.
pub struct Compiler {
    chunks: Vec<Chunk>,
}

impl Compiler {
    /// The chunk table built so far.
    pub closed spec fn chunks_v(&self) -> Seq<ChunkView> {
        chunks_view(self.chunks@)
    }

    pub fn new() -> (r: Self)
        ensures
            r.chunks_v() == Seq::<ChunkView>::empty(),
    {
        let r = Compiler { chunks: Vec::new() };
        proof {
            assert(chunks_view(r.chunks@) =~= Seq::<ChunkView>::empty());
        }
        r
    }

    /// Compiles every top-level expression of the program, in order, and
    /// returns the whole chunk table: exactly the model's table, which is
    /// well-formed (dense ids; every `Push` names a later chunk).
    pub fn compile(self, ast: Ast) -> (r: Result<Vec<Chunk>, CompileError>)
        requires
            self.chunks_v() == Seq::<ChunkView>::empty(),
        ensures
            r matches Ok(cs) && chunks_view(cs@) == compile_program(ast@),
            r matches Ok(cs) && table_wf(chunks_view(cs@)),
    {
        let mut this = self;
        let ghost init = this.chunks_v();
        let exprs = ast.into_iter();
        let ghost es = ast@;
        let mut k: usize = 0;
        while k < exprs.len()
            invariant
                k <= exprs.len(),
                es == exprs_view(exprs@),
                compile_program_from(this.chunks_v(), es, k as int) == compile_program(es),
            decreases exprs.len() - k,
        {
            proof {
                assert(es[k as int] == expr_view(&exprs@[k as int]));
            }
            let _ = this.compile_expression(&exprs[k]);
            k = k + 1;
        }
        proof {
            lemma_compile_program_wf(Seq::empty(), es, 0);
        }
        Ok(this.chunks)
    }

    /// Compiles one expression, returning its chunk id; the table grows
    /// exactly as the model [`compile_expr`] says.
    fn compile_expression(&mut self, expression: &Expression) -> (id: ChunkId)
        ensures
            ({
                let r = compile_expr(old(self).chunks_v(), expr_view(expression));
                &&& final(self).chunks_v() == r.0
                &&& id as int == r.1
            }),
        decreases expression, 1int, 0int,
    {
        let ghost cs0 = self.chunks_v();
        let chunk_id = self.new_chunk_id();
        match expression {
            Expression::Empty => {},
            Expression::StaticValue(value) => {
                let mut chunk = Chunk::new(chunk_id);
                chunk.emit(Op::LoadImmediate(value.clone()));
                proof {
                    assert(chunk@.code =~= seq![OpView::LoadImmediate(value@)]);
                }
                self.set_chunk(chunk);
            },
            Expression::Variable(identifier) => {
                let mut chunk = Chunk::new(chunk_id);
                chunk.emit(Op::Lookup(identifier.clone()));
                chunk.emit(Op::LoadVariable);
                proof {
                    assert(chunk@.code =~= seq![OpView::Lookup(identifier@), OpView::LoadVariable]);
                }
                self.set_chunk(chunk);
            },
            Expression::Definition(name, expr) => {
                let body = self.compile_expression(&**expr);
                let mut chunk = Chunk::new(chunk_id);
                chunk.emit(Op::Push(body));
                chunk.emit(Op::Define(name.clone()));
                proof {
                    assert(chunk@.code =~= seq![
                        OpView::Push(body as int),
                        OpView::Define(name@),
                    ]);
                    lemma_compile_expr_wf(
                        cs0.push(ChunkView { id: chunk_id as int, code: Seq::empty() }),
                        expr_view(&**expr),
                    );
                }
                self.set_chunk(chunk);
            },
            Expression::Call(identifier, arguments) => {
                let ghost argsv = crate::ast::args_view_from(arguments, 0);
                proof {
                    crate::ast::lemma_args_view(arguments);
                }
                let ghost cs1 = self.chunks_v();
                let arg_len = arguments.len();
                let arg_chunks = self.compile_arguments(arguments);
                let ghost full = compile_args(cs1, argsv, 0);
                let mut chunk = Chunk::new(chunk_id);
                let mut y: usize = 0;
                while y < arg_chunks.len()
                    invariant
                        y <= arg_chunks.len(),
                        chunk@.id == chunk_id,
                        chunk@.code == arg_chunks@.subrange(0, y as int).map_values(
                            |b: usize| OpView::Push(b as int),
                        ),
                    decreases arg_chunks.len() - y,
                {
                    let ghost pre = chunk@.code;
                    chunk.emit(Op::Push(arg_chunks[y]));
                    proof {
                        assert(arg_chunks@.subrange(0, y as int + 1).map_values(
                            |b: usize| OpView::Push(b as int),
                        ) =~= pre.push(OpView::Push(arg_chunks@[y as int] as int)));
                    }
                    y = y + 1;
                }
                chunk.emit(Op::Lookup(identifier.clone()));
                chunk.emit(Op::Call(arg_len));
                proof {
                    assert(arg_chunks@.subrange(0, arg_chunks@.len() as int) =~= arg_chunks@);
                    assert(chunk@.code =~= full.1.map_values(|b: int| OpView::Push(b)) + seq![
                        OpView::Lookup(identifier@),
                        OpView::Call(argsv.len() as int),
                    ]);
                    lemma_compile_args_wf(cs1, argsv, 0);
                }
                self.set_chunk(chunk);
            },
        }
        chunk_id
    }

    /// Compiles each argument, left to right, into its own chunk, and
    /// returns the argument chunk ids in order.
    fn compile_arguments(&mut self, arguments: &Vec<Expression>) -> (ids: Vec<ChunkId>)
        ensures
            ({
                let r = compile_args(old(self).chunks_v(), exprs_view(arguments@), 0);
                &&& final(self).chunks_v() == r.0
                &&& ids@.map_values(|b: usize| b as int) == r.1
            }),
        decreases arguments, 0int, 0int,
    {
        let ghost argsv = exprs_view(arguments@);
        let ghost cs1 = self.chunks_v();
        let ghost full = compile_args(cs1, argsv, 0);
        let mut arg_chunks: Vec<ChunkId> = Vec::new();
        let mut x: usize = 0;
        proof {
            assert(arg_chunks@.map_values(|b: usize| b as int) =~= Seq::<int>::empty());
        }
        while x < arguments.len()
            invariant
                x <= arguments.len(),
                argsv == exprs_view(arguments@),
                full == compile_args(cs1, argsv, 0),
                full.0 == compile_args(self.chunks_v(), argsv, x as int).0,
                full.1 == arg_chunks@.map_values(|b: usize| b as int) + compile_args(
                    self.chunks_v(),
                    argsv,
                    x as int,
                ).1,
            decreases arguments.len() - x,
        {
            proof {
                assert(argsv[x as int] == expr_view(&arguments@[x as int]));
            }
            let ghost cur = self.chunks_v();
            let arg_id = self.compile_expression(&arguments[x]);
            let ghost old_ids = arg_chunks@.map_values(|b: usize| b as int);
            arg_chunks.push(arg_id);
            proof {
                let r1 = compile_expr(cur, argsv[x as int]);
                let rest = compile_args(r1.0, argsv, x as int + 1);
                assert(arg_chunks@.map_values(|b: usize| b as int) =~= old_ids.push(
                    arg_id as int,
                ));
                assert(old_ids + (seq![r1.1] + rest.1) =~= arg_chunks@.map_values(
                    |b: usize| b as int,
                ) + rest.1);
            }
            x = x + 1;
        }
        proof {
            assert(full.1 =~= arg_chunks@.map_values(|b: usize| b as int));
        }
        arg_chunks
    }

    /// Allocates the next dense chunk id by appending an empty chunk.
    fn new_chunk_id(&mut self) -> (id: ChunkId)
        ensures
            id as int == old(self).chunks_v().len(),
            final(self).chunks_v() == old(self).chunks_v().push(
                ChunkView { id: id as int, code: Seq::empty() },
            ),
    {
        let chunk_id = self.chunks.len();
        let ghost old_cs = self.chunks@;
        self.chunks.push(Chunk::new(chunk_id));
        proof {
            assert(chunks_view(self.chunks@) =~= chunks_view(old_cs).push(
                ChunkView { id: chunk_id as int, code: Seq::empty() },
            ));
        }
        chunk_id
    }

    /// Writes a finished chunk at its own id.
    fn set_chunk(&mut self, chunk: Chunk)
        requires
            chunk@.id < old(self).chunks_v().len(),
        ensures
            final(self).chunks_v() == old(self).chunks_v().update(chunk@.id, chunk@),
    {
        let i = chunk.id;
        let ghost old_cs = self.chunks@;
        self.chunks[i] = chunk;
        proof {
            assert(chunks_view(self.chunks@) =~= chunks_view(old_cs).update(
                self.chunks@[i as int]@.id,
                self.chunks@[i as int]@,
            ));
        }
    }
}

} // verus!
