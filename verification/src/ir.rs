//! The structured intermediate representation the backends lower from: a wasm module after
//! stack elimination, with expressions as trees, temporaries for values that outlive one
//! statement, and labelled frames for the structured control flow.
use vstd::prelude::*;

verus! {

/// A wasm value type.
#[derive(Clone, Copy, PartialEq, Eq, Debug, Structural)]
pub enum ValType {
    I32,
    I64,
    F32,
    F64,
    FuncRef,
}

/// A stack temporary, named by the operand-stack depth it stands for.
#[derive(Clone, Copy, PartialEq, Eq, Debug, Structural)]
pub struct Temp {
    pub depth: u32,
    pub ty: ValType,
}

/// A structured frame's label: `id` names it, `referenced` tells whether any branch targets it.
#[derive(Clone, Copy, PartialEq, Eq, Debug, Structural)]
pub struct Label {
    pub id: u32,
    pub referenced: bool,
}

/// A back-mapping position into the module's debug source files.
#[derive(Clone, Copy, PartialEq, Eq, Debug, Structural)]
pub struct SourcePos {
    pub file: u32,
    pub line: u32,
}

/// Unary operations.
#[derive(Clone, Copy, PartialEq, Eq, Debug, Structural)]
pub enum UnOp {
    I32Eqz,
    I64Eqz,
    I32Clz,
    I32Ctz,
    I64Clz,
    I64Ctz,
    I32Popcnt,
    I64Popcnt,
    F32Abs,
    F32Neg,
    F64Abs,
    F64Neg,
    F32Ceil,
    F64Ceil,
    F32Floor,
    F64Floor,
    F32Trunc,
    F64Trunc,
    F32Nearest,
    F64Nearest,
    F32Sqrt,
    F64Sqrt,
    I32WrapI64,
    I32TruncF32S,
    I32TruncF64S,
    I32TruncF32U,
    I32TruncF64U,
    I64TruncF32S,
    I64TruncF64S,
    I64TruncF32U,
    I64TruncF64U,
    I32TruncSatF32S,
    I32TruncSatF64S,
    I32TruncSatF32U,
    I32TruncSatF64U,
    I64TruncSatF32S,
    I64TruncSatF64S,
    I64TruncSatF32U,
    I64TruncSatF64U,
    I64ExtendI32S,
    I64ExtendI32U,
    F32ConvertI32S,
    F32ConvertI32U,
    F32ConvertI64S,
    F32ConvertI64U,
    F64ConvertI32S,
    F64ConvertI32U,
    F64ConvertI64S,
    F64ConvertI64U,
    F32DemoteF64,
    F64PromoteF32,
    I32ReinterpretF32,
    I64ReinterpretF64,
    F32ReinterpretI32,
    F64ReinterpretI64,
    I32Extend8S,
    I32Extend16S,
    I64Extend8S,
    I64Extend16S,
    I64Extend32S,
}

/// Binary operations.
#[derive(Clone, Copy, PartialEq, Eq, Debug, Structural)]
pub enum BinOp {
    I32Add,
    I32Sub,
    I32Mul,
    I64Add,
    I64Sub,
    I64Mul,
    I32DivS,
    I32DivU,
    I32RemS,
    I32RemU,
    I64DivS,
    I64DivU,
    I64RemS,
    I64RemU,
    I32And,
    I64And,
    I32Or,
    I64Or,
    I32Xor,
    I64Xor,
    I32Shl,
    I32ShrU,
    I32ShrS,
    I64Shl,
    I64ShrU,
    I64ShrS,
    I32Rotl,
    I32Rotr,
    I64Rotl,
    I64Rotr,
    I32Eq,
    I64Eq,
    I32Ne,
    I64Ne,
    I32LtU,
    I64LtU,
    I32GtU,
    I64GtU,
    I32LeU,
    I64LeU,
    I32GeU,
    I64GeU,
    I32LtS,
    I32GtS,
    I32LeS,
    I32GeS,
    I64LtS,
    I64GtS,
    I64LeS,
    I64GeS,
    F32Add,
    F32Sub,
    F32Mul,
    F32Div,
    F64Add,
    F64Sub,
    F64Mul,
    F64Div,
    F32Min,
    F64Min,
    F32Max,
    F64Max,
    F32Copysign,
    F64Copysign,
    F32Eq,
    F64Eq,
    F32Ne,
    F64Ne,
    F32Lt,
    F64Lt,
    F32Gt,
    F64Gt,
    F32Le,
    F64Le,
    F32Ge,
    F64Ge,
}

/// Memory reads.
#[derive(Clone, Copy, PartialEq, Eq, Debug, Structural)]
pub enum LoadOp {
    I32Load,
    I64Load,
    F32Load,
    F64Load,
    I32Load8S,
    I32Load8U,
    I32Load16S,
    I32Load16U,
    I64Load8S,
    I64Load8U,
    I64Load16S,
    I64Load16U,
    I64Load32S,
    I64Load32U,
}

/// Memory writes.
#[derive(Clone, Copy, PartialEq, Eq, Debug, Structural)]
pub enum StoreOp {
    I32Store,
    I64Store,
    F32Store,
    F64Store,
    I32Store8,
    I32Store16,
    I64Store8,
    I64Store16,
    I64Store32,
}

/// An expression tree. Integer constants are held in their stored masked-unsigned form and
/// float constants by their bit patterns.
#[derive(Debug)]
pub enum Expr {
    I32Const(u32),
    I64Const(u64),
    F32Const(u32),
    F64Const(u64),
    Temp(Temp),
    LocalGet(u32),
    GlobalGet(u32),
    Un(UnOp, Box<Expr>),
    Bin(BinOp, Box<Expr>, Box<Expr>),
    Load { op: LoadOp, addr: Box<Expr>, offset: u64 },
    Select { cond: Box<Expr>, then: Box<Expr>, els: Box<Expr> },
    MemorySize,
}

/// Where a branch goes: out of the function, or to a labelled frame, after moving its operands
/// into the frame's result temporaries.
#[derive(Debug)]
pub enum BrTarget {
    Return { values: Vec<Expr> },
    Label { label: u32, is_loop: bool, assigns: Vec<(Temp, Temp)> },
}

/// One handler of a `try_table`: the tag it catches (`None` for a catch-all), the temporaries
/// the caught payload (and, for a `_ref` clause, the exception reference) lands in, and where
/// control goes.
#[derive(Debug)]
pub struct CatchClause {
    pub tag: Option<u32>,
    pub value_temps: Vec<Temp>,
    pub target: BrTarget,
}

/// A statement.
#[allow(inconsistent_fields)]
#[derive(Debug)]
pub enum Stmt {
    SourceLine(SourcePos),
    Assign { dst: Temp, expr: Expr },
    LocalSet { idx: u32, expr: Expr },
    GlobalSet { idx: u32, expr: Expr },
    Store { op: StoreOp, addr: Expr, value: Expr, offset: u64 },
    Block { label: Label, body: Vec<Stmt> },
    Loop { label: Label, body: Vec<Stmt> },
    If { label: Label, cond: Expr, then: Vec<Stmt>, els: Vec<Stmt> },
    Br(BrTarget),
    BrIf { cond: Expr, target: BrTarget },
    BrTable { index: Expr, targets: Vec<BrTarget>, default: BrTarget },
    Return { values: Vec<Expr> },
    Call { func: u32, args: Vec<Expr>, results: Vec<Temp> },
    CallIndirect { type_idx: u32, table_index: u32, index: Expr, args: Vec<Expr>, results: Vec<Temp> },
    MemoryGrow { dst: Temp, delta: Expr },
    MemoryCopy { dst: Expr, src: Expr, len: Expr },
    MemoryFill { dst: Expr, val: Expr, len: Expr },
    MemoryInit { seg: u32, dst: Expr, src: Expr, len: Expr },
    DataDrop { seg: u32 },
    TableInit { seg: u32, table_index: u32, dst: Expr, src: Expr, len: Expr },
    TableCopy { dst_table: u32, src_table: u32, dst: Expr, src: Expr, len: Expr },
    ElemDrop { seg: u32 },
    Throw { tag: u32, args: Vec<Expr> },
    ThrowRef { exn: Expr },
    TryTable { label: Label, catches: Vec<CatchClause>, body: Vec<Stmt> },
    Unreachable,
}

/// A function signature.
#[derive(Debug)]
pub struct FuncType {
    pub params: Vec<ValType>,
    pub results: Vec<ValType>,
}

/// An import's two-level name.
#[derive(Debug)]
pub struct Import {
    pub module: String,
    pub name: String,
}

/// An imported function.
#[derive(Debug)]
pub struct ImportedFunc {
    pub module: String,
    pub name: String,
    pub type_idx: u32,
}

/// A defined table's limits.
#[derive(Debug)]
pub struct Table {
    pub min: u64,
    pub max: Option<u64>,
}

/// One element-segment item.
#[derive(Debug)]
pub enum ElemItem {
    Func(u32),
    Null,
    Global(u32),
}

/// How an element segment is applied.
#[derive(Debug)]
pub enum ElemKind {
    Active { table_index: u32, offset: Expr },
    Passive,
    Declared,
}

/// An element segment.
#[derive(Debug)]
pub struct Elem {
    pub kind: ElemKind,
    pub items: Vec<ElemItem>,
}

/// A defined function.
#[derive(Debug)]
pub struct Func {
    pub type_idx: u32,
    pub locals: Vec<ValType>,
    /// The stack temporaries the body uses.
    pub temps: Vec<Temp>,
    pub body: Vec<Stmt>,
}

/// A linear memory's size limits, in 64 KiB pages.
#[derive(Clone, Copy, PartialEq, Eq, Debug, Structural)]
pub struct Memory {
    pub min_pages: u64,
    pub max_pages: Option<u64>,
}

/// An imported linear memory: where it comes from and its size limits.
#[derive(Debug)]
pub struct ImportedMemory {
    pub module: String,
    pub name: String,
    pub min_pages: u64,
    pub max_pages: Option<u64>,
}

/// A defined global: its initializer.
#[derive(Debug)]
pub struct Global {
    pub init: Expr,
}

/// A data segment: where an active one is copied to (`None` for a passive one), and its bytes.
#[derive(Debug)]
pub struct Data {
    pub offset: Option<Expr>,
    pub data: Vec<u8>,
}

/// What an export names.
#[derive(Debug)]
pub enum ExportKind {
    Func(u32),
    Table(u32),
    Memory,
    Global(u32),
}

/// An export: its name and what it names.
#[derive(Debug)]
pub struct Export {
    pub name: String,
    pub kind: ExportKind,
}

/// The parts of a module the passes and the emitters read.
#[derive(Debug)]
pub struct Module {
    pub types: Vec<FuncType>,
    pub imported_funcs: Vec<ImportedFunc>,
    pub imported_globals: Vec<Import>,
    pub imported_memory: Option<ImportedMemory>,
    pub memory: Option<Memory>,
    pub imported_tables: Vec<Import>,
    pub tables: Vec<Table>,
    pub elems: Vec<Elem>,
    pub funcs: Vec<Func>,
    /// The source files debug positions point into.
    pub debug_files: Vec<String>,
    pub globals: Vec<Global>,
    pub datas: Vec<Data>,
    pub exports: Vec<Export>,
    /// The start function, run at instantiation.
    pub start: Option<u32>,
}

/// A wasm feature a backend may or may not implement.
#[derive(Clone, Copy, PartialEq, Eq, Debug, Structural)]
pub enum Feature {
    Floats,
    ImportedGlobals,
    ImportedMemories,
    ImportedTables,
    MultipleTables,
    TableBulkOps,
    ExceptionHandling,
}

} // verus!
