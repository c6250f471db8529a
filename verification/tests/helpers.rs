use dewasm_backend::compare::{comparison, is_boolean, signed_view_rel_op, CompareOperands};
use dewasm_backend::ir::{BinOp, BrTarget, Expr, Feature, FuncType, Label, LoadOp, SourcePos, Stmt, StoreOp, Temp, UnOp, ValType};
use dewasm_backend::perl::{self, PerlBackend};
use dewasm_backend::precedence::{compare, infix, mask32, mask32_unless, not, number, ternary, to_f, Prec, Rendered};
use dewasm_backend::python::{self, PythonBackend};
use dewasm_backend::ruby::{self, RubyBackend};
use dewasm_backend::support::{
    default_value, hex_string, is_ident, is_wasi_module, load_method, local_runs, module_name_error, store_method,
    terminates, type_key, Backend, BackendError, CharClass, SupportStatus,
};
use dewasm_backend::writer::CodeWriter;

fn atom(s: &str) -> Rendered {
    Rendered::atom(s.to_string())
}

#[test]
fn perl_strings_escape_only_quote_and_backslash() {
    assert_eq!(perl::perl_string("it's \\ $x @y\n"), "'it\\'s \\\\ $x @y\n'");
    assert_eq!(perl::perl_string(""), "''");
}

#[test]
fn data_literals_wrap_the_hex_payload() {
    let data = [0x01u8, 0xab, 0x00, 0xff];
    assert_eq!(hex_string(&data), "01ab00ff");
    assert_eq!(perl::hex_bytes(&data), "pack('H*', '01ab00ff')");
    assert_eq!(python::hex_bytes(&data), "bytes.fromhex(\"01ab00ff\")");
    assert_eq!(ruby::hex_bytes(&data), "[\"01ab00ff\"].pack(\"H*\")");
    assert_eq!(perl::hex_bytes(&[]), "pack('H*', '')");
}

#[test]
fn temporaries_and_result_assignments() {
    let t = |d| Temp { depth: d, ty: ValType::I32 };
    assert_eq!(perl::temp(t(3)), "$s3");
    assert_eq!(perl::assign_results(&[], "f()"), "f();");
    assert_eq!(perl::assign_results(&[t(0)], "f()"), "$s0 = f();");
    assert_eq!(perl::assign_results(&[t(0), t(1), t(12)], "f()"), "($s0, $s1, $s12) = f();");
    assert_eq!(python::temp(t(7)), "s7");
    assert_eq!(python::assign_results(&[], "f()"), "f()");
    assert_eq!(python::assign_results(&[t(2)], "f()"), "s2 = f()");
    assert_eq!(python::assign_results(&[t(2), t(3)], "f()"), "s2, s3 = f()");
}

#[test]
fn python_strings_escape_quotes_and_control_characters() {
    assert_eq!(python::py_string("a\"b\\c\n\r\t\u{1}\u{7f}é"), "\"a\\\"b\\\\c\\n\\r\\t\\x01\\x7fé\"");
    assert_eq!(python::py_string("Rt.x # y"), "\"Rt.x # y\"");
}

#[test]
fn ruby_strings_escape_interpolation_and_control_characters() {
    assert_eq!(ruby::ruby_string("a\"#\\\u{1}\u{1f}\u{7f}"), "\"a\\\"\\#\\\\\\u{1}\\u{1f}\\u{7f}\"");
    assert_eq!(ruby::ruby_string("plain"), "\"plain\"");
}

#[test]
fn literals_never_open_an_interpolation_or_hold_a_raw_control() {
    assert_eq!(ruby::ruby_string("#{x}#@y#$z"), "\"\\#{x}\\#@y\\#$z\"");
    assert_eq!(ruby::ruby_string("\u{0}\u{10}"), "\"\\u{0}\\u{10}\"");
    assert_eq!(python::py_string("\u{0}{x}"), "\"\\x00{x}\"");
}

#[test]
fn python_module_names_are_single_identifiers() {
    assert!(python::check_module_name("Add").is_ok());
    assert!(python::check_module_name("sqlite3").is_ok());
    assert!(python::check_module_name("_x").is_ok());
    assert!(python::check_module_name("3x").is_err());
    match python::check_module_name("a.b") {
        Err(e @ BackendError::InvalidModuleName { .. }) => assert_eq!(
            e.message(),
            "invalid python module name \"a.b\": it must be a single identifier matching [A-Za-z_][A-Za-z0-9_]* (e.g. Add, sqlite3). Pass a valid one with --module-name (the default is the input file stem), or drop --module-name for --mode standalone, whose internal name is fixed."
        ),
        _ => panic!("expected a refusal"),
    }
}

#[test]
fn ruby_module_names_are_constant_paths() {
    assert!(ruby::check_module_name("Add").is_ok());
    assert!(ruby::check_module_name("Dewasm::Sqlite3").is_ok());
    assert!(ruby::check_module_name("add").is_err());
    assert!(ruby::check_module_name("A::").is_err());
    assert!(ruby::check_module_name("A:::B").is_err());
    assert!(ruby::check_module_name("").is_err());
}

#[test]
fn ancestor_guards_define_each_enclosing_module_outermost_first() {
    assert_eq!(ruby::ancestor_guards("Add"), "");
    assert_eq!(
        ruby::ancestor_guards("A::B::C"),
        "unless defined?(A)\n\tmodule A; end\nend\nunless defined?(A::B)\n\tmodule A::B; end\nend\n"
    );
}

#[test]
fn runtime_names_follow_the_linkage() {
    assert_eq!(python::runtime_name("Foo", true), "FooRt");
    assert_eq!(python::runtime_name("Foo", false), "Rt");
}

#[test]
fn python_masks_keep_their_grouping() {
    assert_eq!(python::mask32_unless(true, "a + b"), "(a + b)");
    assert_eq!(python::mask32_unless(false, "a + b"), "((a + b) & 0xFFFFFFFF)");
    assert_eq!(python::mask64_unless(false, "a"), "((a) & 0xFFFFFFFFFFFFFFFF)");
}

#[test]
fn tighter_operands_render_bare() {
    let sum = infix(atom("l0"), "+", atom("l1"), Prec::Add);
    assert_eq!(mask32(sum).src, "l0 + l1 & 0xffffffff");
    let count = infix(atom("l1"), "&", number("31".to_string()), Prec::BitAnd);
    assert_eq!(infix(atom("l0"), ">>", count, Prec::Shift).src, "l0 >> (l1 & 31)");
    let lt = compare(atom("l0"), "<", atom("l1"), Prec::Cmp);
    assert_eq!(ternary(lt, number("1".to_string()), number("0".to_string())).free(), "l0 < l1 ? 1 : 0");
}

#[test]
fn looser_operands_keep_their_parens() {
    let xor = infix(atom("l0"), "^", atom("l1"), Prec::BitOr);
    assert_eq!(infix(atom("l0"), "|", xor, Prec::BitOr).src, "l0 | (l0 ^ l1)");
    let count = infix(infix(atom("l0"), "&", atom("l1"), Prec::BitAnd), "&", number("31".to_string()), Prec::BitAnd);
    let shl = infix(atom("l0"), "<<", count, Prec::Shift);
    assert_eq!(mask32(shl).src, "l0 << (l0 & l1 & 31) & 0xffffffff");
    let and = infix(atom("l0"), "&", atom("l1"), Prec::BitAnd);
    assert_eq!(compare(and, "==", number("0".to_string()), Prec::Eq).src, "l0 & l1 == 0");
    let lt = compare(atom("l0"), "<", atom("l1"), Prec::Cmp);
    assert_eq!(not(lt).src, "!(l0 < l1)");
    let inner = infix(atom("l1"), "&", atom("l2"), Prec::BitAnd);
    assert_eq!(infix(atom("l0"), "&", inner, Prec::BitAnd).src, "l0 & l1 & l2");
    let sum = infix(atom("a"), "+", atom("b"), Prec::Add);
    assert_eq!(to_f(sum).src, "(a + b).to_f");
    assert!(matches!(number("-1".to_string()).prec, Prec::Unary));
    assert_eq!(number("-1".to_string()).at(Prec::Atom), "(-1)");
    let kept = mask32_unless(true, atom("x"));
    assert_eq!(kept.src, "x");
    assert_eq!(Prec::Ternary.tighter(), Prec::Eq);
    assert_eq!(Prec::Unary.tighter(), Prec::Atom);
}

#[test]
fn the_writer_indents_lines_and_blocks() {
    let mut w = CodeWriter::new("  ");
    w.line("a");
    w.indent();
    w.line("b");
    w.line("");
    w.dedent();
    w.raw("x");
    w.line("");
    w.block("if y", "end", |mut inner: CodeWriter| {
        inner.line("z");
        inner
    });
    assert_eq!(w.finish(), "a\n  b\n\nx\nif y\n  z\nend\n");
}

#[test]
fn the_dispatch_is_a_balanced_binary_search_tree() {
    let mut w = CodeWriter::new("\t");
    let texts = vec!["a".to_string(), "".to_string(), "b\nc".to_string()];
    python::emit_dispatch_tree(&mut w, &texts, 0, 3);
    assert_eq!(
        w.finish(),
        "if _state < 2:\n\tif _state < 1:\n\t\ta\n\telse:\n\t\tpass\nelse:\n\tif _state < 3:\n\t\tb\n\t\tc\n\telse:\n\t\tbreak\n"
    );
}

#[test]
fn only_code_bearing_statements_emit() {
    let line = || Stmt::SourceLine(SourcePos { file: 0, line: 1 });
    assert!(!python::stmt_emits(&line()));
    let quiet = Stmt::Block { label: Label { id: 1, referenced: false }, body: vec![line()] };
    assert!(!python::stmt_emits(&quiet));
    let landed = Stmt::Block { label: Label { id: 1, referenced: true }, body: vec![] };
    assert!(python::stmt_emits(&landed));
    let busy = Stmt::Loop { label: Label { id: 2, referenced: false }, body: vec![line(), Stmt::Unreachable] };
    assert!(python::stmt_emits(&busy));
    assert!(python::stmt_emits(&Stmt::Unreachable));
}

#[test]
fn br_tables_are_found_at_any_depth() {
    let table = Stmt::BrTable {
        index: Expr::LocalGet(0),
        targets: vec![],
        default: BrTarget::Return { values: vec![] },
    };
    let nested = vec![Stmt::If {
        label: Label { id: 1, referenced: false },
        cond: Expr::I32Const(0),
        then: vec![],
        els: vec![Stmt::Block { label: Label { id: 2, referenced: true }, body: vec![table] }],
    }];
    assert!(perl::seq_has_br_table(&nested));
    assert!(!perl::seq_has_br_table(&[Stmt::Unreachable]));
}

#[test]
fn declared_support_per_backend() {
    assert_eq!(PerlBackend.feature_status(Feature::Floats), SupportStatus::Supported);
    assert_eq!(PerlBackend.feature_status(Feature::TableBulkOps), SupportStatus::Supported);
    assert_eq!(PerlBackend.feature_status(Feature::ExceptionHandling), SupportStatus::Unsupported);
    assert_eq!(PythonBackend.feature_status(Feature::ExceptionHandling), SupportStatus::Supported);
    assert_eq!(RubyBackend.feature_status(Feature::ExceptionHandling), SupportStatus::Supported);
    assert_eq!((PerlBackend.name(), PerlBackend.file_extension()), ("perl", "pl"));
    assert_eq!((PythonBackend.name(), PythonBackend.file_extension()), ("python", "py"));
    assert_eq!((RubyBackend.name(), RubyBackend.file_extension()), ("ruby", "rb"));
}

#[test]
fn identifiers_and_wasi_modules() {
    assert!(is_ident("Add", CharClass::Upper, CharClass::AlnumOrUnderscore));
    assert!(!is_ident("add", CharClass::Upper, CharClass::AlnumOrUnderscore));
    assert!(!is_ident("", CharClass::AlphaOrUnderscore, CharClass::AlnumOrUnderscore));
    assert!(is_wasi_module("wasi_snapshot_preview1"));
    assert!(is_wasi_module("wasi_unstable"));
    assert!(!is_wasi_module("env"));
    match module_name_error("perl", "x", "a word") {
        BackendError::InvalidModuleName { language, name, grammar } => {
            assert_eq!((language.as_str(), name.as_str(), grammar.as_str()), ("perl", "x", "a word"))
        }
        _ => panic!("expected an invalid module name"),
    }
}

#[test]
fn termination_looks_at_the_last_code_statement() {
    let line = || Stmt::SourceLine(SourcePos { file: 0, line: 1 });
    assert!(terminates(&[Stmt::Unreachable, line()]));
    assert!(terminates(&[Stmt::Return { values: vec![] }]));
    assert!(!terminates(&[]));
    assert!(!terminates(&[line()]));
    let both = Stmt::If {
        label: Label { id: 1, referenced: false },
        cond: Expr::I32Const(0),
        then: vec![Stmt::Unreachable],
        els: vec![Stmt::Return { values: vec![] }],
    };
    assert!(terminates(&[both]));
    let one_armed = Stmt::If {
        label: Label { id: 1, referenced: false },
        cond: Expr::I32Const(0),
        then: vec![Stmt::Unreachable],
        els: vec![],
    };
    assert!(!terminates(&[one_armed]));
}

#[test]
fn runs_group_consecutive_equal_keys() {
    assert_eq!(local_runs(&[1, 1, 2, 2, 2, 1]), vec![(0, 2), (2, 5), (5, 6)]);
    assert_eq!(local_runs(&[]), vec![]);
}

#[test]
fn names_of_types_methods_and_defaults() {
    let ty = FuncType { params: vec![ValType::I32, ValType::I64], results: vec![ValType::F64] };
    assert_eq!(type_key(&ty), "i32,i64->f64");
    assert_eq!(type_key(&FuncType { params: vec![], results: vec![] }), "->");
    assert_eq!(load_method(LoadOp::I32Load8U), "i32_load8_u");
    assert_eq!(store_method(StoreOp::I64Store32), "i64_store32");
    assert_eq!(default_value(ValType::F32, "nil"), "0.0");
    assert_eq!(default_value(ValType::FuncRef, "None"), "None");
}

#[test]
fn comparisons_and_their_signed_views() {
    assert_eq!(comparison(BinOp::I32LtS), Some(("<", CompareOperands::Signed32)));
    assert_eq!(comparison(BinOp::F64Ge), Some((">=", CompareOperands::Float)));
    assert_eq!(comparison(BinOp::I32Add), None);
    assert_eq!(signed_view_rel_op(BinOp::I64GeS), Some((">=", Some("s64"))));
    assert_eq!(signed_view_rel_op(BinOp::I32LtU), Some(("<", None)));
    assert!(is_boolean(&Expr::Un(UnOp::I32Eqz, Box::new(Expr::LocalGet(0)))));
    assert!(is_boolean(&Expr::Bin(BinOp::I64Ne, Box::new(Expr::LocalGet(0)), Box::new(Expr::I64Const(0)))));
    assert!(!is_boolean(&Expr::LocalGet(0)));
}
