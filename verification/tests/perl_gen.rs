use dewasm_backend::bundler::RuntimeBundler;
use dewasm_backend::ir::{BinOp, BrTarget, Data, Export, ExportKind, Expr, Func, FuncType, Label, Memory, Module, Stmt, Temp, ValType};
use dewasm_backend::perl;
use dewasm_backend::perl::PerlBackend;
use dewasm_backend::perl_gen::{generate_package, generate_package_with_units, perl_emittable, FloatTexts, PerlGen};
use dewasm_backend::support::{BackendError, DataFileConfig, GenOptions, Mode, RuntimeLinkage};
use dewasm_backend::writer::CodeWriter;

/// A small runtime holding every unit a module without memory or tables references.
const UNITS: &[(&str, &str)] = &[
    ("rt/_package", "use strict;\n"),
    ("rt/exhausted", "sub exhausted {\n    die 'call stack exhausted';\n}\n"),
    ("rt/exit", "sub exit_with {\n    die bless({ code => $_[0] }, 'Rt::Exit');\n}\n"),
    ("rt/i32_mul", "sub i32_mul { return ($_[0] * $_[1]) & 0xFFFFFFFF; }\n"),
    ("rt/link_error", "sub link_error {\n    die 'link error: ' . $_[0];\n}\n"),
    ("rt/trap", "sub trap {\n    die bless({ message => $_[0] }, 'Rt::Trap');\n}\n"),
    ("memory/_package", "sub new { bless { bytes => '' }, shift }\n"),
    ("table/_package", "sub new { bless { elems => [] }, shift }\n"),
    ("global/_package", "sub new { bless { value => 0 }, shift }\n"),
];

/// The same runtime without `rt/link_error`, which every package references.
const UNITS_WITHOUT_LINK_ERROR: &[(&str, &str)] = &[
    ("rt/_package", "use strict;\n"),
    ("rt/trap", "sub trap {\n    die bless({ message => $_[0] }, 'Rt::Trap');\n}\n"),
    ("memory/_package", "sub new { bless { bytes => '' }, shift }\n"),
];

fn bundler() -> RuntimeBundler {
    perl::bundler(UNITS).expect("runtime units are well-formed")
}

fn no_floats() -> FloatTexts {
    FloatTexts { f32s: vec![], f64s: vec![] }
}

/// One function `(i32) -> i32` with the body `body`.
fn module_of(body: Vec<Stmt>) -> Module {
    Module {
        types: vec![FuncType { params: vec![ValType::I32], results: vec![ValType::I32] }],
        imported_funcs: vec![],
        imported_globals: vec![],
        imported_memory: None,
        memory: None,
        imported_tables: vec![],
        tables: vec![],
        elems: vec![],
        funcs: vec![Func { type_idx: 0, locals: vec![], temps: vec![], body }],
        debug_files: vec![],
        globals: vec![],
        datas: vec![],
        exports: vec![],
        start: None,
    }
}

fn return_param() -> Vec<Stmt> {
    vec![Stmt::Return { values: vec![Expr::LocalGet(0)] }]
}

fn options(mode: Mode, runtime: RuntimeLinkage, data_file: Option<DataFileConfig>) -> GenOptions {
    named("Demo::Mod", mode, runtime, data_file)
}

fn named(name: &str, mode: Mode, runtime: RuntimeLinkage, data_file: Option<DataFileConfig>) -> GenOptions {
    GenOptions { mode, module_name: name.to_string(), runtime, default_wasi: false, data_file }
}

fn gen<'a>(module: &'a Module, floats: &'a FloatTexts, bundler: &'a RuntimeBundler) -> PerlGen<'a> {
    PerlGen {
        module,
        rt_name: "Demo::Rt".to_string(),
        floats,
        bundler,
        default_wasi: false,
        data_file: false,
        data_offsets: vec![],
    }
}

fn bin(op: BinOp, a: Expr, b: Expr) -> Expr {
    Expr::Bin(op, Box::new(a), Box::new(b))
}

#[test]
fn masked_add_is_spelled_inline() {
    let m = module_of(return_param());
    let (f, b) = (no_floats(), bundler());
    let g = gen(&m, &f, &b);
    let mut uses = Vec::new();
    let text = g.expr(&bin(BinOp::I32Add, Expr::LocalGet(0), Expr::I32Const(1)), &mut uses);
    assert_eq!(text, "((($l0) + (1)) & 0xFFFFFFFF)");
    assert!(uses.is_empty());
}

#[test]
fn multiply_goes_through_the_runtime() {
    let m = module_of(return_param());
    let (f, b) = (no_floats(), bundler());
    let g = gen(&m, &f, &b);
    let mut uses = Vec::new();
    let text = g.expr(&bin(BinOp::I32Mul, Expr::Temp(Temp { depth: 2, ty: ValType::I32 }), Expr::I32Const(7)), &mut uses);
    assert_eq!(text, "Demo::Rt::i32_mul($s2, 7)");
    assert_eq!(uses, vec!["rt/i32_mul".to_string()]);
}

#[test]
fn local_set_and_return_lines_are_indented() {
    let m = module_of(return_param());
    let (f, b) = (no_floats(), bundler());
    let g = gen(&m, &f, &b);
    let mut uses = Vec::new();
    let mut w = CodeWriter::new("    ");
    w.indent();
    g.emit_stmt(&mut w, &Stmt::LocalSet { idx: 3, expr: Expr::I32Const(5) }, &mut uses);
    g.emit_stmt(&mut w, &Stmt::Return { values: vec![Expr::LocalGet(3)] }, &mut uses);
    assert_eq!(w.finish(), "    $l3 = 5;\n    return $l3;\n");
}

#[test]
fn conditional_branch_to_return_wraps_the_return() {
    let m = module_of(return_param());
    let (f, b) = (no_floats(), bundler());
    let g = gen(&m, &f, &b);
    let mut uses = Vec::new();
    let mut w = CodeWriter::new("    ");
    let target = BrTarget::Return { values: vec![Expr::I32Const(0)] };
    g.emit_stmt(&mut w, &Stmt::BrIf { cond: Expr::LocalGet(0), target }, &mut uses);
    assert_eq!(w.finish(), "if (($l0) != 0) {\n    return 0;\n}\n");
}

#[test]
fn emit_seq_concatenates_its_statements() {
    let m = module_of(return_param());
    let (f, b) = (no_floats(), bundler());
    let g = gen(&m, &f, &b);
    let mut uses = Vec::new();
    let mut w = CodeWriter::new("  ");
    let stmts = vec![
        Stmt::LocalSet { idx: 0, expr: Expr::I32Const(1) },
        Stmt::LocalSet { idx: 1, expr: Expr::LocalGet(0) },
    ];
    g.emit_seq(&mut w, &stmts, &mut uses);
    assert_eq!(w.finish(), "$l0 = 1;\n$l1 = $l0;\n");
}

#[test]
fn unreferenced_block_emits_only_its_body() {
    let m = module_of(return_param());
    let (f, b) = (no_floats(), bundler());
    let g = gen(&m, &f, &b);
    let mut uses = Vec::new();
    let mut w = CodeWriter::new("    ");
    let block = Stmt::Block {
        label: Label { id: 4, referenced: false },
        body: vec![Stmt::LocalSet { idx: 0, expr: Expr::I32Const(9) }],
    };
    g.emit_stmt(&mut w, &block, &mut uses);
    let text = w.finish();
    assert!(text.contains("$l0 = 9;\n"), "{text}");
}

#[test]
fn library_script_is_package_between_header_and_true_value() {
    let m = module_of(return_param());
    let (f, b) = (no_floats(), bundler());
    let opts = options(Mode::Library, RuntimeLinkage::Embedded, None);
    let files = PerlBackend.generate(&m, &opts, &b, &f).expect("supported module");
    assert_eq!(files.len(), 1);
    assert_eq!(files[0].name, "Demo::Mod.pl");
    let text = String::from_utf8(files[0].contents.clone()).expect("utf-8");
    assert!(text.starts_with("#!/usr/bin/env perl\n# Generated by dewasm. Do not edit.\n\n"), "{text}");
    assert!(text.ends_with("}\n\n1;\n"), "{text}");
    assert!(text.contains("package Demo::Mod::Rt;"), "{text}");
    assert!(text.contains("package main;\n\npackage Demo::Mod {\n"), "{text}");
    assert!(text.contains("sub link_error"), "{text}");
    assert!(text.contains("sub exhausted"), "{text}");
    assert!(!text.contains("sub exit_with"), "{text}");
    assert!(!text.contains("$DATA_BLOB = do"), "{text}");
}

#[test]
fn standalone_script_runs_start_and_maps_exit_and_trap() {
    let m = module_of(return_param());
    let (f, b) = (no_floats(), bundler());
    let opts = options(Mode::Standalone, RuntimeLinkage::Embedded, None);
    let files = PerlBackend.generate(&m, &opts, &b, &f).expect("supported module");
    let text = String::from_utf8(files[0].contents.clone()).expect("utf-8");
    assert!(text.contains("sub exit_with"), "{text}");
    assert!(text.contains("sub trap"), "{text}");
    assert!(text.contains("\npackage main;\n\nmy $_inst = Program->new({});\n"), "{text}");
    assert!(text.contains("$_e->isa('Program::Rt::Exit')"), "{text}");
    assert!(text.contains("$_e->isa('Program::Rt::Trap')"), "{text}");
    assert!(text.ends_with("    die $_e;\n}\nexit(0);\n"), "{text}");
}

#[test]
fn aliased_runtime_is_bound_by_a_stash_alias() {
    let m = module_of(return_param());
    let (f, b) = (no_floats(), bundler());
    let (src, uses) =
        generate_package(&m, "Demo", &RuntimeLinkage::Alias("Shared".to_string()), false, vec![], false, &b, &f)
            .expect("supported module");
    assert!(src.starts_with("BEGIN { *Rt:: = \\%Shared::; }\n\npackage Demo {\n"), "{src}");
    assert!(uses.contains(&"rt/link_error".to_string()));
    let (src, _) = generate_package(&m, "Demo", &RuntimeLinkage::Alias("Rt".to_string()), false, vec![], false, &b, &f)
        .expect("supported module");
    assert!(src.starts_with("package Demo {\n"), "{src}");
}

#[test]
fn embedded_runtime_with_a_missing_unit_is_refused() {
    let m = module_of(return_param());
    let f = no_floats();
    let b = perl::bundler(UNITS_WITHOUT_LINK_ERROR).expect("runtime units are well-formed");
    let err = generate_package(&m, "Demo", &RuntimeLinkage::Embedded, false, vec![], false, &b, &f).unwrap_err();
    assert!(matches!(err, BackendError::UnknownUnit { ref id } if id == "rt/link_error"), "{err:?}");
}

#[test]
fn data_segments_go_to_the_sidecar_in_order() {
    let mut m = module_of(return_param());
    m.memory = Some(Memory { min_pages: 1, max_pages: None });
    m.datas = vec![
        Data { offset: Some(Expr::I32Const(0)), data: vec![1, 2] },
        Data { offset: Some(Expr::I32Const(16)), data: vec![3] },
    ];
    let (f, b) = (no_floats(), bundler());
    let cfg = DataFileConfig { sidecar_name: "demo.bin".to_string() };
    let opts = options(Mode::Library, RuntimeLinkage::Alias("Rt".to_string()), Some(cfg));
    let files = PerlBackend.generate(&m, &opts, &b, &f).expect("supported module");
    assert_eq!(files.len(), 2);
    assert_eq!(files[1].name, "demo.bin");
    assert_eq!(files[1].contents, vec![1, 2, 3]);
    let text = String::from_utf8(files[0].contents.clone()).expect("utf-8");
    assert!(text.contains("use File::Basename ();\nmy $DATA_BLOB = do {\n"), "{text}");
    assert!(text.contains("File::Basename::dirname(__FILE__) . '/' . 'demo.bin')"), "{text}");
}

#[test]
fn sidecar_without_data_writes_one_file() {
    let m = module_of(return_param());
    let (f, b) = (no_floats(), bundler());
    let cfg = DataFileConfig { sidecar_name: "demo.bin".to_string() };
    let opts = options(Mode::Library, RuntimeLinkage::Alias("Rt".to_string()), Some(cfg));
    let files = PerlBackend.generate(&m, &opts, &b, &f).expect("supported module");
    assert_eq!(files.len(), 1);
    let text = String::from_utf8(files[0].contents.clone()).expect("utf-8");
    assert!(!text.contains("$DATA_BLOB = do"), "{text}");
}

#[test]
fn shared_runtime_is_the_bundle_then_main() {
    let b = bundler();
    let seeds = vec!["rt/trap".to_string()];
    let bundle = b.bundle(&seeds, 0).expect("known units");
    let shared = perl::shared_runtime(&b, &seeds).expect("known units");
    assert_eq!(shared, format!("{bundle}package main;\n"));
    let twice = vec!["rt/trap".to_string(), "rt/trap".to_string(), "rt/_package".to_string()];
    assert_eq!(b.bundle(&twice, 0).expect("known units"), bundle);
    let all: Vec<String> = b.units().iter().map(|u| u.id.clone()).collect();
    assert_eq!(b.bundle_all(0).expect("known units"), b.bundle(&all, 0).expect("known units"));
}

#[test]
fn exception_statements_are_not_lowered() {
    let m = module_of(return_param());
    assert!(perl_emittable(&m, false));
    let throwing = module_of(vec![Stmt::Throw { tag: 0, args: vec![] }]);
    assert!(!perl_emittable(&throwing, false));
    let nested = module_of(vec![Stmt::Block {
        label: Label { id: 0, referenced: false },
        body: vec![Stmt::ThrowRef { exn: Expr::LocalGet(0) }],
    }]);
    assert!(!perl_emittable(&nested, false));
    let mut bad_type = module_of(return_param());
    bad_type.funcs[0].type_idx = 3;
    assert!(!perl_emittable(&bad_type, false));
}

#[test]
fn package_units_are_distinct_and_sorted() {
    let m = module_of(return_param());
    let (f, b) = (no_floats(), bundler());
    let (src, units) = generate_package_with_units(&m, "Demo", &RuntimeLinkage::Embedded, false, &b, &f)
        .expect("supported module");
    assert!(units.windows(2).all(|w| w[0] < w[1]), "{units:?}");
    assert!(units.contains(&"rt/exhausted".to_string()), "{units:?}");
    assert!(units.contains(&"rt/link_error".to_string()), "{units:?}");
    assert!(src.contains("package Demo::Rt;"), "{src}");
    assert!(src.contains("package main;\n\npackage Demo {\n"), "{src}");
}

/// A function `(i32) -> i32` with one extra local and the body `body`.
fn module_with_local(body: Vec<Stmt>) -> Module {
    let mut m = module_of(body);
    m.funcs[0].locals = vec![ValType::I32];
    m
}

fn label(id: u32) -> Label {
    Label { id, referenced: true }
}

fn to(label: u32, is_loop: bool) -> BrTarget {
    BrTarget::Label { label, is_loop, assigns: vec![] }
}

fn shape(m: &Module) -> String {
    let (f, b) = (no_floats(), bundler());
    let (source, _) = generate_package_with_units(m, "Shape", &RuntimeLinkage::Alias("Rt".to_string()), false, &b, &f)
        .expect("generates");
    source
}

#[test]
fn multi_level_br_uses_labels() {
    let eq = |c: u32| bin(BinOp::I32Eq, Expr::LocalGet(0), Expr::I32Const(c));
    let m = module_with_local(vec![
        Stmt::Block {
            label: label(0),
            body: vec![
                Stmt::Block {
                    label: label(1),
                    body: vec![Stmt::Loop {
                        label: label(2),
                        body: vec![
                            Stmt::BrIf { cond: eq(1), target: to(0, false) },
                            Stmt::BrIf { cond: eq(2), target: to(1, false) },
                            Stmt::LocalSet { idx: 0, expr: bin(BinOp::I32Sub, Expr::LocalGet(0), Expr::I32Const(1)) },
                            Stmt::Br(to(2, true)),
                        ],
                    }],
                },
                Stmt::LocalSet { idx: 1, expr: Expr::I32Const(7) },
            ],
        },
        Stmt::Return { values: vec![Expr::LocalGet(1)] },
    ]);
    let source = shape(&m);
    assert!(source.contains(": while (1) {"), "loop frame:\n{source}");
    assert!(source.contains("next L"), "loop back-edge:\n{source}");
    let lasts = source.matches("last L").count();
    assert!(lasts >= 3, "multi-level exits (got {lasts}):\n{source}");
    assert!(!source.contains("__br"), "flag cascade leaked:\n{source}");
    assert!(!source.contains("$_br"), "flag register leaked:\n{source}");
}

#[test]
fn br_table_dispatches_to_labels() {
    let ret = |v: u32| Stmt::Return { values: vec![Expr::I32Const(v)] };
    let m = module_of(vec![
        Stmt::Block {
            label: label(0),
            body: vec![
                Stmt::Block {
                    label: label(1),
                    body: vec![
                        Stmt::Block {
                            label: label(2),
                            body: vec![Stmt::BrTable {
                                index: Expr::LocalGet(0),
                                targets: vec![to(0, false), to(1, false)],
                                default: to(2, false),
                            }],
                        },
                        ret(2),
                    ],
                },
                ret(1),
            ],
        },
        ret(0),
    ]);
    let source = shape(&m);
    assert!(source.contains("$_bt == 0"), "dispatch:\n{source}");
    assert!(source.matches("last L").count() >= 3, "targets:\n{source}");
}

/// One exported `add (i32, i32) -> i32`.
fn add_module() -> Module {
    let mut m = module_of(vec![Stmt::Return {
        values: vec![bin(BinOp::I32Add, Expr::LocalGet(0), Expr::LocalGet(1))],
    }]);
    m.types[0].params = vec![ValType::I32, ValType::I32];
    m.exports = vec![Export { name: "add".to_string(), kind: ExportKind::Func(0) }];
    m
}

#[test]
fn nested_name_runs_with_a_nested_runtime() {
    let m = add_module();
    let (f, b) = (no_floats(), bundler());
    let opts = named("Dewasm::Nested::Add", Mode::Library, RuntimeLinkage::Embedded, None);
    let files = PerlBackend.generate(&m, &opts, &b, &f).expect("convert");
    let source = String::from_utf8(files[0].contents.clone()).expect("utf-8");
    assert!(source.contains("package Dewasm::Nested::Add"));
    assert!(source.contains("package Dewasm::Nested::Add::Rt"));
}

#[test]
fn invalid_library_names_are_refused() {
    let m = add_module();
    let (f, b) = (no_floats(), bundler());
    for name in ["sqlite3-shell", "", "A::", "3Add", "Add::"] {
        let opts = named(name, Mode::Library, RuntimeLinkage::Embedded, None);
        let err = match PerlBackend.generate(&m, &opts, &b, &f) {
            Ok(_) => panic!("{name:?} was accepted"),
            Err(e) => e,
        };
        assert!(err.message().contains("invalid perl module name"), "{name:?}: {}", err.message());
    }
}

#[test]
fn standalone_output_is_the_fixed_program_package() {
    let m = add_module();
    let (f, b) = (no_floats(), bundler());
    for name in ["sqlite3-shell", "Add"] {
        let opts = named(name, Mode::Standalone, RuntimeLinkage::Embedded, None);
        let files = PerlBackend.generate(&m, &opts, &b, &f).expect("convert");
        assert_eq!(files[0].name, format!("{name}.pl"));
        let source = String::from_utf8(files[0].contents.clone()).expect("utf-8");
        assert!(source.contains("package Program"), "{source}");
    }
}

#[test]
fn package_names_follow_the_perl_grammar() {
    for ok in ["Add", "Dewasm::Sqlite3", "_x", "a_1::B"] {
        assert!(perl::check_module_name(ok).is_ok(), "{ok}");
    }
    for bad in ["sqlite3-shell", "", "A::", "3Add", "Add::", "::A", "A:::B"] {
        assert!(perl::check_module_name(bad).is_err(), "{bad}");
    }
}
