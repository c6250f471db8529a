use dewasm_backend::bundler::{has_wasi_p1, wasi_bundled, RuntimeBundler, RuntimeScope};
use dewasm_backend::ir::{ImportedFunc, Module};
use dewasm_backend::support::BackendError;
use dewasm_backend::{perl, python, ruby};

/// A small runtime in the shape of the Perl unit tree: one prelude per package, a few methods.
const PERL_UNITS: &[(&str, &str)] = &[
    ("rt/_package", "use strict;\nuse warnings;\n"),
    ("rt/trap", "# requires: rt/_package\n\nsub trap {\n    my ($msg) = @_;\n    die bless({ message => $msg }, 'Rt::Trap');\n}\n\n"),
    ("rt/exit", "sub exit_with {\n    die bless({ code => $_[0] }, 'Rt::Exit');\n}\n"),
    ("memory/_package", "# requires: rt/trap\nsub new { bless { bytes => '' }, shift }\n"),
    ("memory/i32_load", "# requires: memory/_package, rt/trap\nsub i32_load {\n    my ($self, $a) = @_;\n    return unpack('V', substr($self->{bytes}, $a, 4));\n}\n"),
    ("table/_package", "sub new { bless { elems => [] }, shift }\n"),
    ("global/_package", "sub new { bless { value => 0 }, shift }\n"),
    ("wasi/fd_write", "# requires: memory/i32_load\nsub fd_write { return 0; }\n"),
];

/// The Python counterpart, indented by four spaces a level in the sources.
const PYTHON_UNITS: &[(&str, &str)] = &[
    ("rt/_module", "import struct\n"),
    ("rt/trap", "class Trap(Exception):\n    pass\n"),
    ("rt/s32", "def s32(x):\n    return x - 0x100000000 if x & 0x80000000 else x\n"),
    ("memory/_class", "# requires: rt/trap\ndef __init__(self, pages):\n    self.data = bytearray(pages * 65536)\n"),
    ("memory/i32_load", "# requires: rt/trap\ndef i32_load(self, a):\n    if a + 4 > len(self.data):\n        raise Rt.Trap(\"out of bounds memory access\")\n    return struct.unpack_from('<I', self.data, a)[0]\n"),
    ("table/_class", "def __init__(self):\n    self.elems = []\n"),
    ("global/_class", "def __init__(self, v):\n    self.value = v\n"),
    ("wasi/_class", "# requires: memory/_class\ndef __init__(self, args):\n    self.args = args\n"),
    ("wasi/fd_write", "# requires: memory/i32_load\ndef fd_write(self, fd, iovs, n, out):\n    return 0  # Rt.s32 is not needed here\n"),
];

/// The Ruby counterpart, indented by two spaces a level in the sources.
const RUBY_UNITS: &[(&str, &str)] = &[
    ("rt/_module", "MASK32 = 0xffffffff\n"),
    ("rt/trap", "class Trap < StandardError; end\n"),
    ("memory/_class", "# requires: rt/trap\ndef initialize(pages)\n  @bytes = IO::Buffer.new(pages * 65536)\nend\n"),
    ("memory/i32_load", "# requires: memory/_class\ndef i32_load(a)\n  @bytes.get_value(:u32, a)\nend\n"),
    ("table/_class", "def initialize\n  @elems = []\nend\n"),
    ("global/_class", "def initialize(v)\n  @value = v\nend\n"),
    ("wasi/_class", "def initialize(args)\n  @args = args\nend\n"),
];

#[test]
fn all_units_bundle() {
    let b = perl::bundler(PERL_UNITS).expect("runtime units are well-formed");
    b.bundle_all(0).expect("full bundle resolves");
}

#[test]
fn lib_all_units_bundle() {
    let b = python::bundler(PYTHON_UNITS).expect("runtime units are well-formed");
    b.bundle_all(0).expect("full bundle resolves");
    let b = ruby::bundler(RUBY_UNITS).expect("runtime units are well-formed");
    b.bundle_all(0).expect("full bundle resolves");
}

/// The contents of every single-line string literal on `line`, stopping at an unquoted `#`
/// comment.
fn string_literals(line: &str) -> Vec<String> {
    let mut out = Vec::new();
    let mut quote: Option<char> = None;
    let mut buf = String::new();
    let mut chars = line.chars();
    while let Some(c) = chars.next() {
        match quote {
            Some(q) => {
                if c == '\\' {
                    if let Some(escaped) = chars.next() {
                        buf.push(c);
                        buf.push(escaped);
                    }
                } else if c == q {
                    out.push(std::mem::take(&mut buf));
                    quote = None;
                } else {
                    buf.push(c);
                }
            }
            None => match c {
                '#' => break,
                '"' | '\'' => quote = Some(c),
                _ => {}
            },
        }
    }
    out
}

#[test]
fn no_rt_reference_inside_a_string_literal() {
    let b = python::bundler(PYTHON_UNITS).expect("runtime units are well-formed");
    let mut problems = Vec::new();
    for unit in b.units() {
        assert!(
            !unit.body.contains("\"\"\"") && !unit.body.contains("'''"),
            "{}: triple-quoted string, which the rename lint cannot scan",
            unit.id
        );
        for (n, line) in unit.body.lines().enumerate() {
            for lit in string_literals(line) {
                if lit.contains("Rt.") {
                    problems.push(format!("{}:{}: `Rt.` inside the string literal \"{lit}\"", unit.id, n + 1));
                }
            }
        }
    }
    assert!(
        problems.is_empty(),
        "the Embedded runtime rename would rewrite these string literals:\n{}",
        problems.join("\n")
    );
}

fn scopes() -> Vec<RuntimeScope> {
    vec![
        RuntimeScope { prefix: "rt", open: "", close: "", prelude: Some("rt/_root") },
        RuntimeScope { prefix: "box", open: "class Box", close: "end", prelude: Some("box/_class") },
        RuntimeScope { prefix: "bare", open: "class Bare", close: "end", prelude: None },
    ]
}

fn ids(b: &RuntimeBundler) -> Vec<&str> {
    b.units().iter().map(|u| u.id.as_str()).collect()
}

#[test]
fn units_are_read_sorted_with_their_requirements_and_trimmed_bodies() {
    let b = RuntimeBundler::new(
        "#",
        "  ",
        0,
        scopes(),
        &[
            ("box/put", "# requires: box/get,  rt/_root ,\n# requires: bare/x\n\nput\n  body\n\n\n"),
            ("rt/_root", "root\n"),
            ("box/get", "get\n"),
            ("box/_class", "init\n"),
            ("bare/x", "\n\nx\n"),
        ],
    )
    .expect("well-formed");
    assert_eq!(ids(&b), vec!["bare/x", "box/_class", "box/get", "box/put", "rt/_root"]);
    let put = &b.units()[3];
    assert_eq!(put.requires, vec!["box/get".to_string(), "rt/_root".to_string(), "bare/x".to_string()]);
    assert_eq!(put.body, "put\n  body");
    assert_eq!(b.units()[0].body, "x");
    assert!(b.has_unit("box/get"));
    assert!(!b.has_unit("box/missing"));
}

#[test]
fn a_duplicate_unit_is_refused_at_its_second_occurrence() {
    let r = RuntimeBundler::new("#", "  ", 0, scopes(), &[("rt/_root", "a"), ("rt/x", "b"), ("rt/_root", "c")]);
    match r {
        Err(e @ BackendError::DuplicateUnit { .. }) => assert_eq!(e.message(), "duplicate runtime unit rt/_root"),
        _ => panic!("expected a duplicate"),
    }
}

#[test]
fn an_unknown_requirement_is_refused() {
    let r = RuntimeBundler::new("#", "  ", 0, scopes(), &[("rt/_root", "a"), ("rt/x", "# requires: rt/nope\nb")]);
    match r {
        Err(e @ BackendError::UnknownRequire { .. }) => {
            assert_eq!(e.message(), "unit rt/x requires unknown unit rt/nope")
        }
        _ => panic!("expected an unknown requirement"),
    }
}

#[test]
fn a_unit_outside_every_scope_is_refused() {
    let r = RuntimeBundler::new("#", "  ", 0, scopes(), &[("rt/_root", "a"), ("zzz/x", "b")]);
    match r {
        Err(e @ BackendError::UnknownScope { .. }) => assert_eq!(e.message(), "unit zzz/x has unknown scope zzz"),
        _ => panic!("expected an unknown scope"),
    }
}

#[test]
fn the_closure_pulls_requirements_preludes_and_the_root_prelude() {
    let b = RuntimeBundler::new(
        "#",
        "  ",
        0,
        scopes(),
        &[
            ("rt/_root", "root"),
            ("rt/a", "a"),
            ("rt/b", "# requires: rt/a\nb"),
            ("box/_class", "init"),
            ("box/get", "# requires: rt/b\nget"),
            ("bare/x", "x"),
        ],
    )
    .expect("well-formed");
    let cl = b.closure(&["box/get".to_string()]).expect("closure");
    assert_eq!(cl, vec!["box/_class", "box/get", "rt/_root", "rt/a", "rt/b"]);
    let cl = b.closure(&[]).expect("closure");
    assert_eq!(cl, vec!["rt/_root"]);
    match b.closure(&["rt/missing".to_string()]) {
        Err(e @ BackendError::UnknownUnit { .. }) => assert_eq!(e.message(), "unknown runtime unit rt/missing"),
        _ => panic!("expected an unknown unit"),
    }
}

#[test]
fn the_bundle_groups_scopes_in_order_with_the_prelude_first() {
    let b = RuntimeBundler::new(
        "#",
        "  ",
        2,
        scopes(),
        &[
            ("rt/_root", "root"),
            ("rt/a", "def a\n  1\nend"),
            ("box/_class", "init"),
            ("box/get", "# requires: rt/a\nget"),
            ("bare/x", "x"),
        ],
    )
    .expect("well-formed");
    let text = b.bundle(&["box/get".to_string(), "bare/x".to_string()], 0).expect("bundle");
    assert_eq!(
        text,
        "root\n\ndef a\n  1\nend\n\nclass Box\n\n  init\n\n  get\nend\n\nclass Bare\n\n  x\nend\n"
    );
    let text = b.bundle(&[], 1).expect("bundle");
    assert_eq!(text, "  root\n");
}

#[test]
fn shared_runtimes_wrap_the_bundle() {
    let b = perl::bundler(PERL_UNITS).expect("well-formed");
    let text = perl::shared_runtime(&b, &["rt/exit".to_string()]).expect("bundle");
    assert!(text.starts_with("package Rt;\n"));
    assert!(text.ends_with("package main;\n"));
    let b = python::bundler(PYTHON_UNITS).expect("well-formed");
    let text = python::shared_runtime(&b, &[]).expect("bundle");
    assert_eq!(text, "class Rt:\n\timport struct\n");
    let b = ruby::bundler(RUBY_UNITS).expect("well-formed");
    let text = ruby::shared_runtime(&b, &[]).expect("bundle");
    assert_eq!(text, "module Rt\n\tMASK32 = 0xffffffff\nend\n");
}

#[test]
fn python_unit_indentation_is_reemitted_in_tabs() {
    let b = python::bundler(PYTHON_UNITS).expect("well-formed");
    let text = b.bundle(&["rt/trap".to_string()], 0).expect("bundle");
    assert_eq!(text, "import struct\n\nclass Trap(Exception):\n\tpass\n");
}

#[test]
fn wasi_functions_are_found_by_their_unit() {
    let b = perl::bundler(PERL_UNITS).expect("well-formed");
    assert!(has_wasi_p1(&b, "fd_write"));
    assert!(!has_wasi_p1(&b, "fd_read"));
    let module = |imports: Vec<(&str, &str)>| Module {
        types: vec![],
        imported_funcs: imports
            .into_iter()
            .map(|(m, n)| ImportedFunc { module: m.to_string(), name: n.to_string(), type_idx: 0 })
            .collect(),
        imported_globals: vec![],
        imported_memory: None,
        memory: None,
        imported_tables: vec![],
        tables: vec![],
        elems: vec![],
        funcs: vec![],
        debug_files: vec![],
        globals: vec![],
        datas: vec![],
        exports: vec![],
        start: None,
    };
    assert!(wasi_bundled(&module(vec![("wasi_snapshot_preview1", "fd_write")]), true, &b));
    assert!(wasi_bundled(&module(vec![("env", "f"), ("wasi_unstable", "fd_write")]), true, &b));
    assert!(!wasi_bundled(&module(vec![("wasi_snapshot_preview1", "fd_write")]), false, &b));
    assert!(!wasi_bundled(&module(vec![("wasi_snapshot_preview1", "fd_read")]), true, &b));
    assert!(!wasi_bundled(&module(vec![("env", "fd_write")]), true, &b));
}
