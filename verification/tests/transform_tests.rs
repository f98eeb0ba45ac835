use runner_directives::ast::{ModuleAst, Span, Stmt};
use runner_directives::transform::{
    DirectiveLocation, RunnerErrorKind, RunnerTransform, transform_module, validate_module,
};

fn lit(value: &str, lo: usize, hi: usize) -> Stmt {
    Stmt::Lit { value: value.to_string(), span: Span { lo, hi } }
}

fn plain() -> Stmt {
    Stmt::Other { children: Vec::new() }
}

fn is_plain(s: &Stmt) -> bool {
    match s {
        Stmt::Other { children } => children.is_empty(),
        _ => false,
    }
}

#[test]
fn module_directive_stripped_without_diagnostics() {
    let mut m = ModuleAst { body: vec![lit("use runner", 0, 12), plain()] };
    let diags = transform_module(&mut m);
    assert_eq!(diags.len(), 0);
    assert_eq!(m.body.len(), 1);
    assert!(is_plain(&m.body[0]));
}

#[test]
fn non_async_function_directive_flagged_and_stripped() {
    let mut m = ModuleAst {
        body: vec![
            Stmt::Func { is_async: false, body: vec![lit("use runner", 10, 22), plain()] },
        ],
    };
    let diags = transform_module(&mut m);
    assert_eq!(diags.len(), 1);
    assert_eq!(
        diags[0],
        RunnerErrorKind::NonAsyncFunction { span: Span { lo: 10, hi: 22 } }
    );
    match &m.body[0] {
        Stmt::Func { is_async, body } => {
            assert!(!is_async);
            assert_eq!(body.len(), 1);
            assert!(is_plain(&body[0]));
        },
        _ => panic!("expected the function to survive"),
    }
}

#[test]
fn async_function_directive_accepted() {
    let mut m = ModuleAst {
        body: vec![Stmt::Func { is_async: true, body: vec![lit("use runner", 5, 17)] }],
    };
    let diags = transform_module(&mut m);
    assert_eq!(diags.len(), 0);
    match &m.body[0] {
        Stmt::Func { body, .. } => assert_eq!(body.len(), 0),
        _ => panic!("expected the function to survive"),
    }
}

#[test]
fn repeated_directive_flagged_misplaced_and_both_removed() {
    let mut m = ModuleAst {
        body: vec![
            Stmt::Func {
                is_async: true,
                body: vec![lit("use runner", 5, 17), plain(), lit("use runner", 40, 52)],
            },
        ],
    };
    let diags = transform_module(&mut m);
    assert_eq!(diags.len(), 1);
    assert_eq!(
        diags[0],
        RunnerErrorKind::MisplacedDirective {
            span: Span { lo: 40, hi: 52 },
            location: DirectiveLocation::FunctionBody,
        }
    );
    match &m.body[0] {
        Stmt::Func { body, .. } => {
            assert_eq!(body.len(), 1);
            assert!(is_plain(&body[0]));
        },
        _ => panic!("expected the function to survive"),
    }
}

#[test]
fn misspelled_directive_flagged_and_removed() {
    let mut m = ModuleAst {
        body: vec![Stmt::Func { is_async: true, body: vec![lit("use runnerr", 5, 18)] }],
    };
    let diags = transform_module(&mut m);
    assert_eq!(diags.len(), 1);
    assert_eq!(
        diags[0],
        RunnerErrorKind::MisspelledDirective {
            span: Span { lo: 5, hi: 18 },
            directive: "use runnerr".to_string(),
        }
    );
    match &m.body[0] {
        Stmt::Func { body, .. } => assert_eq!(body.len(), 0),
        _ => panic!("expected the function to survive"),
    }
}

#[test]
fn distant_literal_left_untouched() {
    let mut m = ModuleAst {
        body: vec![Stmt::Func { is_async: true, body: vec![lit("use walker", 5, 17)] }],
    };
    let diags = transform_module(&mut m);
    assert_eq!(diags.len(), 0);
    match &m.body[0] {
        Stmt::Func { body, .. } => match &body[0] {
            Stmt::Lit { value, .. } => assert_eq!(value, "use walker"),
            _ => panic!("expected the literal to survive"),
        },
        _ => panic!("expected the function to survive"),
    }
}

#[test]
fn module_directive_after_other_content_misplaced() {
    let mut m = ModuleAst { body: vec![plain(), lit("use runner", 30, 42)] };
    let diags = transform_module(&mut m);
    assert_eq!(diags.len(), 1);
    assert_eq!(
        diags[0],
        RunnerErrorKind::MisplacedDirective {
            span: Span { lo: 30, hi: 42 },
            location: DirectiveLocation::Module,
        }
    );
    assert_eq!(m.body.len(), 1);
}

#[test]
fn arrow_body_directive_stripped_without_async_check() {
    let mut m = ModuleAst {
        body: vec![Stmt::Arrow { arrow_body: vec![lit("use runner", 3, 15), plain()] }],
    };
    let diags = transform_module(&mut m);
    assert_eq!(diags.len(), 0);
    match &m.body[0] {
        Stmt::Arrow { arrow_body } => {
            assert_eq!(arrow_body.len(), 1);
            assert!(is_plain(&arrow_body[0]));
        },
        _ => panic!("expected the arrow to survive"),
    }
}

#[test]
fn nested_function_scope_is_validated() {
    let mut m = ModuleAst {
        body: vec![
            Stmt::Other {
                children: vec![
                    Stmt::Func { is_async: false, body: vec![lit("use runner", 50, 62)] },
                ],
            },
        ],
    };
    let diags = transform_module(&mut m);
    assert_eq!(diags.len(), 1);
    assert_eq!(
        diags[0],
        RunnerErrorKind::NonAsyncFunction { span: Span { lo: 50, hi: 62 } }
    );
}

#[test]
fn transform_is_idempotent_on_stripped_tree() {
    let mut m = ModuleAst {
        body: vec![
            lit("use runner", 0, 12),
            Stmt::Func {
                is_async: false,
                body: vec![lit("use runnerr", 20, 33), plain()],
            },
        ],
    };
    let first = transform_module(&mut m);
    assert_eq!(first.len(), 1);
    let second = transform_module(&mut m);
    assert_eq!(second.len(), 0);
    assert_eq!(m.body.len(), 1);
    match &m.body[0] {
        Stmt::Func { body, .. } => {
            assert_eq!(body.len(), 1);
            assert!(is_plain(&body[0]));
        },
        _ => panic!("expected the function to survive"),
    }
}

#[test]
fn candidate_after_plain_statements_is_still_recognized() {
    // The first string literal of a scope is the candidate even when plain
    // statements precede it; in a non-async function it is flagged.
    let mut m = ModuleAst {
        body: vec![
            Stmt::Func { is_async: false, body: vec![plain(), lit("use runner", 25, 37)] },
        ],
    };
    let diags = transform_module(&mut m);
    assert_eq!(diags.len(), 1);
    assert_eq!(
        diags[0],
        RunnerErrorKind::NonAsyncFunction { span: Span { lo: 25, hi: 37 } }
    );
}

#[test]
fn every_later_duplicate_is_flagged() {
    let mut m = ModuleAst {
        body: vec![
            Stmt::Func {
                is_async: true,
                body: vec![
                    lit("use runner", 0, 12),
                    lit("use runner", 20, 32),
                    plain(),
                    lit("use runner", 40, 52),
                ],
            },
        ],
    };
    let diags = transform_module(&mut m);
    assert_eq!(diags.len(), 2);
    assert_eq!(
        diags[0],
        RunnerErrorKind::MisplacedDirective {
            span: Span { lo: 20, hi: 32 },
            location: DirectiveLocation::FunctionBody,
        }
    );
    assert_eq!(
        diags[1],
        RunnerErrorKind::MisplacedDirective {
            span: Span { lo: 40, hi: 52 },
            location: DirectiveLocation::FunctionBody,
        }
    );
    match &m.body[0] {
        Stmt::Func { body, .. } => {
            assert_eq!(body.len(), 1);
            assert!(is_plain(&body[0]));
        },
        _ => panic!("expected the function to survive"),
    }
}

#[test]
fn module_typo_flagged_regardless_of_position() {
    let mut m = ModuleAst { body: vec![plain(), lit("use runnr", 14, 25)] };
    let diags = transform_module(&mut m);
    assert_eq!(diags.len(), 1);
    assert_eq!(
        diags[0],
        RunnerErrorKind::MisspelledDirective {
            span: Span { lo: 14, hi: 25 },
            directive: "use runnr".to_string(),
        }
    );
    assert_eq!(m.body.len(), 1);
}

#[test]
fn module_pragma_after_plain_literal_is_misplaced() {
    let mut m = ModuleAst { body: vec![lit("use strict", 0, 12), lit("use runner", 14, 26)] };
    let diags = transform_module(&mut m);
    assert_eq!(diags.len(), 1);
    assert_eq!(
        diags[0],
        RunnerErrorKind::MisplacedDirective {
            span: Span { lo: 14, hi: 26 },
            location: DirectiveLocation::Module,
        }
    );
    // The unrelated literal stays; only the pragma is stripped.
    assert_eq!(m.body.len(), 1);
    match &m.body[0] {
        Stmt::Lit { value, .. } => assert_eq!(value, "use strict"),
        _ => panic!("expected the plain literal to survive"),
    }
}

#[test]
fn module_flags_every_typo_before_the_first_pragma() {
    let mut m = ModuleAst {
        body: vec![
            lit("hello", 0, 7),
            lit("use runnr", 9, 20),
            lit("use runner", 22, 34),
        ],
    };
    let diags = transform_module(&mut m);
    assert_eq!(diags.len(), 2);
    assert_eq!(
        diags[0],
        RunnerErrorKind::MisspelledDirective {
            span: Span { lo: 9, hi: 20 },
            directive: "use runnr".to_string(),
        }
    );
    assert_eq!(
        diags[1],
        RunnerErrorKind::MisplacedDirective {
            span: Span { lo: 22, hi: 34 },
            location: DirectiveLocation::Module,
        }
    );
    assert_eq!(m.body.len(), 1);
    match &m.body[0] {
        Stmt::Lit { value, .. } => assert_eq!(value, "hello"),
        _ => panic!("expected the plain literal to survive"),
    }
}

#[test]
fn module_typo_after_the_pragma_is_flagged_and_stripped() {
    let mut m = ModuleAst { body: vec![lit("use runner", 0, 12), lit("use runnerr", 14, 27)] };
    let diags = transform_module(&mut m);
    assert_eq!(diags.len(), 1);
    assert_eq!(
        diags[0],
        RunnerErrorKind::MisspelledDirective {
            span: Span { lo: 14, hi: 27 },
            directive: "use runnerr".to_string(),
        }
    );
    assert_eq!(m.body.len(), 0);
}

#[test]
fn function_typo_after_plain_literal_is_flagged_and_stripped() {
    let mut m = ModuleAst {
        body: vec![
            Stmt::Func { is_async: true, body: vec![lit("x", 5, 8), lit("use runnr", 10, 21)] },
        ],
    };
    let diags = transform_module(&mut m);
    assert_eq!(diags.len(), 1);
    assert_eq!(
        diags[0],
        RunnerErrorKind::MisspelledDirective {
            span: Span { lo: 10, hi: 21 },
            directive: "use runnr".to_string(),
        }
    );
    match &m.body[0] {
        Stmt::Func { body, .. } => {
            assert_eq!(body.len(), 1);
            match &body[0] {
                Stmt::Lit { value, .. } => assert_eq!(value, "x"),
                _ => panic!("expected the plain literal to survive"),
            }
        },
        _ => panic!("expected the function to survive"),
    }
}

#[test]
fn function_typo_after_the_pragma_is_flagged() {
    let mut m = ModuleAst {
        body: vec![
            Stmt::Func {
                is_async: true,
                body: vec![lit("use runner", 0, 12), lit("use runnerr", 14, 27)],
            },
        ],
    };
    let diags = transform_module(&mut m);
    assert_eq!(diags.len(), 1);
    assert_eq!(
        diags[0],
        RunnerErrorKind::MisspelledDirective {
            span: Span { lo: 14, hi: 27 },
            directive: "use runnerr".to_string(),
        }
    );
    match &m.body[0] {
        Stmt::Func { body, .. } => assert_eq!(body.len(), 0),
        _ => panic!("expected the function to survive"),
    }
}

#[test]
fn function_pragma_after_plain_literal_is_misplaced() {
    let mut m = ModuleAst {
        body: vec![
            Stmt::Func {
                is_async: true,
                body: vec![lit("use strict", 5, 17), lit("use runner", 20, 32)],
            },
        ],
    };
    let diags = transform_module(&mut m);
    assert_eq!(diags.len(), 1);
    assert_eq!(
        diags[0],
        RunnerErrorKind::MisplacedDirective {
            span: Span { lo: 20, hi: 32 },
            location: DirectiveLocation::FunctionBody,
        }
    );
    match &m.body[0] {
        Stmt::Func { body, .. } => {
            assert_eq!(body.len(), 1);
            match &body[0] {
                Stmt::Lit { value, .. } => assert_eq!(value, "use strict"),
                _ => panic!("expected the plain literal to survive"),
            }
        },
        _ => panic!("expected the function to survive"),
    }
}

#[test]
fn arrow_pragma_after_plain_literal_is_misplaced() {
    let mut m = ModuleAst {
        body: vec![
            Stmt::Arrow { arrow_body: vec![lit("use strict", 3, 15), lit("use runner", 18, 30)] },
        ],
    };
    let diags = transform_module(&mut m);
    assert_eq!(diags.len(), 1);
    assert_eq!(
        diags[0],
        RunnerErrorKind::MisplacedDirective {
            span: Span { lo: 18, hi: 30 },
            location: DirectiveLocation::FunctionBody,
        }
    );
}

#[test]
fn function_typo_candidate_and_later_pragma_both_flagged() {
    let mut m = ModuleAst {
        body: vec![
            Stmt::Func {
                is_async: true,
                body: vec![plain(), lit("use runnr", 10, 21), lit("use runner", 24, 36)],
            },
        ],
    };
    let diags = transform_module(&mut m);
    assert_eq!(diags.len(), 2);
    assert_eq!(
        diags[0],
        RunnerErrorKind::MisspelledDirective {
            span: Span { lo: 10, hi: 21 },
            directive: "use runnr".to_string(),
        }
    );
    assert_eq!(
        diags[1],
        RunnerErrorKind::MisplacedDirective {
            span: Span { lo: 24, hi: 36 },
            location: DirectiveLocation::FunctionBody,
        }
    );
}

#[test]
fn validation_does_not_change_the_tree() {
    let m = ModuleAst { body: vec![lit("use runner", 0, 12), plain()] };
    let diags = validate_module(&m);
    assert_eq!(diags.len(), 0);
    assert_eq!(m.body.len(), 2);
}

#[test]
fn diagnostic_messages_match_the_sink_format() {
    let non_async = RunnerErrorKind::NonAsyncFunction { span: Span { lo: 0, hi: 1 } };
    assert_eq!(
        non_async.message(),
        "Functions marked with \"use runner\" must be async functions"
    );
    let in_module = RunnerErrorKind::MisplacedDirective {
        span: Span { lo: 0, hi: 1 },
        location: DirectiveLocation::Module,
    };
    assert_eq!(
        in_module.message(),
        "The \"use runner\" directive must be at the top of the file"
    );
    let in_body = RunnerErrorKind::MisplacedDirective {
        span: Span { lo: 0, hi: 1 },
        location: DirectiveLocation::FunctionBody,
    };
    assert_eq!(
        in_body.message(),
        "The \"use runner\" directive must be at the top of the function body"
    );
    let typo = RunnerErrorKind::MisspelledDirective {
        span: Span { lo: 0, hi: 1 },
        directive: "use runnerr".to_string(),
    };
    assert_eq!(
        typo.message(),
        "\"use runnerr\" looks like a typo. Did you mean \"use runner\"?"
    );
}

#[test]
fn diagnostic_span_is_reported() {
    let d = RunnerErrorKind::NonAsyncFunction { span: Span { lo: 7, hi: 19 } };
    assert_eq!(d.span(), Span { lo: 7, hi: 19 });
}

#[test]
fn runner_transform_keeps_the_filename() {
    let t = RunnerTransform::new("src/app.ts".to_string());
    assert_eq!(t.filename, "src/app.ts");
    let mut m = ModuleAst { body: vec![lit("use runner", 0, 12)] };
    let diags = t.transform(&mut m);
    assert_eq!(diags.len(), 0);
    assert_eq!(m.body.len(), 0);
}
