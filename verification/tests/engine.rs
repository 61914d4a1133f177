//! The execution engine: scheduling, failure aggregation, environment.

use august_build::lexer::lexer;
use august_build::parser::{parser, Spanned};
use august_build::{Command, FsCommand};
use august_build::runtime::{
    extend_path, Effect, NotifierEvent, Outcome, Runtime, RuntimeError, SilentNotifier,
};
use august_build::Module;

fn load(src: &str) -> Module {
    let (toks, lerrs) = lexer(src);
    assert!(lerrs.is_empty(), "{lerrs:?}");
    let (ast, perrs) = parser(&toks);
    assert!(perrs.is_empty(), "{perrs:?}");
    Module::lower(ast).expect("valid script")
}

/// Drive a run to its end, answering each requested effect with
/// `on_effect`, and recording every effect in order.
fn drive(
    rt: &mut Runtime<SilentNotifier>,
    root: &str,
    mut on_effect: impl FnMut(&Effect) -> Outcome,
) -> Vec<String> {
    assert!(rt.begin(&root.to_string()), "begin failed");
    let mut seen: Vec<String> = Vec::new();
    let mut fuel = 100_000;
    loop {
        if rt.result().is_some() {
            return seen;
        }
        fuel -= 1;
        assert!(fuel > 0, "the run did not settle");
        let answer = match rt.pending_effect() {
            Some(e) => {
                seen.push(describe(e));
                Some(on_effect(e))
            },
            None => None,
        };
        match answer {
            Some(o) => rt.provide(o),
            None => rt.tick(),
        }
    }
}

fn describe(e: &Effect) -> String {
    match e {
        Effect::Exec { argv, .. } => {
            let words: Vec<&str> = argv.iter().map(|a| a.text.as_str()).collect();
            format!("exec {}", words.join(" "))
        },
        Effect::CreateFile { path } => format!("create {path}"),
        Effect::CreateDirAll { path } => format!("mkdir {path}"),
        Effect::RemovePath { path } => format!("rm {path}"),
        Effect::CopyPath { src, dst } => format!("cp {src} {dst}"),
        Effect::ReadFile { path } => format!("read {path}"),
        Effect::Canonicalize { path } => format!("canon {path}"),
        Effect::Print { text, .. } => format!("print {text}"),
    }
}

fn ok() -> Outcome {
    Outcome { ok: true, detail: String::new() }
}

fn count_starts(rt: &Runtime<SilentNotifier>, name: &str) -> usize {
    rt.events()
        .iter()
        .filter(|e| matches!(e, NotifierEvent::Start(n) if n == name))
        .count()
}

fn count_completes(rt: &Runtime<SilentNotifier>, name: &str) -> usize {
    rt.events()
        .iter()
        .filter(|e| matches!(e, NotifierEvent::Complete(n) if n == name))
        .count()
}

fn calls_of(rt: &Runtime<SilentNotifier>, name: &str) -> usize {
    rt.events()
        .iter()
        .filter(|e| matches!(e, NotifierEvent::Call(n, _) if n == name))
        .count()
}

#[test]
fn diamond_runs_each_unit_once() {
    let m = load(
        "unit a { depends_on(b, c) IO::println(\"a\") }\n\
         unit b { depends_on(d) IO::println(\"b\") }\n\
         unit c { depends_on(d) IO::println(\"c\") }\n\
         unit d { IO::println(\"d\") }\n",
    );
    let mut rt = Runtime::new(m, SilentNotifier, Vec::new());
    let seen = drive(&mut rt, "a", |_| ok());
    assert_eq!(
        seen,
        vec!["print d", "print b", "print c", "print a"],
        "one line per unit, dependencies first",
    );
    for u in ["a", "b", "c", "d"] {
        assert_eq!(count_starts(&rt, u), 1, "Start({u})");
        assert_eq!(count_completes(&rt, u), 1, "Complete({u})");
    }
    assert!(matches!(rt.result(), Some(Ok(()))));
}

#[test]
fn dependencies_complete_before_any_call() {
    let m = load(
        "unit a { depends_on(b) IO::println(\"a\") }\n\
         unit b { IO::println(\"b\") }\n",
    );
    let mut rt = Runtime::new(m, SilentNotifier, Vec::new());
    drive(&mut rt, "a", |_| ok());
    let complete_b = rt
        .events()
        .iter()
        .position(|e| matches!(e, NotifierEvent::Complete(n) if n == "b"))
        .expect("b completed");
    let first_call_a = rt
        .events()
        .iter()
        .position(|e| matches!(e, NotifierEvent::Call(n, _) if n == "a"))
        .expect("a dispatched");
    assert!(complete_b < first_call_a, "Complete(b) precedes every Call from a");
}

#[test]
fn failure_aggregation_keeps_siblings_running() {
    let m = load(
        "unit root { depends_on(x, y) IO::println(\"root\") }\n\
         unit x { ~(false) }\n\
         unit y { IO::println(\"y\") }\n",
    );
    let mut rt = Runtime::new(m, SilentNotifier, Vec::new());
    drive(&mut rt, "root", |e| match e {
        Effect::Exec { .. } => Outcome { ok: false, detail: "exit status 1".to_string() },
        _ => ok(),
    });
    // y still ran and completed
    assert_eq!(count_completes(&rt, "y"), 1);
    // x reported its own failure
    let x_error = rt.events().iter().any(|e| {
        matches!(e, NotifierEvent::Error(list)
            if list.len() == 1 && matches!(&list[0], RuntimeError::ExecutionFailure(a, _) if a[0].text == "false"))
    });
    assert!(x_error, "x announced the execution failure");
    // root aggregated the bubbled error, not a FailedDependency for y
    let root_error = rt.events().iter().rev().find_map(|e| match e {
        NotifierEvent::Error(list) => Some(list),
        _ => None,
    });
    let list = root_error.expect("root emitted an error list");
    assert_eq!(list.len(), 1);
    assert!(matches!(&list[0], RuntimeError::ExecutionFailure(a, _) if a[0].text == "false"));
    // root never dispatched a command and returned a dependency error
    assert_eq!(calls_of(&rt, "root"), 0);
    assert!(matches!(
        rt.result(),
        Some(Err(RuntimeError::DependencyError(n))) if n.text == "root"
    ));
}

#[test]
fn already_failed_dependency_becomes_failed_dependency_entry() {
    let m = load(
        "unit top { depends_on(a, b) }\n\
         unit a { depends_on(bad) }\n\
         unit b { depends_on(bad) }\n\
         unit bad { ~(false) }\n",
    );
    let mut rt = Runtime::new(m, SilentNotifier, Vec::new());
    drive(&mut rt, "top", |_| Outcome { ok: false, detail: "exit status 1".to_string() });
    // b saw bad already failed: exactly one FailedDependency(b, bad)
    let b_failed_dep = rt.events().iter().any(|e| {
        matches!(e, NotifierEvent::Error(list)
            if list.iter().any(|err| matches!(err, RuntimeError::FailedDependency(p, c)
                if p == "b" && c.text == "bad")))
    });
    assert!(b_failed_dep, "b recorded bad as an already-failed dependency");
    assert!(matches!(rt.result(), Some(Err(RuntimeError::DependencyError(_)))));
}

#[test]
fn environment_snapshot_scopes_exec() {
    let m = load(
        "unit u {\n\
           ENV::set_var(\"X\", \"1\")\n\
           ~(printenv X)\n\
           ENV::remove_var(\"X\")\n\
           ~(printenv X)\n\
         }\n",
    );
    let mut rt = Runtime::new(m, SilentNotifier, vec![("HOME".to_string(), "/root".to_string())]);
    let mut exec_envs: Vec<Vec<(String, String)>> = Vec::new();
    drive(&mut rt, "u", |e| match e {
        Effect::Exec { env, .. } => {
            exec_envs.push(env.clone());
            if env.iter().any(|(k, _)| k == "X") {
                Outcome { ok: true, detail: String::new() }
            } else {
                Outcome { ok: false, detail: "exit status 1".to_string() }
            }
        },
        _ => ok(),
    });
    assert_eq!(exec_envs.len(), 2);
    assert!(exec_envs[0].contains(&("X".to_string(), "1".to_string())));
    assert!(exec_envs[0].iter().any(|(k, _)| k == "HOME"));
    assert!(!exec_envs[1].iter().any(|(k, _)| k == "X"));
    // the second printenv failed, so the unit failed with it
    assert!(matches!(rt.result(), Some(Err(RuntimeError::ExecutionFailure(_, _)))));
}

#[test]
fn env_only_module_requests_no_effect_and_updates_snapshot() {
    let m = load("unit u { ENV::set_var(\"A\", \"1\") ENV::remove_var(\"B\") }\n");
    let mut rt = Runtime::new(
        m,
        SilentNotifier,
        vec![("B".to_string(), "gone".to_string())],
    );
    let seen = drive(&mut rt, "u", |_| panic!("no effect may be requested"));
    assert!(seen.is_empty());
    let env = rt.env_snapshot();
    assert!(env.contains(&("A".to_string(), "1".to_string())));
    assert!(!env.iter().any(|(k, _)| k == "B"));
    assert!(matches!(rt.result(), Some(Ok(()))));
}

#[test]
fn path_push_canonicalizes_then_extends_path() {
    let m = load("unit u { ENV::path_push(\"tools\") }\n");
    let mut rt = Runtime::new(
        m,
        SilentNotifier,
        vec![("PATH".to_string(), "/bin:/usr/bin".to_string())],
    );
    let seen = drive(&mut rt, "u", |e| match e {
        Effect::Canonicalize { path } => {
            assert_eq!(path, "tools");
            Outcome { ok: true, detail: "/work/tools".to_string() }
        },
        _ => panic!("only canonicalization may be requested"),
    });
    assert_eq!(seen, vec!["canon tools"]);
    let env = rt.env_snapshot();
    let path = &env.iter().find(|(k, _)| k == "PATH").expect("PATH kept").1;
    assert_eq!(path, "/bin:/usr/bin:/work/tools");
    assert!(matches!(rt.result(), Some(Ok(()))));
}

#[test]
fn path_remove_drops_matching_entries() {
    let m = load("unit u { ENV::path_remove(\"tools\") }\n");
    let mut rt = Runtime::new(
        m,
        SilentNotifier,
        vec![("PATH".to_string(), "/bin:/work/tools:/usr/bin".to_string())],
    );
    drive(&mut rt, "u", |_| Outcome { ok: true, detail: "/work/tools".to_string() });
    let env = rt.env_snapshot();
    let path = &env.iter().find(|(k, _)| k == "PATH").expect("PATH kept").1;
    assert_eq!(path, "/bin:/usr/bin");
}

#[test]
fn copy_to_fans_out_with_destination_rule() {
    // the fan-out command is constructed through the API, as the module
    // model allows; each pair goes to head / (override ?? source)
    let m = load("unit u { }\n");
    let mut units = m.units;
    units[0].1.commands.push(Command::Fs(FsCommand::CopyTo(
        Spanned::new("dest".to_string()),
        vec![
            (Spanned::new("a.txt".to_string()), None),
            (Spanned::new("b.txt".to_string()), Some(Spanned::new("renamed.txt".to_string()))),
        ],
    )));
    let m = Module { expose: m.expose, units };
    let mut rt = Runtime::new(m, SilentNotifier, Vec::new());
    let seen = drive(&mut rt, "u", |_| ok());
    assert_eq!(seen, vec!["cp a.txt dest/a.txt", "cp b.txt dest/renamed.txt"]);
    assert!(matches!(rt.result(), Some(Ok(()))));
}

#[test]
fn move_copies_then_removes_the_source() {
    let m = load("unit u { FS::move(\"from.txt\", \"to.txt\") }\n");
    let mut rt = Runtime::new(m, SilentNotifier, Vec::new());
    let seen = drive(&mut rt, "u", |_| ok());
    assert_eq!(seen, vec!["cp from.txt to.txt", "rm from.txt"]);
}

#[test]
fn print_file_reads_then_prints_with_newline() {
    let m = load("unit u { FS::print_file(\"notes.txt\") }\n");
    let mut rt = Runtime::new(m, SilentNotifier, Vec::new());
    let mut printed: Vec<(String, bool, bool)> = Vec::new();
    drive(&mut rt, "u", |e| match e {
        Effect::ReadFile { .. } => Outcome { ok: true, detail: "contents".to_string() },
        Effect::Print { text, newline, stderr } => {
            printed.push((text.clone(), *newline, *stderr));
            ok()
        },
        _ => panic!("unexpected effect"),
    });
    assert_eq!(printed, vec![("contents".to_string(), true, false)]);
}

#[test]
fn failing_file_read_is_a_file_access_error() {
    let m = load("unit u { FS::print_file(\"missing.txt\") }\n");
    let mut rt = Runtime::new(m, SilentNotifier, Vec::new());
    drive(&mut rt, "u", |_| Outcome { ok: false, detail: "no such file".to_string() });
    match rt.result() {
        Some(Err(RuntimeError::FsError(august_build::runtime::FsError::FileAccessError(
            p,
            m,
        )))) => {
            assert_eq!(p.text, "missing.txt");
            assert_eq!(m, "no such file");
        },
        other => panic!("expected a file-access error, got {other:?}"),
    }
}

#[test]
fn failing_create_names_the_file() {
    let m = load("unit u { FS::create(\"locked\") }\n");
    let mut rt = Runtime::new(m, SilentNotifier, Vec::new());
    drive(&mut rt, "u", |_| Outcome { ok: false, detail: "denied".to_string() });
    assert!(matches!(
        rt.result(),
        Some(Err(RuntimeError::FsError(august_build::runtime::FsError::CreateFileError(p, _))))
            if p.text == "locked"
    ));
}

#[test]
fn inline_do_runs_targets_in_order() {
    let m = load(
        "unit u { do(first, second) }\n\
         unit first { IO::println(\"1\") }\n\
         unit second { IO::println(\"2\") }\n",
    );
    let mut rt = Runtime::new(m, SilentNotifier, Vec::new());
    let seen = drive(&mut rt, "u", |_| ok());
    assert_eq!(seen, vec!["print 1", "print 2"]);
    assert!(matches!(rt.result(), Some(Ok(()))));
}

#[test]
fn extend_path_inserts_separator_only_when_needed() {
    assert_eq!(extend_path(&"dest".to_string(), &"a".to_string()), "dest/a");
    assert_eq!(extend_path(&"dest/".to_string(), &"a".to_string()), "dest/a");
    assert_eq!(extend_path(&"dest\\".to_string(), &"a".to_string()), "dest\\a");
    assert_eq!(extend_path(&"".to_string(), &"a".to_string()), "/a");
}

#[test]
fn begin_rejects_unknown_units_and_reruns() {
    let m = load("unit u { }\n");
    let mut rt = Runtime::new(m, SilentNotifier, Vec::new());
    assert!(!rt.begin(&"ghost".to_string()));
    assert!(rt.begin(&"u".to_string()));
}

#[test]
fn path_entry_with_separator_is_a_join_paths_error() {
    let m = load("unit u { ENV::path_push(\"odd\") }\n");
    let mut rt = Runtime::new(m, SilentNotifier, Vec::new());
    drive(&mut rt, "u", |_| Outcome { ok: true, detail: "/odd:dir".to_string() });
    assert!(matches!(rt.result(), Some(Err(RuntimeError::JoinPathsError(_)))));
}

#[test]
fn failed_canonicalization_is_a_join_paths_error() {
    let m = load("unit u { ENV::path_push(\"missing\") }\n");
    let mut rt = Runtime::new(m, SilentNotifier, Vec::new());
    drive(&mut rt, "u", |_| Outcome { ok: false, detail: "no such file".to_string() });
    assert!(matches!(rt.result(), Some(Err(RuntimeError::JoinPathsError(m))) if m == "no such file"));
}

#[test]
fn concurrent_commands_are_unsupported_on_this_runtime() {
    let m = load("unit u { }\n");
    let mut units = m.units;
    units[0].1.commands.push(Command::Concurrent(vec![Command::Io(
        august_build::IoCommand::PrintLn(Spanned::new("x".to_string())),
    )]));
    let m = Module { expose: m.expose, units };
    let mut rt = Runtime::new(m, SilentNotifier, Vec::new());
    drive(&mut rt, "u", |_| ok());
    assert!(matches!(rt.result(), Some(Err(RuntimeError::CommandUnsupported(_)))));
}

#[test]
fn exec_without_a_program_fails_with_the_host_message() {
    let m = load("unit u { ~() }\n");
    let mut rt = Runtime::new(m, SilentNotifier, Vec::new());
    drive(&mut rt, "u", |e| match e {
        Effect::Exec { argv, .. } if argv.is_empty() => {
            Outcome { ok: false, detail: "empty command".to_string() }
        },
        _ => ok(),
    });
    assert!(matches!(
        rt.result(),
        Some(Err(RuntimeError::ExecutionFailure(argv, m))) if argv.is_empty() && m == "empty command"
    ));
}
