use apibump::backend::{
    bridge_arguments, default_griffe_backend, default_python_command, failure_message,
    normalized_search_paths, python_command, BackendError, PythonBackendOptions,
};

fn options(search: &[&str], python: Option<&str>) -> PythonBackendOptions {
    PythonBackendOptions {
        package: "demo_pkg".to_string(),
        search_paths: search.iter().map(|s| s.to_string()).collect(),
        base: "origin/main".to_string(),
        head: "HEAD".to_string(),
        repo: "/repo".to_string(),
        python: python.map(|p| p.to_string()),
        strict: false,
    }
}

#[test]
fn bridge_arguments_list_every_search_path() {
    assert_eq!(
        bridge_arguments("/tmp/bridge.py", &options(&["src", "lib"], None)),
        vec![
            "/tmp/bridge.py",
            "--package",
            "demo_pkg",
            "--base",
            "origin/main",
            "--head",
            "HEAD",
            "--repo",
            "/repo",
            "--search",
            "src",
            "--search",
            "lib",
        ]
    );
}

#[test]
fn bridge_arguments_search_the_current_directory_by_default() {
    let arguments = bridge_arguments("b.py", &options(&[], None));
    assert_eq!(arguments[arguments.len() - 2..], ["--search".to_string(), ".".to_string()]);
    assert_eq!(normalized_search_paths(&vec![]), vec![".".to_string()]);
    assert_eq!(normalized_search_paths(&vec!["x".to_string()]), vec!["x".to_string()]);
}

#[test]
fn python_command_prefers_options_then_environment() {
    assert_eq!(python_command(&options(&[], Some("py311")), Some("envpy".to_string()), false), "py311");
    assert_eq!(python_command(&options(&[], None), Some("envpy".to_string()), false), "envpy");
    assert_eq!(python_command(&options(&[], None), None, false), "python3");
    assert_eq!(python_command(&options(&[], None), None, true), "python");
    assert_eq!(default_python_command(false), "python3");
    assert_eq!(default_griffe_backend(), "griffe");
}

#[test]
fn failure_messages_prefer_stderr_then_stdout() {
    assert_eq!(failure_message("boom", "out", "exit status: 1"), "boom");
    assert_eq!(failure_message("", "out", "exit status: 1"), "out");
    assert_eq!(
        failure_message("", "", "exit status: 1"),
        "process exited with status exit status: 1"
    );
}

#[test]
fn backend_errors_explain_themselves() {
    assert_eq!(
        BackendError::BridgeTemp("denied".to_string()).message(),
        "failed to create temporary Griffe bridge script: denied"
    );
    assert_eq!(
        BackendError::BridgeWrite("full".to_string()).message(),
        "failed to write temporary Griffe bridge script: full"
    );
    assert_eq!(BackendError::Command("missing".to_string()).message(), "failed to run Python backend: missing");
    assert_eq!(BackendError::Failed("boom".to_string()).message(), "Python backend failed: boom");
    assert_eq!(
        BackendError::InvalidJson("eof".to_string()).message(),
        "Python backend returned invalid JSON: eof"
    );
}

#[test]
fn failure_messages_are_trimmed() {
    assert_eq!(failure_message("  boom\n", "out", "exit status: 1"), "boom");
    assert_eq!(failure_message(" \n\t", "  out  \n", "exit status: 1"), "out");
    assert_eq!(failure_message("\n", " ", "exit status: 2"), "process exited with status exit status: 2");
}
