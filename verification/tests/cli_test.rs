use opencli::args::Cli;
use opencli::codec::decode_request;
use opencli::codec::encode_request;
use opencli::error::OpenCliError;
use opencli::ipc::IpcRequest;
use opencli::resource::apply_bootstrap;
use opencli::resource::get_daemon_path;
use opencli::resource::plan_bootstrap;
use opencli::resource::BootstrapAction;
use opencli::resource::InstallState;
use std::collections::HashMap;

#[test]
fn test_argument_parsing() {
    let args = vec!["opencli", "chat", "Hello"];
    let cli = Cli {
        method: args[1].to_string(),
        params: args[2..].iter().map(|s| s.to_string()).collect(),
        timeout: 30000,
        verbose: false,
    };
    assert!(cli.method == "chat" && cli.params == vec!["Hello".to_string()]);
    let defaults = Cli::default();
    assert_eq!(defaults.method, "chat");
    assert_eq!(defaults.timeout, 30000);
    assert!(defaults.params.is_empty());
    assert!(!defaults.verbose);
}

#[test]
fn test_ipc_request_serialization() {
    let request = IpcRequest {
        method: "chat".to_string(),
        params: vec!["Hello".to_string()],
        context: Vec::new(),
        request_id: Some("abc123".to_string()),
        timeout_ms: Some(30000),
    };
    let bytes = encode_request(&request).unwrap();
    // The wire form must be exactly what the MessagePack implementation
    // produces for the same record (a tuple serializes as the same array).
    let reference = rmp_serde::to_vec(&(
        "chat".to_string(),
        vec!["Hello".to_string()],
        HashMap::<String, String>::new(),
        Some("abc123".to_string()),
        Some(30000u64),
    ))
    .unwrap();
    assert_eq!(bytes, reference);
    // And it must decode back to an equal record.
    let back = decode_request(&bytes).unwrap();
    assert_eq!(back.method, request.method);
    assert_eq!(back.params, request.params);
    assert_eq!(back.context, request.context);
    assert_eq!(back.request_id, request.request_id);
    assert_eq!(back.timeout_ms, request.timeout_ms);
}

#[test]
fn test_error_handling() {
    let e = OpenCliError::RequestFailed("boom".to_string());
    assert!(e.message() == "Request failed: boom");
    assert!(e.suggest_fix().is_none());
    let e = OpenCliError::DaemonNotRunning;
    assert_eq!(
        e.message(),
        "Daemon not running. Start with: opencli daemon start"
    );
    assert_eq!(
        e.suggest_fix(),
        Some("Try running: opencli daemon start".to_string())
    );
    let e = OpenCliError::IpcConnectionFailed("pipe broke".to_string());
    assert_eq!(e.message(), "IPC connection failed: pipe broke");
    assert_eq!(
        e.suggest_fix(),
        Some("Check if daemon is running: opencli daemon status".to_string())
    );
    let e = OpenCliError::SerializationError("bad value".to_string());
    assert_eq!(e.message(), "Serialization error: bad value");
    let e = OpenCliError::DeserializationError("bad bytes".to_string());
    assert_eq!(e.message(), "Deserialization error: bad bytes");
    let e = OpenCliError::IoError("closed".to_string());
    assert_eq!(e.message(), "IO error: closed");
    let e = OpenCliError::ResourceError("denied".to_string());
    assert_eq!(e.message(), "Resource extraction failed: denied");
}

#[test]
fn test_resource_extraction() {
    assert!(get_daemon_path("/home/u") == "/home/u/.opencli/bin/opencli-daemon");
    // First run on a missing file with a payload extracts; the second run
    // keeps the result untouched.
    let start = InstallState {
        present: false,
        executable: false,
    };
    let first = plan_bootstrap(start);
    assert_eq!(first, BootstrapAction::Extract);
    let installed = apply_bootstrap(start, first);
    assert!(installed.present && installed.executable);
    let second = plan_bootstrap(installed);
    assert_eq!(second, BootstrapAction::Keep);
    assert_eq!(apply_bootstrap(installed, second), installed);
    // A present file is the sole signal: nothing is rewritten, even one
    // that is not executable.
    let present = InstallState {
        present: true,
        executable: true,
    };
    assert_eq!(plan_bootstrap(present), BootstrapAction::Keep);
    let present_plain = InstallState {
        present: true,
        executable: false,
    };
    assert_eq!(plan_bootstrap(present_plain), BootstrapAction::Keep);
}
