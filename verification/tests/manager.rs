//! The client manager: start, replace, look up, tear down.

use lsp_core::client::{LifecycleState, LspClient, LspError};
use lsp_core::messages::RequestOutcome;
use lsp_core::framer::encode_frame;
use lsp_core::json::{encode_json, Json};
use lsp_core::manager::LspManager;
use lsp_core::servers::Language;

fn key(s: &str) -> Vec<u8> {
    s.as_bytes().to_vec()
}

fn result_frame(id: u64, result: Json) -> Vec<u8> {
    let msg = Json::Obj(vec![
        (key("jsonrpc"), Json::Str(b"2.0".to_vec())),
        (key("id"), Json::UInt(id)),
        (key("result"), result),
    ]);
    encode_frame(&encode_json(&msg))
}

/// Drives a freshly prepared client through its handshake with the
/// mock server.
fn complete_handshake(client: &mut LspClient<u64>) {
    client.start();
    let (id, _frame) = client.initialize_request(1, &b"/work".to_vec(), 0);
    let (resolutions, _) = client.on_chunk(&result_frame(id, Json::Obj(vec![])));
    assert_eq!(resolutions.len(), 1);
    assert!(client.initialize_result(true).is_some());
    assert_eq!(client.state(), LifecycleState::Initialized);
}

#[test]
fn absent_executable_is_refused_and_leaves_no_entry() {
    let mut mgr: LspManager<u64> = LspManager::new("/work".to_string());
    let r = mgr.start_server(Language::Rust, false);
    assert!(matches!(r, Err(LspError::NotInstalled)));
    assert!(!mgr.is_running(&Language::Rust));
    assert!(mgr.get_client(&Language::Rust).is_none());
}

#[test]
fn spawn_failure_leaves_no_entry() {
    let mut mgr: LspManager<u64> = LspManager::new("/work".to_string());
    let (mut client, old) = mgr.start_server(Language::Rust, true).expect("installed");
    assert!(old.is_none());
    client.start();
    client.spawn_failed();
    // the client never reached initialized, so it is never registered
    assert!(!mgr.is_running(&Language::Rust));
}

#[test]
fn start_register_and_look_up() {
    let mut mgr: LspManager<u64> = LspManager::new("/work".to_string());
    let (mut client, old) = mgr.start_server(Language::Rust, true).expect("installed");
    assert!(old.is_none());
    assert_eq!(client.config().language, Language::Rust);
    assert_eq!(client.config().command, "rust-analyzer");
    complete_handshake(&mut client);
    mgr.register_client(Language::Rust, client);
    assert!(mgr.is_running(&Language::Rust));
    assert!(!mgr.is_running(&Language::Python));
    let stored = mgr.get_client(&Language::Rust).expect("registered");
    assert_eq!(stored.state(), LifecycleState::Initialized);
}

#[test]
fn restart_replaces_and_tears_the_old_client_down_first() {
    let mut mgr: LspManager<u64> = LspManager::new("/work".to_string());
    let (mut first, _) = mgr.start_server(Language::Rust, true).unwrap();
    complete_handshake(&mut first);
    // leave one request pending in the first client
    let (pending_id, _) = first.goto_definition(&b"/work/a.ext".to_vec(), 3, 5, 11).unwrap();
    mgr.register_client(Language::Rust, first);
    // the restart: the old client's whole shutdown sequence is produced
    // before the second client even exists to be started
    let (mut second, old_plan) = mgr.start_server(Language::Rust, true).unwrap();
    let plan = old_plan.expect("the first client is torn down");
    assert!(plan.frames.is_some());
    assert_eq!(plan.cancelled.len(), 1);
    assert_eq!(plan.cancelled[0].id, pending_id);
    assert_eq!(plan.cancelled[0].handle, 11);
    assert!(matches!(plan.cancelled[0].outcome, RequestOutcome::Cancelled(_)));
    // the first client is gone; the second only appears once initialized
    assert!(!mgr.is_running(&Language::Rust));
    assert_eq!(second.state(), LifecycleState::Unstarted);
    complete_handshake(&mut second);
    mgr.register_client(Language::Rust, second);
    assert!(mgr.is_running(&Language::Rust));
}

#[test]
fn take_client_hands_the_client_out_and_back() {
    let mut mgr: LspManager<u64> = LspManager::new("/work".to_string());
    let (mut client, _) = mgr.start_server(Language::TypeScript, true).unwrap();
    complete_handshake(&mut client);
    mgr.register_client(Language::TypeScript, client);
    let taken = mgr.take_client(&Language::TypeScript).expect("running");
    assert!(!mgr.is_running(&Language::TypeScript));
    mgr.register_client(Language::TypeScript, taken);
    assert!(mgr.is_running(&Language::TypeScript));
}

#[test]
fn shutdown_server_removes_one_entry() {
    let mut mgr: LspManager<u64> = LspManager::new("/work".to_string());
    let (mut client, _) = mgr.start_server(Language::Java, true).unwrap();
    complete_handshake(&mut client);
    mgr.register_client(Language::Java, client);
    let plan = mgr.shutdown_server(&Language::Java).expect("was running");
    assert!(plan.frames.is_some());
    assert!(!mgr.is_running(&Language::Java));
    // tearing down a language that is not running is a no-op
    assert!(mgr.shutdown_server(&Language::Java).is_none());
}

#[test]
fn shutdown_all_attempts_every_entry() {
    let mut mgr: LspManager<u64> = LspManager::new("/work".to_string());
    for language in [Language::Rust, Language::Python] {
        let (mut client, _) = mgr.start_server(language.clone(), true).unwrap();
        complete_handshake(&mut client);
        mgr.register_client(language, client);
    }
    let plans = mgr.shutdown_all();
    assert_eq!(plans.len(), 2);
    for (_, plan) in &plans {
        assert!(plan.frames.is_some());
    }
    assert!(!mgr.is_running(&Language::Rust));
    assert!(!mgr.is_running(&Language::Python));
}
