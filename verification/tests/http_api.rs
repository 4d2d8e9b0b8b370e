//! The replies of the management interface.

use kvdb_rs::cmd::CommandContext;
use kvdb_rs::http_server::{health, metrics};
use kvdb_rs::Config;

#[test]
fn http_health_returns_ok() {
    let ctx = CommandContext::new(Config::default());
    let resp = health(ctx.storage.get("metadata", b"").is_ok());
    assert_eq!(resp.status, 200);
}

#[test]
fn http_metrics_contains_up() {
    let ctx = CommandContext::new(Config::default());
    let resp = metrics(&ctx.config.get());
    assert_eq!(resp.status, 200);
    assert!(resp.body.contains("kvdb_up 1"));
}
