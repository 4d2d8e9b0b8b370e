//! The management interface: what is replied to a request.

use crate::config;
use crate::config::{Config, ConfigManager, ConfigView};
use crate::error;
use crate::error::{ErrorView, KvdbResult};
use crate::text;
use vstd::prelude::*;
use vstd::string::*;

verus! {

/// A reply: the status and the body.
#[derive(Debug)]
pub struct HttpReply {
    pub status: u16,
    pub body: String,
}

/// A reply as contracts see it.
#[verifier::ext_equal]
pub struct HttpView {
    pub status: u16,
    pub body: Seq<char>,
}

impl View for HttpReply {
    type V = HttpView;

    open spec fn view(&self) -> HttpView {
        HttpView { status: self.status, body: self.body@ }
    }
}

/// GET /health: whether the store can be read.
pub fn health(readable: bool) -> (r: HttpReply)
    ensures
        r@ == if readable {
            (HttpView { status: 200, body: "OK\n"@ })
        } else {
            (HttpView { status: 503, body: "Unavailable\n"@ })
        },
{
    if readable {
        HttpReply { status: 200, body: "OK\n".to_owned() }
    } else {
        HttpReply { status: 503, body: "Unavailable\n".to_owned() }
    }
}

/// What a change of the configuration is answered.
pub open spec fn change_reply(fault: Option<ErrorView>) -> HttpView {
    match fault {
        None => HttpView { status: 200, body: "OK\n"@ },
        Some(e) => HttpView { status: 400, body: error::text_of(e) + "\n"@ },
    }
}

fn changed(r: KvdbResult<()>) -> (reply: HttpReply)
    ensures
        reply@ == change_reply(
            match r {
                Ok(_) => None,
                Err(e) => Some(e@),
            },
        ),
{
    match r {
        Ok(_) => HttpReply { status: 200, body: "OK\n".to_owned() },
        Err(e) => {
            let mut body = e.message();
            body.append("\n");
            HttpReply { status: 400, body }
        },
    }
}

/// PUT /config on a machine with so many bytes of memory: puts a valid
/// configuration in force, and refuses any other.
pub fn put_config_within(manager: &mut ConfigManager, new: Config, total_mem: u64) -> (r: HttpReply)
    ensures
        ({
            let c = config::fitted(new@, total_mem);
            let fault = config::fault_in(c, total_mem);
            &&& r@ == change_reply(fault)
            &&& final(manager)@ == if fault is None {
                c
            } else {
                old(manager)@
            }
        }),
{
    changed(manager.update_within(new, total_mem))
}

/// PUT /config on this machine.
pub fn put_config(manager: &mut ConfigManager, new: Config) -> (r: HttpReply)
    ensures
        exists|total_mem: u64|
            {
                let c = #[trigger] config::fitted(new@, total_mem);
                let fault = config::fault_in(c, total_mem);
                &&& r@ == change_reply(fault)
                &&& final(manager)@ == if fault is None {
                    c
                } else {
                    old(manager)@
                }
            },
{
    changed(manager.update(new))
}

/// GET /stats: the figures of the durable store, if it has any.
pub fn stats(found: KvdbResult<Option<String>>) -> (r: HttpReply)
    ensures
        r@ == (HttpView {
            status: 200,
            body: match found {
                Ok(Some(t)) => t@,
                _ => "rocksdb.stats not available"@,
            },
        }),
{
    match found {
        Ok(Some(t)) => HttpReply { status: 200, body: t },
        _ => HttpReply { status: 200, body: "rocksdb.stats not available".to_owned() },
    }
}

/// The figures that GET /metrics shows.
pub open spec fn metrics_text(c: ConfigView) -> Seq<char> {
    "# HELP kvdb_up Server is up\n# TYPE kvdb_up gauge\nkvdb_up 1\n"@
        + "# HELP kvdb_maxclients Maximum number of clients\n# TYPE kvdb_maxclients gauge\nkvdb_maxclients "@
        + text::chars_of(text::dec_signed(c.server.maxclients as int))
        + "\n# HELP kvdb_db_path Database path\n# TYPE kvdb_db_path gauge\nkvdb_db_path{path=\""@
        + c.storage.db_path + "\"} 1\n"@
}

/// GET /metrics: figures for a monitor.
pub fn metrics(config: &Config) -> (r: HttpReply)
    ensures
        r@ == (HttpView { status: 200, body: metrics_text(config@) }),
{
    let mut t = "# HELP kvdb_up Server is up\n# TYPE kvdb_up gauge\nkvdb_up 1\n".to_owned();
    t.append(
        "# HELP kvdb_maxclients Maximum number of clients\n# TYPE kvdb_maxclients gauge\nkvdb_maxclients ",
    );
    text::append_signed(&mut t, config.server.maxclients);
    t.append(
        "\n# HELP kvdb_db_path Database path\n# TYPE kvdb_db_path gauge\nkvdb_db_path{path=\"",
    );
    t.append(config.storage.db_path.as_str());
    t.append("\"} 1\n");
    HttpReply { status: 200, body: t }
}

} // verus!
