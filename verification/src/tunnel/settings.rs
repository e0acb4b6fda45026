//! What a configuration file and the command line say of a node of the tunnel.
use vstd::prelude::*;

use crate::config::settings::{first_given, DEFAULT_LISTEN};
use crate::crypto;
use crate::octets;

verus! {

/// The node that a node sends to where none is given.
pub const DEFAULT_SEND: &'static str = "[::1]:8443";

/// The key where none is given.
pub const DEFAULT_KEY: &'static str = "19260817";

/// The context that keeps the key of the tunnel apart from other keys.
pub const TUNNEL_KEY_CONTEXT: &'static str = "RayNet PSK v1";

/// The content of a configuration file.
#[derive(Debug, Clone)]
pub struct TunnelFileConfig {
    pub endpoint: Option<bool>,
    pub listen: Option<String>,
    pub send: Option<Vec<String>>,
    pub key: Option<String>,
}

/// What the command line says.
#[derive(Debug, Clone)]
pub struct TunnelCliConfig {
    pub endpoint: bool,
    pub listen: Option<String>,
    pub send: Option<Vec<String>>,
    pub key: Option<String>,
}

/// The settings of a node of the tunnel.
#[derive(Debug, Clone)]
pub struct TunnelSettings {
    pub endpoint: bool,
    pub listen: String,
    pub send: Vec<String>,
    pub key: [u8; 16],
}

/// The text that is given, or else the default one.
pub open spec fn given_or(
    cli: Option<String>,
    file: Option<String>,
    default: Seq<char>,
) -> Seq<char> {
    match crate::config::settings::first_of(cli, file) {
        Some(given) => given@,
        None => default,
    }
}

/// The settings of a node: what the command line says goes before what the file says, and
/// what neither says has a default.
pub fn tunnel_settings(cli: TunnelCliConfig, file: TunnelFileConfig) -> (settings: TunnelSettings)
    ensures
        settings.endpoint == (cli.endpoint || file.endpoint == Some(true)),
        settings.listen@ == given_or(cli.listen, file.listen, DEFAULT_LISTEN@),
        match crate::config::settings::first_of(cli.send, file.send) {
            Some(given) => settings.send == given,
            None => {
                &&& settings.send@.len() == 1
                &&& settings.send@[0]@ == DEFAULT_SEND@
            },
        },
        settings.key@ == crypto::blake3_derived(
            TUNNEL_KEY_CONTEXT@,
            vstd::utf8::encode_utf8(given_or(cli.key, file.key, DEFAULT_KEY@)),
        ).take(16),
{
    let endpoint: bool = cli.endpoint || match file.endpoint {
        Some(endpoint) => endpoint,
        None => false,
    };
    let listen = match first_given(&cli.listen, &file.listen) {
        Some(listen) => listen,
        None => DEFAULT_LISTEN.to_owned(),
    };
    let key = match first_given(&cli.key, &file.key) {
        Some(key) => key,
        None => DEFAULT_KEY.to_owned(),
    };
    let send = match cli.send {
        Some(send) => send,
        None => match file.send {
            Some(send) => send,
            None => vec![DEFAULT_SEND.to_owned()],
        },
    };
    let derived = crypto::derive_key(TUNNEL_KEY_CONTEXT, key.as_str().as_bytes());
    TunnelSettings { endpoint, listen, send, key: octets::first16(&derived) }
}

} // verus!
