//! Query parameters of the WebSocket endpoint and the values they carry.

use vstd::prelude::*;
use crate::text::{str_eq, trim, trim_spec};

verus! {

/// Which side of the relay a socket speaks for.
#[derive(Debug, Clone, Copy, PartialEq, Eq, Hash, Structural)]
pub enum ConnectionRole {
    Server,
    Client,
}

/// The relay protocol generation a socket speaks.
#[derive(Debug, Clone, Copy, PartialEq, Eq, Hash, Structural)]
pub enum RelayVersion {
    V1,
    V2,
}

/// The role named by the text of a `role` parameter, if any.
pub open spec fn role_of_text(value: Seq<char>) -> Option<ConnectionRole> {
    if value == "server"@ {
        Some(ConnectionRole::Server)
    } else if value == "client"@ {
        Some(ConnectionRole::Client)
    } else {
        None
    }
}

/// The wire name of a role.
pub open spec fn role_text(role: ConnectionRole) -> Seq<char> {
    match role {
        ConnectionRole::Server => "server"@,
        ConnectionRole::Client => "client"@,
    }
}

/// The version that the raw `v` parameter selects; `None` when it is not acceptable.
/// An absent or blank parameter selects version 1.
pub open spec fn version_of_param(raw: Option<Seq<char>>) -> Option<RelayVersion> {
    match raw {
        None => Some(RelayVersion::V1),
        Some(s) => {
            let t = trim_spec(s);
            if t.len() == 0 || t == "1"@ {
                Some(RelayVersion::V1)
            } else if t == "2"@ {
                Some(RelayVersion::V2)
            } else {
                None
            }
        },
    }
}

/// The characters of an optional string slice.
pub open spec fn opt_str_view(raw: Option<&str>) -> Option<Seq<char>> {
    match raw {
        Some(s) => Some(s@),
        None => None,
    }
}

/// The wire name of a version.
pub open spec fn version_text(version: RelayVersion) -> Seq<char> {
    match version {
        RelayVersion::V1 => "1"@,
        RelayVersion::V2 => "2"@,
    }
}

impl ConnectionRole {
    pub fn parse(value: &str) -> (res: Option<ConnectionRole>)
        ensures
            res == role_of_text(value@),
    {
        if str_eq(value, "server") {
            Some(ConnectionRole::Server)
        } else if str_eq(value, "client") {
            Some(ConnectionRole::Client)
        } else {
            None
        }
    }

    pub fn as_str(self) -> (res: &'static str)
        ensures
            res@ == role_text(self),
    {
        match self {
            ConnectionRole::Server => "server",
            ConnectionRole::Client => "client",
        }
    }
}

impl RelayVersion {
    pub fn parse(raw: Option<&str>) -> (res: Result<RelayVersion, &'static str>)
        ensures
            match version_of_param(opt_str_view(raw)) {
                Some(v) => res == Ok::<RelayVersion, &'static str>(v),
                None => res is Err && res->Err_0@ == "Invalid v parameter (expected 1 or 2)"@,
            },
    {
        match raw {
            None => Ok(RelayVersion::V1),
            Some(s) => {
                let t = trim(s);
                if t.unicode_len() == 0 || str_eq(t.as_str(), "1") {
                    Ok(RelayVersion::V1)
                } else if str_eq(t.as_str(), "2") {
                    Ok(RelayVersion::V2)
                } else {
                    Err("Invalid v parameter (expected 1 or 2)")
                }
            },
        }
    }

    pub fn as_str(self) -> (res: &'static str)
        ensures
            res@ == version_text(self),
    {
        match self {
            RelayVersion::V1 => "1",
            RelayVersion::V2 => "2",
        }
    }
}

} // verus!

verus! {

/// The validated parameters of a WebSocket request.
#[derive(Debug)]
pub struct WsParams {
    pub server_id: String,
    pub role: ConnectionRole,
    pub version: RelayVersion,
    pub connection_id: Option<String>,
}

pub struct WsParamsView {
    pub server_id: Seq<char>,
    pub role: ConnectionRole,
    pub version: RelayVersion,
    pub connection_id: Option<Seq<char>>,
}

/// The characters of an optional string.
pub open spec fn opt_string_view(s: Option<String>) -> Option<Seq<char>> {
    match s {
        Some(t) => Some(t@),
        None => None,
    }
}

impl View for WsParams {
    type V = WsParamsView;

    open spec fn view(&self) -> WsParamsView {
        WsParamsView {
            server_id: self.server_id@,
            role: self.role,
            version: self.version,
            connection_id: opt_string_view(self.connection_id),
        }
    }
}

/// The body of the health endpoint.
#[derive(Debug)]
pub struct HealthResponse {
    pub status: &'static str,
}

impl HealthResponse {
    /// The answer of a healthy relay.
    pub fn ok() -> (res: HealthResponse)
        ensures
            res.status@ == "ok"@,
    {
        HealthResponse { status: "ok" }
    }
}

/// The query parameters as they arrive, before validation.
#[derive(Debug)]
pub struct RawWsParams {
    pub server_id: Option<String>,
    pub role: Option<String>,
    pub v: Option<String>,
    pub connection_id: Option<String>,
}

/// Why a request was refused: an HTTP status and a message for the body.
#[derive(Debug)]
pub struct ParamError {
    pub status: u16,
    pub message: &'static str,
}

/// The trimmed text of an optional parameter, absent when it is missing or blank.
pub open spec fn non_blank(raw: Option<Seq<char>>) -> Option<Seq<char>> {
    match raw {
        Some(s) => if trim_spec(s).len() > 0 {
            Some(trim_spec(s))
        } else {
            None
        },
        None => None,
    }
}

/// What the validation of raw parameters gives: the parameters, or the status and
/// message of the refusal.
pub open spec fn validation_outcome(
    server_id: Option<Seq<char>>,
    role: Option<Seq<char>>,
    v: Option<Seq<char>>,
    connection_id: Option<Seq<char>>,
) -> Result<WsParamsView, (u16, Seq<char>)> {
    if non_blank(server_id) is None {
        Err((400, "Missing serverId parameter"@))
    } else if role is None || role_of_text(role->0) is None {
        Err((400, "Missing or invalid role parameter"@))
    } else if version_of_param(v) is None {
        Err((400, "Invalid v parameter (expected 1 or 2)"@))
    } else {
        Ok(
            WsParamsView {
                server_id: non_blank(server_id)->0,
                role: role_of_text(role->0)->0,
                version: version_of_param(v)->0,
                connection_id: non_blank(connection_id),
            },
        )
    }
}

fn non_blank_param(raw: Option<String>) -> (res: Option<String>)
    ensures
        opt_string_view(res) == non_blank(opt_string_view(raw)),
{
    match raw {
        Some(s) => {
            let t = trim(s.as_str());
            if t.unicode_len() > 0 {
                Some(t)
            } else {
                None
            }
        },
        None => None,
    }
}

/// Checks the raw query of a WebSocket request: `serverId` must be present and not
/// blank, `role` must name a role, `v` must name a version; a blank `connectionId`
/// counts as absent.
pub fn validate_params(raw: RawWsParams) -> (res: Result<WsParams, ParamError>)
    ensures
        match validation_outcome(
            opt_string_view(raw.server_id),
            opt_string_view(raw.role),
            opt_string_view(raw.v),
            opt_string_view(raw.connection_id),
        ) {
            Ok(p) => res is Ok && res->Ok_0@ == p,
            Err((status, message)) => res is Err && res->Err_0.status == status
                && res->Err_0.message@ == message,
        },
{
    let server_id = match non_blank_param(raw.server_id) {
        Some(s) => s,
        None => {
            return Err(ParamError { status: 400, message: "Missing serverId parameter" });
        },
    };
    let role = match &raw.role {
        Some(r) => ConnectionRole::parse(r.as_str()),
        None => None,
    };
    let role = match role {
        Some(r) => r,
        None => {
            return Err(ParamError { status: 400, message: "Missing or invalid role parameter" });
        },
    };
    let version = match &raw.v {
        Some(v) => RelayVersion::parse(Some(v.as_str())),
        None => RelayVersion::parse(None),
    };
    let version = match version {
        Ok(v) => v,
        Err(message) => {
            return Err(ParamError { status: 400, message });
        },
    };
    let connection_id = non_blank_param(raw.connection_id);
    Ok(WsParams { server_id, role, version, connection_id })
}

} // verus!
