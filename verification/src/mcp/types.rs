//! The messages and errors of an MCP connection.
use crate::json::{json_of_option, Json};
use vstd::prelude::*;

verus! {

/// The error that a JSON-RPC response carries.
#[derive(Debug)]
pub struct JsonRpcError {
    pub code: i64,
    pub message: String,
    pub data: Option<serde_json::Value>,
}

/// A JSON-RPC response.
#[derive(Debug)]
pub struct JsonRpcResponse {
    pub jsonrpc: String,
    pub id: Option<u64>,
    pub result: Option<serde_json::Value>,
    pub error: Option<JsonRpcError>,
}

/// What a [`JsonRpcError`] says.
pub struct Fault {
    pub code: i64,
    pub message: Seq<char>,
    pub data: Option<Json>,
}

/// What a [`JsonRpcResponse`] says.
pub struct Reply {
    pub jsonrpc: Seq<char>,
    pub id: Option<u64>,
    pub result: Option<Json>,
    pub error: Option<Fault>,
}

impl View for JsonRpcError {
    type V = Fault;

    open spec fn view(&self) -> Fault {
        Fault { code: self.code, message: self.message@, data: json_of_option(self.data) }
    }
}

impl View for JsonRpcResponse {
    type V = Reply;

    open spec fn view(&self) -> Reply {
        Reply {
            jsonrpc: self.jsonrpc@,
            id: self.id,
            result: json_of_option(self.result),
            error: match self.error {
                Some(error) => Some(error@),
                None => None,
            },
        }
    }
}

/// Why an MCP operation failed.
#[derive(Debug)]
pub enum McpError {
    /// The connection or an operation on it failed.
    Transport(String),
    /// A message was not of the expected form.
    Protocol(String),
    /// The server answered with a JSON-RPC error.
    JsonRpc { code: i64, message: String },
    /// The server has closed the connection.
    ConnectionClosed,
}

/// What an [`McpError`] says.
pub enum Failure {
    Transport(Seq<char>),
    Protocol(Seq<char>),
    JsonRpc { code: i64, message: Seq<char> },
    ConnectionClosed,
}

impl View for McpError {
    type V = Failure;

    open spec fn view(&self) -> Failure {
        match *self {
            McpError::Transport(text) => Failure::Transport(text@),
            McpError::Protocol(text) => Failure::Protocol(text@),
            McpError::JsonRpc { code, message } => Failure::JsonRpc { code, message: message@ },
            McpError::ConnectionClosed => Failure::ConnectionClosed,
        }
    }
}

/// What an operation on the connection came to.
pub open spec fn outcome(result: Result<JsonRpcResponse, McpError>) -> Result<Reply, Failure> {
    match result {
        Ok(response) => Ok(response@),
        Err(error) => Err(error@),
    }
}

} // verus!
