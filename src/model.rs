//! The AsyncAPI 3.0 document graph.
//!
//! Keyed sections (servers, channels, operations, components) are ordered
//! association lists, so that a document is reproducible entry for entry.
use vstd::prelude::*;
use vstd::string::*;

verus! {

/// The untyped JSON value of `serde_json`, carried through schemas unread.
#[verifier::external_type_specification]
#[verifier::external_body]
pub struct ExJsonValue(serde_json::Value);

/// Root document of an AsyncAPI 3.0 specification.
#[derive(Debug)]
pub struct AsyncApiSpec {
    /// Version of the AsyncAPI format ("3.0.0").
    pub asyncapi: String,
    /// General information about the API.
    pub info: Info,
    /// Server connection details, by server name.
    pub servers: Option<Vec<(String, Server)>>,
    /// Channels, by channel name.
    pub channels: Option<Vec<(String, Channel)>>,
    /// Operations, by operation name.
    pub operations: Option<Vec<(String, Operation)>>,
    /// Reusable components.
    pub components: Option<Components>,
}

/// API information object.
#[derive(Debug)]
pub struct Info {
    pub title: String,
    pub version: String,
    pub description: Option<String>,
}

/// Server connection information.
#[derive(Debug)]
pub struct Server {
    /// Server URL or host.
    pub host: String,
    /// Protocol ("wss", "ws", "grpc", ...).
    pub protocol: String,
    pub description: Option<String>,
}

/// A communication channel.
#[derive(Debug)]
pub struct Channel {
    pub address: Option<String>,
    /// Messages available on this channel, by slot name.
    pub messages: Option<Vec<(String, MessageRef)>>,
}

/// A message at a use site: a pointer into the components, or the message itself.
#[derive(Debug)]
pub enum MessageRef {
    Reference { reference: String },
    Inline(Box<Message>),
}

/// A message definition.
#[derive(Debug)]
pub struct Message {
    pub name: Option<String>,
    pub title: Option<String>,
    pub summary: Option<String>,
    pub description: Option<String>,
    /// Content type, such as "application/json".
    pub content_type: Option<String>,
    /// Payload schema; a message without payload is legal.
    pub payload: Option<Schema>,
}

/// A send or receive operation on one channel.
#[derive(Debug)]
pub struct Operation {
    pub action: OperationAction,
    pub channel: ChannelRef,
    pub messages: Option<Vec<MessageRef>>,
}

/// Direction of an operation.
#[derive(Debug, PartialEq, Eq, Structural)]
pub enum OperationAction {
    Send,
    Receive,
}

/// Reference to a channel (`#/channels/{name}`).
#[derive(Debug)]
pub struct ChannelRef {
    pub reference: String,
}

/// Reusable components: the shared entries that references point at.
#[derive(Debug)]
pub struct Components {
    pub messages: Option<Vec<(String, Message)>>,
    pub schemas: Option<Vec<(String, Schema)>>,
}

/// A JSON-Schema-like type: a reference, or a full schema object.
#[derive(Debug)]
pub enum Schema {
    Reference { reference: String },
    Object(Box<SchemaObject>),
}

/// Schema object with the JSON Schema keywords that the format uses.
#[derive(Debug)]
pub struct SchemaObject {
    pub schema_type: Option<String>,
    pub properties: Option<Vec<(String, Box<Schema>)>>,
    pub required: Option<Vec<String>>,
    pub description: Option<String>,
    pub title: Option<String>,
    pub enum_values: Option<Vec<serde_json::Value>>,
    pub const_value: Option<serde_json::Value>,
    pub items: Option<Box<Schema>>,
    pub additional_properties: Option<Box<Schema>>,
    pub one_of: Option<Vec<Schema>>,
    pub any_of: Option<Vec<Schema>>,
    pub all_of: Option<Vec<Schema>>,
    /// Keywords not modelled above; explicit fields win over colliding keys here.
    pub additional: Vec<(String, serde_json::Value)>,
}

/// Path prefix of a reference into `components.messages`.
pub open spec fn messages_prefix() -> Seq<char> {
    "#/components/messages/"@
}

/// Path prefix of a reference into `components.schemas`.
pub open spec fn schemas_prefix() -> Seq<char> {
    "#/components/schemas/"@
}

/// Path prefix of a reference to a channel.
pub open spec fn channels_prefix() -> Seq<char> {
    "#/channels/"@
}

/// The entries of `components.messages`, empty when that section is absent.
pub open spec fn component_messages(s: AsyncApiSpec) -> Seq<(String, Message)> {
    match s.components {
        Some(c) => match c.messages {
            Some(v) => v@,
            None => Seq::empty(),
        },
        None => Seq::empty(),
    }
}

/// The entries of `components.schemas`, empty when that section is absent.
pub open spec fn component_schemas(s: AsyncApiSpec) -> Seq<(String, Schema)> {
    match s.components {
        Some(c) => match c.schemas {
            Some(v) => v@,
            None => Seq::empty(),
        },
        None => Seq::empty(),
    }
}

/// The channel entries of a document, empty when the section is absent.
pub open spec fn channel_entries(s: AsyncApiSpec) -> Seq<(String, Channel)> {
    match s.channels {
        Some(v) => v@,
        None => Seq::empty(),
    }
}

/// The operation entries of a document, empty when the section is absent.
pub open spec fn operation_entries(s: AsyncApiSpec) -> Seq<(String, Operation)> {
    match s.operations {
        Some(v) => v@,
        None => Seq::empty(),
    }
}

impl Default for AsyncApiSpec {
    /// A minimal document: format version 3.0.0, title "API", version 1.0.0.
    fn default() -> (r: Self)
        ensures
            r.asyncapi@ == "3.0.0"@,
            r.info.title@ == "API"@,
            r.info.version@ == "1.0.0"@,
            r.info.description is None,
            r.servers is None,
            r.channels is None,
            r.operations is None,
            r.components is None,
    {
        AsyncApiSpec {
            asyncapi: String::from_str("3.0.0"),
            info: Info {
                title: String::from_str("API"),
                version: String::from_str("1.0.0"),
                description: None,
            },
            servers: None,
            channels: None,
            operations: None,
            components: None,
        }
    }
}

} // verus!

verus! {

/// Every schema reference inside `s` names an entry of `slots` (`#/components/schemas/{slot}`).
pub open spec fn schema_refs_resolve(s: Schema, slots: Seq<(String, Schema)>) -> bool
    decreases s,
{
    match s {
        Schema::Reference { reference } => exists|e: int|
            0 <= e < slots.len() && reference@ == schemas_prefix() + (#[trigger] slots[e]).0@,
        Schema::Object(o) => {
            &&& match o.properties {
                Some(v) => forall|i: int|
                    0 <= i < v@.len() ==> schema_refs_resolve(*(#[trigger] v@[i]).1, slots),
                None => true,
            }
            &&& match o.items {
                Some(b) => schema_refs_resolve(*b, slots),
                None => true,
            }
            &&& match o.additional_properties {
                Some(b) => schema_refs_resolve(*b, slots),
                None => true,
            }
            &&& match o.one_of {
                Some(v) => forall|i: int| 0 <= i < v@.len() ==> schema_refs_resolve(#[trigger] v@[i], slots),
                None => true,
            }
            &&& match o.any_of {
                Some(v) => forall|i: int| 0 <= i < v@.len() ==> schema_refs_resolve(#[trigger] v@[i], slots),
                None => true,
            }
            &&& match o.all_of {
                Some(v) => forall|i: int| 0 <= i < v@.len() ==> schema_refs_resolve(#[trigger] v@[i], slots),
                None => true,
            }
        },
    }
}

} // verus!
