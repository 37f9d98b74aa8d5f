//! Assembly of AsyncAPI 3.0 documents from message descriptors, with
//! deduplicated reusable components and referential validation.
use vstd::prelude::*;

pub mod assembler;
pub mod laws;
pub mod meta;
pub mod model;
pub mod registry;

pub use assembler::{assemble, validate, ChannelSpec, OperationSpec};
pub use meta::{extract_asyncapi_spec_meta, ArgValue, AsyncApiSpecMeta, AttrArg, AttrModel};
pub use model::{
    AsyncApiSpec, Channel, ChannelRef, Components, Info, Message, MessageRef, Operation,
    OperationAction, Schema, SchemaObject, Server,
};
pub use registry::{AssemblyError, ComponentRegistry, MessageDescriptor, RegistryPhase};

verus! {

} // verus!
