use asyncapi_rust::{
    assemble, validate, AssemblyError, AsyncApiSpec, Channel, ChannelSpec, ComponentRegistry,
    Components, Info, Message, MessageDescriptor, MessageRef, OperationAction, OperationSpec,
    Schema, SchemaObject, Server,
};

fn id_payload() -> Schema {
    let id = SchemaObject {
        schema_type: Some("integer".to_string()),
        properties: None,
        required: None,
        description: None,
        title: None,
        enum_values: None,
        const_value: None,
        items: None,
        additional_properties: None,
        one_of: None,
        any_of: None,
        all_of: None,
        additional: vec![("format".to_string(), serde_json::Value::from("uint64"))],
    };
    let obj = SchemaObject {
        schema_type: Some("object".to_string()),
        properties: Some(vec![("id".to_string(), Box::new(Schema::Object(Box::new(id))))]),
        required: Some(vec!["id".to_string()]),
        description: None,
        title: None,
        enum_values: None,
        const_value: None,
        items: None,
        additional_properties: None,
        one_of: None,
        any_of: None,
        all_of: None,
        additional: Vec::new(),
    };
    Schema::Object(Box::new(obj))
}

fn descriptor(key: u64, name: &str) -> MessageDescriptor {
    MessageDescriptor {
        identity_key: key,
        name: name.to_string(),
        title: None,
        summary: Some(format!("{} message", name)),
        description: None,
        content_type: Some("application/json".to_string()),
        payload: Some(id_payload()),
    }
}

fn info() -> Info {
    Info { title: "Chat API".to_string(), version: "1.0.0".to_string(), description: None }
}

fn channel(name: &str, messages: Vec<MessageDescriptor>) -> ChannelSpec {
    ChannelSpec { name: name.to_string(), address: Some(format!("/{}", name)), messages }
}

fn operation(name: &str, channel_name: &str, messages: Vec<MessageDescriptor>) -> OperationSpec {
    OperationSpec {
        name: name.to_string(),
        action: OperationAction::Send,
        channel_name: channel_name.to_string(),
        messages,
    }
}

fn channel_refs(spec: &AsyncApiSpec, index: usize) -> &Vec<(String, MessageRef)> {
    spec.channels.as_ref().unwrap()[index].1.messages.as_ref().unwrap()
}

fn reference_of(r: &MessageRef) -> String {
    match r {
        MessageRef::Reference { reference } => reference.clone(),
        MessageRef::Inline(_) => panic!("expected a reference"),
    }
}

fn component_slots(spec: &AsyncApiSpec) -> Vec<String> {
    match &spec.components {
        Some(Components { messages: Some(ms), .. }) => ms.iter().map(|(s, _)| s.clone()).collect(),
        _ => Vec::new(),
    }
}

#[test]
fn identical_payloads_share_one_component() {
    let spec = assemble(
        info(),
        Vec::new(),
        vec![channel("a", vec![descriptor(7, "Ping")]), channel("b", vec![descriptor(7, "Pong")])],
        Vec::new(),
    )
    .unwrap();
    assert_eq!(component_slots(&spec), vec!["Ping".to_string()]);
    assert_eq!(reference_of(&channel_refs(&spec, 0)[0].1), "#/components/messages/Ping");
    assert_eq!(reference_of(&channel_refs(&spec, 1)[0].1), "#/components/messages/Ping");
    let stored = &spec.components.as_ref().unwrap().messages.as_ref().unwrap()[0].1;
    assert_eq!(stored.name, Some("Ping".to_string()));
    assert!(spec.components.as_ref().unwrap().schemas.is_none());
    assert!(validate(&spec).is_ok());
}

#[test]
fn single_use_message_is_inlined() {
    let spec =
        assemble(info(), Vec::new(), vec![channel("chat", vec![descriptor(1, "Ping")])], Vec::new())
            .unwrap();
    assert!(spec.components.is_none());
    let entries = channel_refs(&spec, 0);
    assert_eq!(entries.len(), 1);
    assert_eq!(entries[0].0, "Ping");
    match &entries[0].1 {
        MessageRef::Inline(m) => {
            assert_eq!(m.name, Some("Ping".to_string()));
            assert_eq!(m.summary, Some("Ping message".to_string()));
            assert_eq!(m.content_type, Some("application/json".to_string()));
            assert!(m.payload.is_some());
        },
        MessageRef::Reference { .. } => panic!("expected an inline message"),
    }
    assert_eq!(spec.channels.as_ref().unwrap()[0].1.address, Some("/chat".to_string()));
}

#[test]
fn empty_declarations_give_minimal_document() {
    let spec = assemble(info(), Vec::new(), Vec::new(), Vec::new()).unwrap();
    assert_eq!(spec.asyncapi, "3.0.0");
    assert_eq!(spec.info.title, "Chat API");
    assert_eq!(spec.info.version, "1.0.0");
    assert!(spec.servers.is_none());
    assert!(spec.channels.is_none());
    assert!(spec.operations.is_none());
    assert!(spec.components.is_none());
}

#[test]
fn once_inline_twice_reference_everywhere() {
    let spec = assemble(
        info(),
        Vec::new(),
        vec![
            channel("a", vec![descriptor(1, "Solo"), descriptor(2, "Shared")]),
            channel("b", vec![descriptor(2, "Shared")]),
        ],
        vec![operation("sendShared", "a", vec![descriptor(2, "Shared")])],
    )
    .unwrap();
    assert_eq!(component_slots(&spec), vec!["Shared".to_string()]);
    assert!(matches!(channel_refs(&spec, 0)[0].1, MessageRef::Inline(_)));
    let path = "#/components/messages/Shared".to_string();
    assert_eq!(reference_of(&channel_refs(&spec, 0)[1].1), path);
    assert_eq!(reference_of(&channel_refs(&spec, 1)[0].1), path);
    let ops = spec.operations.as_ref().unwrap();
    assert_eq!(ops[0].0, "sendShared");
    assert_eq!(ops[0].1.action, OperationAction::Send);
    assert_eq!(ops[0].1.channel.reference, "#/channels/a");
    assert_eq!(reference_of(&ops[0].1.messages.as_ref().unwrap()[0]), path);
    assert!(validate(&spec).is_ok());
}

fn sample_inputs() -> (Info, Vec<(String, Server)>, Vec<ChannelSpec>, Vec<OperationSpec>) {
    let servers = vec![(
        "production".to_string(),
        Server { host: "chat.example.com".to_string(), protocol: "wss".to_string(), description: None },
    )];
    let channels = vec![
        channel("a", vec![descriptor(3, "Join"), descriptor(4, "Leave"), descriptor(3, "Join")]),
        channel("b", vec![descriptor(5, "Leave"), descriptor(5, "Leave"), descriptor(6, "Text")]),
    ];
    let ops = vec![operation("receiveText", "b", vec![descriptor(6, "Text")])];
    (info(), servers, channels, ops)
}

#[test]
fn assembling_twice_gives_identical_output() {
    let (i1, s1, c1, o1) = sample_inputs();
    let (i2, s2, c2, o2) = sample_inputs();
    let first = assemble(i1, s1, c1, o1).unwrap();
    let second = assemble(i2, s2, c2, o2).unwrap();
    assert_eq!(format!("{:?}", first), format!("{:?}", second));
    assert_eq!(
        component_slots(&first),
        vec!["Join".to_string(), "Leave".to_string(), "Text".to_string()]
    );
    assert_eq!(first.servers.as_ref().unwrap()[0].1.protocol, "wss");
}

#[test]
fn slot_collision_with_other_key_is_suffixed() {
    let (i, s, c, o) = sample_inputs();
    let spec = assemble(i, s, c, o).unwrap();
    assert_eq!(component_slots(&spec)[1], "Leave");
    let spec = assemble(
        info(),
        Vec::new(),
        vec![channel(
            "a",
            vec![descriptor(10, "Leave"), descriptor(10, "Leave"), descriptor(11, "Leave"), descriptor(11, "Leave")],
        )],
        Vec::new(),
    )
    .unwrap();
    assert_eq!(component_slots(&spec), vec!["Leave".to_string(), "Leave_2".to_string()]);
    assert_eq!(reference_of(&channel_refs(&spec, 0)[3].1), "#/components/messages/Leave_2");
}

#[test]
fn empty_name_uses_message_slot() {
    let spec = assemble(
        info(),
        Vec::new(),
        vec![channel("a", vec![descriptor(1, ""), descriptor(1, "")])],
        Vec::new(),
    )
    .unwrap();
    assert_eq!(component_slots(&spec), vec!["message".to_string()]);
}

#[test]
fn exhausted_slot_names_fail() {
    let mut ds = Vec::new();
    for key in 0..5u64 {
        ds.push(descriptor(key, "m"));
        ds.push(descriptor(key, "m"));
    }
    match assemble(info(), Vec::new(), vec![channel("a", ds)], Vec::new()) {
        Err(AssemblyError::DuplicateSlotName { name }) => assert_eq!(name, "m"),
        other => panic!("unexpected result {:?}", other),
    }
}

#[test]
fn operation_on_undeclared_channel_fails() {
    let result = assemble(
        info(),
        Vec::new(),
        vec![channel("chat", vec![descriptor(1, "Ping")])],
        vec![
            operation("ok", "chat", vec![descriptor(1, "Ping")]),
            operation("bad", "chta", Vec::new()),
            operation("worse", "nowhere", Vec::new()),
        ],
    );
    match result {
        Err(AssemblyError::UnknownChannel { name }) => assert_eq!(name, "chta"),
        other => panic!("unexpected result {:?}", other),
    }
}

#[test]
fn typo_in_reference_is_dangling() {
    let mut spec = assemble(
        info(),
        Vec::new(),
        vec![channel("a", vec![descriptor(7, "Ping")]), channel("b", vec![descriptor(7, "Pong")])],
        Vec::new(),
    )
    .unwrap();
    let typo = "#/components/messages/Pnig".to_string();
    spec.channels.as_mut().unwrap()[1].1 = Channel {
        address: None,
        messages: Some(vec![("Pong".to_string(), MessageRef::Reference { reference: typo.clone() })]),
    };
    match validate(&spec) {
        Err(AssemblyError::DanglingReference { reference }) => assert_eq!(reference, typo),
        other => panic!("unexpected result {:?}", other),
    }
}

#[test]
fn operation_channel_must_resolve() {
    let mut spec = assemble(
        info(),
        Vec::new(),
        vec![channel("chat", Vec::new())],
        vec![operation("send", "chat", Vec::new())],
    )
    .unwrap();
    assert!(validate(&spec).is_ok());
    spec.operations.as_mut().unwrap()[0].1.channel.reference = "#/channels/chta".to_string();
    assert!(matches!(validate(&spec), Err(AssemblyError::DanglingReference { .. })));
    let channels = spec.channels.as_ref().unwrap();
    assert!(channels[0].1.messages.is_none());
}

#[test]
fn registry_refuses_calls_in_wrong_phase() {
    let mut reg = ComponentRegistry::new();
    assert!(matches!(
        reg.intern_message(descriptor(1, "Ping")),
        Err(AssemblyError::InvalidRegistryState)
    ));
    assert!(reg.tally(1).is_ok());
    assert!(reg.tally(1).is_ok());
    assert_eq!(reg.count(1), 2);
    assert_eq!(reg.count(2), 0);
    assert!(reg.close_tally().is_ok());
    assert!(matches!(reg.tally(1), Err(AssemblyError::InvalidRegistryState)));
    assert!(matches!(reg.close_tally(), Err(AssemblyError::InvalidRegistryState)));
    let first = reg.intern_message(descriptor(1, "Ping")).unwrap();
    let second = reg.intern_message(descriptor(1, "Pong")).unwrap();
    assert_eq!(reference_of(&first), "#/components/messages/Ping");
    assert_eq!(reference_of(&second), "#/components/messages/Ping");
    let entries = reg.seal();
    assert_eq!(entries.len(), 1);
    assert_eq!(entries[0].1.name, Some("Ping".to_string()));
}

#[test]
fn default_document() {
    let spec = AsyncApiSpec::default();
    assert_eq!(spec.asyncapi, "3.0.0");
    assert_eq!(spec.info.title, "API");
    assert_eq!(spec.info.version, "1.0.0");
    assert!(spec.info.description.is_none());
    assert!(spec.servers.is_none() && spec.channels.is_none());
    assert!(spec.operations.is_none() && spec.components.is_none());
}

#[test]
fn message_without_payload_keeps_payload_absent() {
    let mut d = descriptor(1, "Bare");
    d.payload = None;
    let spec = assemble(info(), Vec::new(), vec![channel("a", vec![d])], Vec::new()).unwrap();
    match &channel_refs(&spec, 0)[0].1 {
        MessageRef::Inline(m) => {
            let m: &Message = m;
            assert!(m.payload.is_none());
        },
        _ => panic!("expected an inline message"),
    }
}

fn object_with_items(items: Schema) -> Schema {
    Schema::Object(Box::new(SchemaObject {
        schema_type: Some("array".to_string()),
        properties: None,
        required: None,
        description: None,
        title: None,
        enum_values: None,
        const_value: None,
        items: Some(Box::new(items)),
        additional_properties: None,
        one_of: None,
        any_of: None,
        all_of: None,
        additional: Vec::new(),
    }))
}

#[test]
fn payload_schema_reference_without_schemas_is_dangling() {
    let mut d = descriptor(1, "List");
    d.payload = Some(object_with_items(Schema::Reference {
        reference: "#/components/schemas/Item".to_string(),
    }));
    match assemble(info(), Vec::new(), vec![channel("a", vec![d])], Vec::new()) {
        Err(AssemblyError::DanglingReference { reference }) => {
            assert_eq!(reference, "#/components/schemas/Item")
        },
        other => panic!("unexpected result {:?}", other),
    }
}

#[test]
fn schema_reference_resolves_against_component_schemas() {
    let mut spec = assemble(
        info(),
        Vec::new(),
        vec![channel("a", vec![descriptor(1, "List")])],
        Vec::new(),
    )
    .unwrap();
    let inline = MessageRef::Inline(Box::new(Message {
        name: Some("List".to_string()),
        title: None,
        summary: None,
        description: None,
        content_type: None,
        payload: Some(object_with_items(Schema::Reference {
            reference: "#/components/schemas/Item".to_string(),
        })),
    }));
    spec.channels.as_mut().unwrap()[0].1.messages = Some(vec![("List".to_string(), inline)]);
    assert!(matches!(validate(&spec), Err(AssemblyError::DanglingReference { .. })));
    spec.components = Some(Components {
        messages: None,
        schemas: Some(vec![("Item".to_string(), id_payload())]),
    });
    assert!(validate(&spec).is_ok());
    spec.components = Some(Components {
        messages: None,
        schemas: Some(vec![(
            "Item".to_string(),
            Schema::Reference { reference: "#/definitions/Item".to_string() },
        )]),
    });
    match validate(&spec) {
        Err(AssemblyError::DanglingReference { reference }) => {
            assert_eq!(reference, "#/definitions/Item")
        },
        other => panic!("unexpected result {:?}", other),
    }
}
