//! Laws of assembled documents, proved from the contracts of `assemble`.
use crate::assembler::{
    all_keys, assembled, channel_messages, channel_ok, channel_ref_resolves, comes_from,
    declares_channel, entry_from, from_declarations, has_unknown_channel, inline_payload_resolves,
    message_ref_resolves, occurrence_ok, occurs, operation_messages, operation_ok,
    payload_resolves, payloads_resolve, references_resolve, schemas_resolve, occurrences,
    stored_after, ChannelSpec,
    OperationSpec,
};
use crate::model::{
    channel_entries, component_messages, component_schemas, messages_prefix, operation_entries,
    AsyncApiSpec, Info, Message, MessageRef, Schema, Server,
};
use crate::registry::{count_of, message_of, message_path, MessageDescriptor};
use vstd::prelude::*;

verus! {

proof fn lemma_message_path_injective(a: Seq<char>, b: Seq<char>)
    requires
        message_path(a) == message_path(b),
    ensures
        a == b,
{
    let n = messages_prefix().len();
    assert(message_path(a).subrange(n as int, message_path(a).len() as int) =~= a);
    assert(message_path(b).subrange(n as int, message_path(b).len() as int) =~= b);
}

/// In an assembled document, an occurrence whose identity key is counted
/// fewer than twice is its message inline. Two occurrences of one key that is
/// counted at least twice are references with the same path, and that path
/// names exactly one entry of `components.messages`.
pub proof fn lemma_inline_or_shared_reference(
    ks: Seq<u64>,
    info: Info,
    servers: Seq<(String, Server)>,
    cs: Seq<ChannelSpec>,
    os: Seq<OperationSpec>,
    s: AsyncApiSpec,
    d1: MessageDescriptor,
    r1: MessageRef,
    d2: MessageDescriptor,
    r2: MessageRef,
)
    requires
        assembled(ks, info, servers, cs, os, s),
        occurrence_ok(d1, r1, all_keys(cs, os), ks, component_messages(s)),
        occurrence_ok(d2, r2, all_keys(cs, os), ks, component_messages(s)),
    ensures
        count_of(all_keys(cs, os), d1.identity_key) < 2 ==> (r1 matches MessageRef::Inline(m)
            && *m == message_of(d1)),
        count_of(all_keys(cs, os), d1.identity_key) >= 2 && d1.identity_key == d2.identity_key
            ==> (r1 matches MessageRef::Reference { reference: p1 } && r2 matches MessageRef::Reference {
            reference: p2,
        } && p1@ == p2@ && exists|e: int|
            0 <= e < component_messages(s).len() && p1@ == message_path(
                (#[trigger] component_messages(s)[e]).0@,
            ) && forall|f: int|
                0 <= f < component_messages(s).len() && p1@ == message_path(
                    (#[trigger] component_messages(s)[f]).0@,
                ) ==> f == e),
{
    let t = all_keys(cs, os);
    let cm = component_messages(s);
    let k = d1.identity_key;
    if count_of(t, k) >= 2 && d2.identity_key == k {
        let e1 = choose|e: int|
            0 <= e < ks.len() && e < cm.len() && #[trigger] ks[e] == d1.identity_key && (r1 matches MessageRef::Reference { reference } && reference@ == message_path(cm[e].0@));
        let e2 = choose|e: int|
            0 <= e < ks.len() && e < cm.len() && #[trigger] ks[e] == d2.identity_key && (r2 matches MessageRef::Reference { reference } && reference@ == message_path(cm[e].0@));
        if e1 < e2 {
            assert(ks[e1] != ks[e2]);
        } else if e2 < e1 {
            assert(ks[e2] != ks[e1]);
        }
        assert forall|f: int|
            0 <= f < cm.len() && message_path(cm[e1].0@) == message_path(
                (#[trigger] cm[f]).0@,
            ) implies f == e1 by {
            lemma_message_path_injective(cm[e1].0@, cm[f].0@);
            if f < e1 {
                assert(cm[f].0@ != cm[e1].0@);
            } else if e1 < f {
                assert(cm[e1].0@ != cm[f].0@);
            }
        }
    }
}

/// Every reference of an assembled document resolves: its message references
/// name entries of `components.messages`, and its operations name its channels.
pub proof fn lemma_assembled_references_resolve(
    ks: Seq<u64>,
    info: Info,
    servers: Seq<(String, Server)>,
    cs: Seq<ChannelSpec>,
    os: Seq<OperationSpec>,
    s: AsyncApiSpec,
)
    requires
        assembled(ks, info, servers, cs, os, s),
    ensures
        references_resolve(s),
{
    let t = all_keys(cs, os);
    let cm = component_messages(s);
    let chans = channel_entries(s);
    let ops = operation_entries(s);
    assert forall|d: MessageDescriptor, r: MessageRef|
        #[trigger] occurrence_ok(d, r, t, ks, cm) implies message_ref_resolves(r, cm) by {
        if count_of(t, d.identity_key) >= 2 {
            let e = choose|e: int|
                0 <= e < ks.len() && e < cm.len() && #[trigger] ks[e] == d.identity_key && (r matches MessageRef::Reference { reference } && reference@ == message_path(cm[e].0@));
            assert(cm[e] == cm[e]);
        }
    }
    assert forall|i: int, j: int|
        0 <= i < chans.len() && 0 <= j < channel_messages(chans[i].1).len() implies message_ref_resolves(
        (#[trigger] channel_messages(chans[i].1)[j]).1,
        cm,
    ) by {
        assert(channel_ok(cs[i], chans[i], t, ks, cm));
        assert(occurrence_ok(cs[i].messages@[j], channel_messages(chans[i].1)[j].1, t, ks, cm));
    }
    assert forall|i: int| 0 <= i < ops.len() implies channel_ref_resolves(
        (#[trigger] ops[i]).1.channel,
        chans,
    ) by {
        assert(operation_ok(os[i], ops[i], t, ks, cm));
        assert(!has_unknown_channel(cs, os));
        assert(declares_channel(cs, os[i].channel_name@));
        let c = choose|c: int| 0 <= c < cs.len() && (#[trigger] cs[c]).name@ == os[i].channel_name@;
        assert(channel_ok(cs[c], chans[c], t, ks, cm));
    }
    assert forall|i: int, j: int|
        0 <= i < ops.len() && 0 <= j < operation_messages(ops[i].1).len() implies message_ref_resolves(
        #[trigger] operation_messages(ops[i].1)[j],
        cm,
    ) by {
        assert(operation_ok(os[i], ops[i], t, ks, cm));
        assert(occurrence_ok(os[i].messages@[j], operation_messages(ops[i].1)[j], t, ks, cm));
    }
}

/// When no declared payload holds a schema reference, every schema reference
/// of an assembled document resolves (there are none).
pub proof fn lemma_assembled_schemas_resolve(
    ks: Seq<u64>,
    info: Info,
    servers: Seq<(String, Server)>,
    cs: Seq<ChannelSpec>,
    os: Seq<OperationSpec>,
    s: AsyncApiSpec,
)
    requires
        assembled(ks, info, servers, cs, os, s),
        payloads_resolve(cs, os),
    ensures
        schemas_resolve(s),
{
    let t = all_keys(cs, os);
    let cm = component_messages(s);
    let sc = component_schemas(s);
    let chans = channel_entries(s);
    let ops = operation_entries(s);
    assert(sc =~= Seq::<(String, Schema)>::empty());
    assert forall|i: int, j: int|
        0 <= i < chans.len() && 0 <= j < channel_messages(chans[i].1).len() implies inline_payload_resolves(
        (#[trigger] channel_messages(chans[i].1)[j]).1,
        sc,
    ) by {
        assert(channel_ok(cs[i], chans[i], t, ks, cm));
        let d = cs[i].messages@[j];
        assert(occurrence_ok(d, channel_messages(chans[i].1)[j].1, t, ks, cm));
        assert(occurs(cs, os, d));
    }
    assert forall|i: int, j: int|
        0 <= i < ops.len() && 0 <= j < operation_messages(ops[i].1).len() implies inline_payload_resolves(
        #[trigger] operation_messages(ops[i].1)[j],
        sc,
    ) by {
        assert(operation_ok(os[i], ops[i], t, ks, cm));
        let d = os[i].messages@[j];
        assert(occurrence_ok(d, operation_messages(ops[i].1)[j], t, ks, cm));
        assert(occurs(cs, os, d));
    }
    assert forall|e: int| 0 <= e < cm.len() implies payload_resolves((#[trigger] cm[e]).1, sc) by {
        assert(from_declarations(cs, os, ks[e], cm[e]));
        if exists|i: int| 0 <= i < cs.len() && #[trigger] comes_from(cs[i].messages@, ks[e], cm[e]) {
            let i = choose|i: int| 0 <= i < cs.len() && #[trigger] comes_from(cs[i].messages@, ks[e], cm[e]);
            let j = choose|j: int| 0 <= j < cs[i].messages@.len() && #[trigger] entry_from(cs[i].messages@[j], ks[e], cm[e]);
            assert(occurs(cs, os, cs[i].messages@[j]));
        } else {
            let i = choose|i: int| 0 <= i < os.len() && #[trigger] comes_from(os[i].messages@, ks[e], cm[e]);
            let j = choose|j: int| 0 <= j < os[i].messages@.len() && #[trigger] entry_from(os[i].messages@[j], ks[e], cm[e]);
            assert(occurs(cs, os, os[i].messages@[j]));
        }
    }
}

/// Two forms of a message at a use site agree: equal inline messages, or
/// references with equal paths.
pub open spec fn same_use(r1: MessageRef, r2: MessageRef) -> bool {
    match r1 {
        MessageRef::Inline(m1) => r2 matches MessageRef::Inline(m2) && m1 == m2,
        MessageRef::Reference { reference: p1 } => r2 matches MessageRef::Reference {
            reference: p2,
        } && p1@ == p2@,
    }
}

/// The server entries of a document, empty when the section is absent.
pub open spec fn server_entries(s: AsyncApiSpec) -> Seq<(String, Server)> {
    match s.servers {
        Some(v) => v@,
        None => Seq::empty(),
    }
}

/// Component entries agree in slot name (as text) and message.
pub open spec fn same_components(cm1: Seq<(String, Message)>, cm2: Seq<(String, Message)>) -> bool {
    &&& cm1.len() == cm2.len()
    &&& forall|e: int| 0 <= e < cm1.len() ==> (#[trigger] cm1[e]).0@ == cm2[e].0@ && cm1[e].1 == cm2[e].1
}

proof fn lemma_same_occurrence(
    d: MessageDescriptor,
    r1: MessageRef,
    r2: MessageRef,
    t: Seq<u64>,
    ks: Seq<u64>,
    cm1: Seq<(String, Message)>,
    cm2: Seq<(String, Message)>,
)
    requires
        occurrence_ok(d, r1, t, ks, cm1),
        occurrence_ok(d, r2, t, ks, cm2),
        forall|i: int, j: int| 0 <= i < j < ks.len() ==> ks[i] != ks[j],
        same_components(cm1, cm2),
    ensures
        same_use(r1, r2),
{
    if count_of(t, d.identity_key) >= 2 {
        let e1 = choose|e: int|
            0 <= e < ks.len() && e < cm1.len() && #[trigger] ks[e] == d.identity_key && (r1 matches MessageRef::Reference { reference } && reference@ == message_path(cm1[e].0@));
        let e2 = choose|e: int|
            0 <= e < ks.len() && e < cm2.len() && #[trigger] ks[e] == d.identity_key && (r2 matches MessageRef::Reference { reference } && reference@ == message_path(cm2[e].0@));
        if e1 < e2 {
            assert(ks[e1] != ks[e2]);
        } else if e2 < e1 {
            assert(ks[e2] != ks[e1]);
        }
        assert(cm1[e1].0@ == cm2[e1].0@);
    }
}

/// Assembly is deterministic: two documents assembled from the same
/// declarations store the same keys, slot names and messages in the same
/// order, and agree entry by entry on servers, channels and operations,
/// including every inline message and every reference path.
pub proof fn lemma_assembly_deterministic(
    ks1: Seq<u64>,
    s1: AsyncApiSpec,
    ks2: Seq<u64>,
    s2: AsyncApiSpec,
    info: Info,
    servers: Seq<(String, Server)>,
    cs: Seq<ChannelSpec>,
    os: Seq<OperationSpec>,
)
    requires
        assembled(ks1, info, servers, cs, os, s1),
        assembled(ks2, info, servers, cs, os, s2),
    ensures
        ks1 == ks2,
        s1.asyncapi@ == s2.asyncapi@,
        s1.info == s2.info,
        server_entries(s1) == server_entries(s2),
        s1.servers is None <==> s2.servers is None,
        s1.components is None <==> s2.components is None,
        same_components(component_messages(s1), component_messages(s2)),
        s1.channels is None <==> s2.channels is None,
        channel_entries(s1).len() == channel_entries(s2).len(),
        forall|i: int|
            0 <= i < channel_entries(s1).len() ==> {
                let c1 = (#[trigger] channel_entries(s1)[i]);
                let c2 = channel_entries(s2)[i];
                &&& c1.0 == c2.0
                &&& c1.1.address == c2.1.address
                &&& (c1.1.messages is None <==> c2.1.messages is None)
                &&& channel_messages(c1.1).len() == channel_messages(c2.1).len()
                &&& forall|j: int|
                    0 <= j < channel_messages(c1.1).len() ==> (#[trigger] channel_messages(c1.1)[j]).0@
                        == channel_messages(c2.1)[j].0@ && same_use(
                        channel_messages(c1.1)[j].1,
                        channel_messages(c2.1)[j].1,
                    )
            },
        s1.operations is None <==> s2.operations is None,
        operation_entries(s1).len() == operation_entries(s2).len(),
        forall|i: int|
            0 <= i < operation_entries(s1).len() ==> {
                let o1 = (#[trigger] operation_entries(s1)[i]);
                let o2 = operation_entries(s2)[i];
                &&& o1.0 == o2.0
                &&& o1.1.action == o2.1.action
                &&& o1.1.channel.reference@ == o2.1.channel.reference@
                &&& (o1.1.messages is None <==> o2.1.messages is None)
                &&& operation_messages(o1.1).len() == operation_messages(o2.1).len()
                &&& forall|j: int|
                    0 <= j < operation_messages(o1.1).len() ==> same_use(
                        #[trigger] operation_messages(o1.1)[j],
                        operation_messages(o2.1)[j],
                    )
            },
{
    let t = all_keys(cs, os);
    let st = stored_after(occurrences(cs, os), t);
    let cm1 = component_messages(s1);
    let cm2 = component_messages(s2);
    assert(ks1 =~= ks2) by {
        assert forall|e: int| 0 <= e < ks1.len() implies ks1[e] == ks2[e] by {
            assert(ks1[e] == st[e].0);
            assert(ks2[e] == st[e].0);
        }
    }
    assert forall|e: int| 0 <= e < cm1.len() implies (#[trigger] cm1[e]).0@ == cm2[e].0@ && cm1[e].1 == cm2[e].1 by {
        assert(cm1[e].0@ == st[e].1 && cm1[e].1 == st[e].2);
        assert(cm2[e].0@ == st[e].1 && cm2[e].1 == st[e].2);
    }
    let chans1 = channel_entries(s1);
    let chans2 = channel_entries(s2);
    assert forall|i: int| 0 <= i < chans1.len() implies {
        let c1 = (#[trigger] chans1[i]);
        let c2 = chans2[i];
        &&& c1.0 == c2.0
        &&& c1.1.address == c2.1.address
        &&& (c1.1.messages is None <==> c2.1.messages is None)
        &&& channel_messages(c1.1).len() == channel_messages(c2.1).len()
        &&& forall|j: int|
            0 <= j < channel_messages(c1.1).len() ==> (#[trigger] channel_messages(c1.1)[j]).0@
                == channel_messages(c2.1)[j].0@ && same_use(
                channel_messages(c1.1)[j].1,
                channel_messages(c2.1)[j].1,
            )
    } by {
        assert(channel_ok(cs[i], chans1[i], t, ks1, cm1));
        assert(channel_ok(cs[i], chans2[i], t, ks2, cm2));
        assert forall|j: int| 0 <= j < channel_messages(chans1[i].1).len() implies (#[trigger] channel_messages(chans1[i].1)[j]).0@
            == channel_messages(chans2[i].1)[j].0@ && same_use(
            channel_messages(chans1[i].1)[j].1,
            channel_messages(chans2[i].1)[j].1,
        ) by {
            lemma_same_occurrence(
                cs[i].messages@[j],
                channel_messages(chans1[i].1)[j].1,
                channel_messages(chans2[i].1)[j].1,
                t,
                ks1,
                cm1,
                cm2,
            );
        }
    }
    let ops1 = operation_entries(s1);
    let ops2 = operation_entries(s2);
    assert forall|i: int| 0 <= i < ops1.len() implies {
        let o1 = (#[trigger] ops1[i]);
        let o2 = ops2[i];
        &&& o1.0 == o2.0
        &&& o1.1.action == o2.1.action
        &&& o1.1.channel.reference@ == o2.1.channel.reference@
        &&& (o1.1.messages is None <==> o2.1.messages is None)
        &&& operation_messages(o1.1).len() == operation_messages(o2.1).len()
        &&& forall|j: int|
            0 <= j < operation_messages(o1.1).len() ==> same_use(
                #[trigger] operation_messages(o1.1)[j],
                operation_messages(o2.1)[j],
            )
    } by {
        assert(operation_ok(os[i], ops1[i], t, ks1, cm1));
        assert(operation_ok(os[i], ops2[i], t, ks2, cm2));
        assert forall|j: int| 0 <= j < operation_messages(ops1[i].1).len() implies same_use(
            #[trigger] operation_messages(ops1[i].1)[j],
            operation_messages(ops2[i].1)[j],
        ) by {
            lemma_same_occurrence(
                os[i].messages@[j],
                operation_messages(ops1[i].1)[j],
                operation_messages(ops2[i].1)[j],
                t,
                ks1,
                cm1,
                cm2,
            );
        }
    }
}

} // verus!
